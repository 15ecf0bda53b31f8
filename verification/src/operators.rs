//! The operator alphabet: tags for the five binary operators an expression
//! may combine its operands with.
use vstd::prelude::*;

verus! {

/// One binary operator tag. `Concat` glues two decimal literals together,
/// the other four are ordinary arithmetic.
#[derive(Copy, Clone, Debug, Hash, PartialEq, Eq, Structural)]
pub enum ExpressionAction {
    Concat,
    Plus,
    Minus,
    Times,
    Divide,
}

impl Default for ExpressionAction {
    fn default() -> (r: Self)
        ensures
            r == ExpressionAction::Concat,
    {
        Self::Concat
    }
}

} // verus!
