//! Exhaustive search engine for arithmetic expressions over a fixed atom
//! sequence: enumerates every parenthesization shape, every operator
//! assignment, interns the resulting expression graphs in a content-addressed
//! pool, evaluates them with exact rational arithmetic, and renders a
//! minimally parenthesized text form.
use vstd::prelude::*;

mod arrange;
mod bigint;
mod bignat;
mod decimal;
mod errors;
mod expression;
mod operators;
mod pool;
mod rational;
mod shape;

pub use crate::arrange::Arrangement;
pub use crate::bigint::BigInt;
pub use crate::bignat::BigNat;
pub use crate::errors::StopReason;
pub use crate::operators::ExpressionAction;
pub use crate::pool::evaluate;
pub use crate::pool::EvaluatedState;
pub use crate::pool::ExpressionPool;
pub use crate::pool::NodeID;
pub use crate::rational::BigRational;
pub use crate::shape::FullBinaryTrees;
pub use crate::shape::TreeShape;

use vstd::arithmetic::power::pow;

use crate::arrange::spec_assignment;
use crate::arrange::spec_dedup;
use crate::expression::spec_tree_eval;
use crate::expression::seq_extends;
use crate::pool::intern_post;
use crate::pool::preserves_evaluated;
use crate::pool::spec_eval;
use crate::pool::spec_render;

verus! {

/// One unit of interning: an atom carrying its value, or a binary operator
/// application over two already-interned nodes.
#[derive(Copy, Clone, Debug, Hash, PartialEq, Eq, Structural)]
pub enum ExpressionNode {
    Atomic { number: usize },
    Binary { action: ExpressionAction, lhs: crate::pool::NodeID, rhs: crate::pool::NodeID },
}

impl ExpressionNode {
    /// The binding strength the renderer compares: atoms bind tightest,
    /// then concatenation, then multiplicative, then additive operators.
    pub open spec fn spec_priority(self) -> int {
        match self {
            ExpressionNode::Atomic { .. } => 1000,
            ExpressionNode::Binary { action, .. } => match action {
                ExpressionAction::Concat => 900,
                ExpressionAction::Times => 800,
                ExpressionAction::Divide => 800,
                ExpressionAction::Plus => 700,
                ExpressionAction::Minus => 700,
            },
        }
    }

    pub fn get_priority(&self) -> (r: usize)
        ensures
            r == self.spec_priority(),
    {
        match self {
            ExpressionNode::Atomic { .. } => 1000,
            ExpressionNode::Binary { action, .. } => match action {
                ExpressionAction::Concat => 900,
                ExpressionAction::Times => 800,
                ExpressionAction::Divide => 800,
                ExpressionAction::Plus => 700,
                ExpressionAction::Minus => 700,
            },
        }
    }
}

/// One search session: the pool, the shape cache, and the task's atoms
/// and operator alphabet.
#[derive(Debug)]
pub struct ExpressionCache {
    pub pool: ExpressionPool,
    pub catalan: FullBinaryTrees,
    pub values: Vec<usize>,
    pub operators: Vec<ExpressionAction>,
}

/// A fresh vector with the same operator tags.
fn copy_ops(v: &Vec<ExpressionAction>) -> (r: Vec<ExpressionAction>)
    ensures
        r@ == v@,
{
    let mut out: Vec<ExpressionAction> = Vec::new();
    let mut i: usize = 0;
    while i < v.len()
        invariant
            i <= v@.len(),
            out@ =~= v@.subrange(0, i as int),
        decreases v@.len() - i,
    {
        out.push(v[i]);
        i = i + 1;
    }
    proof {
        assert(out@ =~= v@);
    }
    out
}

impl ExpressionCache {
    pub open spec fn wf(&self) -> bool {
        &&& self.pool.wf()
        &&& self.catalan.wf()
    }

    pub fn new() -> (r: ExpressionCache)
        ensures
            r.wf(),
            r.pool.nodes@.len() == 0,
            r.values@.len() == 0,
            r.operators@.len() == 0,
    {
        ExpressionCache {
            pool: ExpressionPool::new(),
            catalan: FullBinaryTrees::new(),
            values: Vec::new(),
            operators: Vec::new(),
        }
    }

    /// Fix the task: the atom sequence and the operator alphabet of this
    /// session, and build the shape cache for that many atoms.
    pub fn task(&mut self, values: Vec<usize>, operators: Vec<ExpressionAction>)
        requires
            old(self).wf(),
        ensures
            final(self).wf(),
            final(self).values == values,
            final(self).operators == operators,
            final(self).pool == old(self).pool,
            final(self).catalan.cache@.len() > values@.len(),
    {
        self.values = values;
        self.operators = operators;
        let n = self.values.len();
        self.catalan.build_trees(n);
    }

    /// Register every combination of one shape and one operator
    /// assignment over the task's atoms, in shape order then counter
    /// order, and hand back the root identifiers. The assignment count
    /// per shape must fit in a machine word, since the result is
    /// materialized as one vector.
    pub fn sequence(&mut self) -> (r: Vec<NodeID>)
        requires
            old(self).wf(),
            old(self).values@.len() >= 1,
            pow(
                spec_dedup(old(self).operators@).len() as int,
                (old(self).values@.len() - 1) as nat,
            ) <= usize::MAX,
        ensures
            final(self).wf(),
            final(self).values == old(self).values,
            final(self).operators == old(self).operators,
            seq_extends(final(self).pool.exprs(), old(self).pool.exprs()),
            preserves_evaluated(old(self).pool, final(self).pool),
            r@.len() == crate::shape::spec_trees(old(self).values@.len() as nat).len() * pow(
                spec_dedup(old(self).operators@).len() as int,
                (old(self).values@.len() - 1) as nat,
            ),
            forall|k: int|
                0 <= k < r@.len() ==> (#[trigger] r@[k] as int) < final(self).pool.exprs().len(),
            forall|k: int|
                0 <= k < r@.len() ==> spec_eval(final(self).pool.exprs(), #[trigger] r@[k] as int)
                    == spec_tree_eval(
                    crate::shape::spec_trees(old(self).values@.len() as nat)[k / pow(
                        spec_dedup(old(self).operators@).len() as int,
                        (old(self).values@.len() - 1) as nat,
                    )],
                    old(self).values@,
                    spec_assignment(
                        spec_dedup(old(self).operators@),
                        (old(self).values@.len() - 1) as nat,
                        (k % pow(
                            spec_dedup(old(self).operators@).len() as int,
                            (old(self).values@.len() - 1) as nat,
                        )) as nat,
                    ),
                    0,
                    0,
                ),
    {
        let n = self.values.len();
        let slots = n - 1;
        self.catalan.build_trees(n);
        proof {
            crate::shape::lemma_shape_enumeration(n as nat);
        }
        let probe = Arrangement::new(copy_ops(&self.operators));
        let alphabet = probe.length;
        let total = match crate::arrange::checked_pow(alphabet, slots) {
            Some(t) => t,
            None => {
                proof {
                    assert(false);
                }
                0
            },
        };
        let tree_count = self.catalan.inquire(n).len();
        let mut out: Vec<NodeID> = Vec::new();
        let ghost base_pool = self.pool;
        let ghost base_values = self.values@;
        let mut ti: usize = 0;
        while ti < tree_count
            invariant
                self.wf(),
                self.values@ == base_values,
                self.values == old(self).values,
                self.operators == old(self).operators,
                n == self.values@.len(),
                n >= 1,
                slots == n - 1,
                n < self.catalan.cache@.len(),
                tree_count == crate::shape::spec_trees(n as nat).len(),
                alphabet == spec_dedup(self.operators@).len(),
                total == pow(alphabet as int, slots as nat),
                ti <= tree_count,
                out@.len() == ti * total,
                base_pool.wf(),
                self.pool.exprs().len() == self.pool.nodes@.len(),
                seq_extends(self.pool.exprs(), base_pool.exprs()),
                preserves_evaluated(base_pool, self.pool),
                forall|k: int|
                    0 <= k < out@.len() ==> (#[trigger] out@[k] as int)
                        < self.pool.exprs().len(),
                forall|k: int|
                    0 <= k < out@.len() ==> spec_eval(self.pool.exprs(), #[trigger] out@[k] as int)
                        == spec_tree_eval(
                        crate::shape::spec_trees(n as nat)[k / total as int],
                        base_values,
                        spec_assignment(
                            spec_dedup(self.operators@),
                            slots as nat,
                            (k % total as int) as nat,
                        ),
                        0,
                        0,
                    ),
            decreases tree_count - ti,
        {
            let mut arr = Arrangement::new(copy_ops(&self.operators)).with_slots(slots);
            let mut oi: usize = 0;
            while oi < total
                invariant
                    self.wf(),
                    self.values@ == base_values,
                    self.values == old(self).values,
                    self.operators == old(self).operators,
                    n == self.values@.len(),
                    n >= 1,
                    slots == n - 1,
                    n < self.catalan.cache@.len(),
                    ti < tree_count,
                    tree_count == crate::shape::spec_trees(n as nat).len(),
                    self.catalan.cache@[n as int]@ == crate::shape::spec_trees(n as nat),
                    alphabet == spec_dedup(self.operators@).len(),
                    total == pow(alphabet as int, slots as nat),
                    arr.wf(),
                    arr.length == slots,
                    arr.operators@ == spec_dedup(self.operators@),
                    arr.order == oi,
                    oi <= total,
                    out@.len() == ti * total + oi,
                    base_pool.wf(),
                    self.pool.exprs().len() == self.pool.nodes@.len(),
                    seq_extends(self.pool.exprs(), base_pool.exprs()),
                    preserves_evaluated(base_pool, self.pool),
                    forall|k: int|
                        0 <= k < out@.len() ==> (#[trigger] out@[k] as int)
                            < self.pool.exprs().len(),
                    forall|k: int|
                        0 <= k < out@.len() ==> spec_eval(
                            self.pool.exprs(),
                            #[trigger] out@[k] as int,
                        ) == spec_tree_eval(
                            crate::shape::spec_trees(n as nat)[k / total as int],
                            base_values,
                            spec_assignment(
                                spec_dedup(self.operators@),
                                slots as nat,
                                (k % total as int) as nat,
                            ),
                            0,
                            0,
                        ),
                decreases total - oi,
            {
                let tuple = match arr.next() {
                    Some(t) => t,
                    None => {
                        proof {
                            assert(false);
                        }
                        return out;
                    },
                };
                let ghost prev_pool = self.pool;
                proof {
                    crate::shape::lemma_shape_enumeration(n as nat);
                    assert(self.catalan.cache@[n as int]@[ti as int].leaves() == n);
                    assert(self.catalan.cache@[n as int]@[ti as int].internals() == n - 1);
                    assert(tuple@.len() == slots);
                }
                let id = self.pool.register_binary_node(
                    &self.catalan.cache[n][ti],
                    &self.values,
                    &tuple,
                );
                out.push(id);
                proof {
                    assert(prev_pool.exprs().len() == prev_pool.nodes@.len());
                    crate::pool::lemma_preserves_chain(base_pool, prev_pool, self.pool);
                    crate::expression::lemma_extends_trans(
                        self.pool.exprs(),
                        prev_pool.exprs(),
                        base_pool.exprs(),
                    );
                    assert forall|k: int|
                        0 <= k < out@.len() implies (#[trigger] out@[k] as int)
                        < self.pool.exprs().len() by {
                        if k < out@.len() - 1 {
                            assert((out@[k] as int) < prev_pool.exprs().len());
                        }
                    }
                    assert(total >= 1);
                    vstd::arithmetic::div_mod::lemma_fundamental_div_mod_converse(
                        ti * total + oi,
                        total as int,
                        ti as int,
                        oi as int,
                    );
                    assert forall|k: int|
                        0 <= k < out@.len() implies spec_eval(
                        self.pool.exprs(),
                        #[trigger] out@[k] as int,
                    ) == spec_tree_eval(
                        crate::shape::spec_trees(n as nat)[k / total as int],
                        base_values,
                        spec_assignment(
                            spec_dedup(self.operators@),
                            slots as nat,
                            (k % total as int) as nat,
                        ),
                        0,
                        0,
                    ) by {
                        if k < out@.len() - 1 {
                            crate::pool::lemma_eval_prefix_stable(
                                prev_pool.exprs(),
                                self.pool.exprs(),
                                out@[k] as int,
                            );
                        } else {
                            assert(k == ti * total + oi);
                            assert(k / total as int == ti && k % total as int == oi);
                        }
                    }
                }
                oi = oi + 1;
            }
            proof {
                assert(ti * total + total == (ti + 1) * total) by (nonlinear_arith);
            }
            ti = ti + 1;
        }
        proof {
            assert(out@.len() == tree_count * total);
        }
        out
    }

    /// Evaluate an identifier as a final integer answer.
    pub fn run_expression(&mut self, id: NodeID) -> (r: Result<BigInt, StopReason>)
        requires
            old(self).wf(),
        ensures
            final(self).wf(),
            final(self).pool.exprs() == old(self).pool.exprs(),
            preserves_evaluated(old(self).pool, final(self).pool),
            final(self).values == old(self).values,
            final(self).operators == old(self).operators,
            final(self).catalan == old(self).catalan,
            match spec_eval(old(self).pool.exprs(), id as int) {
                Err(e) => r == Err::<BigInt, StopReason>(e),
                Ok(p) => {
                    if exists|k: int| p.num == #[trigger] (k * p.den) {
                        r matches Ok(v) && v.wf() && v.value() * p.den == p.num
                    } else {
                        r == Err::<BigInt, StopReason>(StopReason::NotInteger)
                    }
                },
            },
    {
        crate::pool::evaluate(id, &mut self.pool)
    }

    /// Intern one node directly.
    pub fn add_expression(&mut self, node: ExpressionNode) -> (id: NodeID)
        requires
            old(self).wf(),
            node matches ExpressionNode::Binary { lhs, rhs, .. } ==> (lhs as int) < old(
                self,
            ).pool.nodes@.len() && (rhs as int) < old(self).pool.nodes@.len(),
        ensures
            final(self).wf(),
            intern_post(old(self).pool, final(self).pool, node, id),
            final(self).values == old(self).values,
            final(self).operators == old(self).operators,
            final(self).catalan == old(self).catalan,
    {
        match node {
            ExpressionNode::Atomic { number } => self.pool.insert_atomic(number),
            ExpressionNode::Binary { action, lhs, rhs } => self.pool.insert_binary(
                action,
                lhs,
                rhs,
            ),
        }
    }

    /// The interned node behind an identifier.
    pub fn get_expression(&self, id: NodeID) -> (r: Result<ExpressionNode, StopReason>)
        ensures
            (id as int) < self.pool.nodes@.len() ==> r == Ok::<ExpressionNode, StopReason>(
                self.pool.exprs()[id as int],
            ),
            (id as int) >= self.pool.nodes@.len() ==> r == Err::<ExpressionNode, StopReason>(
                StopReason::NotFound,
            ),
    {
        self.pool.get_expression(&id)
    }

    /// The rendered text of an identifier; an unknown identifier renders
    /// as the empty string.
    pub fn get_display(&self, id: NodeID) -> (r: String)
        requires
            self.wf(),
        ensures
            (id as int) < self.pool.nodes@.len() ==> r@ == spec_render(
                self.pool.exprs(),
                id as int,
            ),
            (id as int) >= self.pool.nodes@.len() ==> r@ == Seq::<char>::empty(),
    {
        let mut buffer = String::new();
        let outcome = self.pool.rewrite(&id, &mut buffer);
        match outcome {
            Ok(_) => {},
            Err(_) => {},
        }
        buffer
    }
}

impl Default for ExpressionCache {
    fn default() -> (r: ExpressionCache)
        ensures
            r.wf(),
            r.pool.nodes@.len() == 0,
            r.values@.len() == 0,
            r.operators@.len() == 0,
    {
        ExpressionCache::new()
    }
}

} // verus!
