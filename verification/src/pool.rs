//! The expression pool: a content-addressed store of expression nodes.
//! Structurally identical nodes collapse to one entry, so an identifier is
//! simply the entry's index; evaluation is memoized in the entries. The
//! spec-level meaning of a node is `spec_eval`, exact rational evaluation
//! over the node sequence.
use vstd::prelude::*;

use vstd::pervasive::VecAdditionalExecFns;
use vstd::string::StringExecFns;

use crate::decimal::digit_char;
use crate::decimal::spec_decimal;
use crate::decimal::write_decimal;

use crate::errors::StopReason;
use crate::operators::ExpressionAction;
use crate::rational::rat_add;
use crate::rational::rat_concat;
use crate::rational::rat_div;
use crate::rational::rat_mul;
use crate::rational::rat_sub;
use crate::rational::BigRational;
use crate::rational::RatPair;
use crate::ExpressionNode;

verus! {

/// A node's identity: its index in the pool. Interning guarantees that
/// structurally identical nodes receive the same index.
pub type NodeID = usize;

/// One pool entry: the node itself plus its memoized evaluation outcome.
/// `is_evaluated` false means the entry is still pending; a `Some` failure
/// is always evaluated.
#[derive(Debug)]
pub struct EvaluatedState {
    pub is_evaluated: bool,
    pub expression: ExpressionNode,
    pub result: BigRational,
    pub failure: Option<StopReason>,
}

/// The content-addressed cache of all interned nodes.
#[derive(Debug)]
pub struct ExpressionPool {
    pub nodes: Vec<EvaluatedState>,
}

/// A binary node may only point at entries interned before it.
pub open spec fn children_ok(node: ExpressionNode, i: int) -> bool {
    match node {
        ExpressionNode::Atomic { .. } => true,
        ExpressionNode::Binary { lhs, rhs, .. } => (lhs as int) < i && (rhs as int) < i,
    }
}

pub open spec fn exprs_wf(exprs: Seq<ExpressionNode>) -> bool {
    forall|i: int| 0 <= i < exprs.len() ==> children_ok(#[trigger] exprs[i], i)
}

/// Interning keeps at most one entry per node.
pub open spec fn distinct_nodes(exprs: Seq<ExpressionNode>) -> bool {
    forall|i: int, j: int| 0 <= i < j < exprs.len() ==> exprs[i] != exprs[j]
}

/// A literal chain: built from atoms and concatenation operators alone,
/// with no arithmetic anywhere beneath.
pub open spec fn spec_literal_chain(exprs: Seq<ExpressionNode>, id: int) -> bool
    decreases id,
{
    if id < 0 || id >= exprs.len() {
        false
    } else {
        match exprs[id] {
            ExpressionNode::Atomic { .. } => true,
            ExpressionNode::Binary { action, lhs, rhs } => action == ExpressionAction::Concat
                && lhs < id && rhs < id && spec_literal_chain(exprs, lhs as int)
                && spec_literal_chain(exprs, rhs as int),
        }
    }
}

/// The exact outcome of evaluating node `id`: its rational value, or the
/// failure the evaluator stops with. The left operand is evaluated first,
/// so its failure wins when both operands fail; a concatenation checks the
/// literal-chain property before looking at operand values; a division
/// fails on a zero-valued right operand.
pub open spec fn spec_eval(exprs: Seq<ExpressionNode>, id: int) -> Result<RatPair, StopReason>
    decreases id,
{
    if id < 0 || id >= exprs.len() {
        Err(StopReason::NotFound)
    } else {
        match exprs[id] {
            ExpressionNode::Atomic { number } => Ok(RatPair { num: number as int, den: 1 }),
            ExpressionNode::Binary { action, lhs, rhs } => {
                if !(lhs < id && rhs < id) {
                    Err(StopReason::NotFound)
                } else {
                    match action {
                        ExpressionAction::Concat => {
                            if !spec_literal_chain(exprs, id) {
                                Err(StopReason::NonAtomicConcat)
                            } else {
                                match (spec_eval(exprs, lhs as int), spec_eval(exprs, rhs as int)) {
                                    (Err(e), _) => Err(e),
                                    (Ok(_), Err(e)) => Err(e),
                                    (Ok(l), Ok(r)) => Ok(rat_concat(l, r)),
                                }
                            }
                        },
                        ExpressionAction::Plus => {
                            match (spec_eval(exprs, lhs as int), spec_eval(exprs, rhs as int)) {
                                (Err(e), _) => Err(e),
                                (Ok(_), Err(e)) => Err(e),
                                (Ok(l), Ok(r)) => Ok(rat_add(l, r)),
                            }
                        },
                        ExpressionAction::Minus => {
                            match (spec_eval(exprs, lhs as int), spec_eval(exprs, rhs as int)) {
                                (Err(e), _) => Err(e),
                                (Ok(_), Err(e)) => Err(e),
                                (Ok(l), Ok(r)) => Ok(rat_sub(l, r)),
                            }
                        },
                        ExpressionAction::Times => {
                            match (spec_eval(exprs, lhs as int), spec_eval(exprs, rhs as int)) {
                                (Err(e), _) => Err(e),
                                (Ok(_), Err(e)) => Err(e),
                                (Ok(l), Ok(r)) => Ok(rat_mul(l, r)),
                            }
                        },
                        ExpressionAction::Divide => {
                            match (spec_eval(exprs, lhs as int), spec_eval(exprs, rhs as int)) {
                                (Err(e), _) => Err(e),
                                (Ok(_), Err(e)) => Err(e),
                                (Ok(l), Ok(r)) => {
                                    if r.num == 0 {
                                        Err(StopReason::DividedByZero)
                                    } else {
                                        Ok(rat_div(l, r))
                                    }
                                },
                            }
                        },
                    }
                }
            },
        }
    }
}

/// One entry's consistency with the evaluation function: a cached success
/// or failure is exactly what `spec_eval` says, and an atom is always a
/// cached success.
pub open spec fn state_wf(exprs: Seq<ExpressionNode>, s: EvaluatedState, i: int) -> bool {
    &&& s.expression == exprs[i]
    &&& s.result.wf()
    &&& (s.expression is Atomic ==> s.is_evaluated && s.failure is None)
    &&& match s.failure {
        Some(e) => s.is_evaluated && spec_eval(exprs, i) == Err::<RatPair, StopReason>(e),
        None => s.is_evaluated ==> spec_eval(exprs, i) == Ok::<RatPair, StopReason>(
            s.result.pair(),
        ),
    }
}

/// A real evaluation result agrees with the spec-level outcome.
pub open spec fn eval_matches(
    r: Result<BigRational, StopReason>,
    o: Result<RatPair, StopReason>,
) -> bool {
    match (r, o) {
        (Ok(v), Ok(p)) => v.wf() && v.pair() == p,
        (Err(e1), Err(e2)) => e1 == e2,
        _ => false,
    }
}

/// What interning a node does: return the index of an existing entry
/// unchanged, or append the node at the end.
pub open spec fn intern_post(
    pre: ExpressionPool,
    post: ExpressionPool,
    node: ExpressionNode,
    id: NodeID,
) -> bool {
    &&& (id as int) < post.nodes@.len()
    &&& post.exprs()[id as int] == node
    &&& (pre.exprs().contains(node) ==> post.nodes@ == pre.nodes@)
    &&& (!pre.exprs().contains(node) ==> post.exprs() == pre.exprs().push(node) && id as int
        == pre.nodes@.len() && (forall|j: int|
        0 <= j < pre.nodes@.len() ==> post.nodes@[j] == #[trigger] pre.nodes@[j]))
}

/// What a state must look like to be inserted: a fresh atom is already a
/// success holding its own value; a fresh binary node is pending and its
/// operands are already interned.
pub open spec fn insertable(pre: ExpressionPool, state: EvaluatedState) -> bool {
    &&& state.result.wf()
    &&& state.failure is None
    &&& match state.expression {
        ExpressionNode::Atomic { number } => state.is_evaluated && state.result.pair()
            == (RatPair { num: number as int, den: 1 }),
        ExpressionNode::Binary { lhs, rhs, .. } => !state.is_evaluated && (lhs as int)
            < pre.nodes@.len() && (rhs as int) < pre.nodes@.len(),
    }
}

/// Evaluation and the literal-chain property only look at entries up to
/// the node itself, so any extension of the pool leaves them unchanged.
pub proof fn lemma_eval_prefix_stable(e1: Seq<ExpressionNode>, e2: Seq<ExpressionNode>, id: int)
    requires
        e1.len() <= e2.len(),
        forall|i: int| 0 <= i < e1.len() ==> e1[i] == #[trigger] e2[i],
        id < e1.len(),
    ensures
        spec_eval(e2, id) == spec_eval(e1, id),
        spec_literal_chain(e2, id) == spec_literal_chain(e1, id),
    decreases id,
{
    if 0 <= id {
        match e1[id] {
            ExpressionNode::Atomic { .. } => {},
            ExpressionNode::Binary { action, lhs, rhs } => {
                if lhs < id && rhs < id {
                    lemma_eval_prefix_stable(e1, e2, lhs as int);
                    lemma_eval_prefix_stable(e1, e2, rhs as int);
                }
            },
        }
    }
}

/// Every failure the evaluator can produce is one of the three data-free
/// reasons.
pub proof fn lemma_eval_err_dataless(exprs: Seq<ExpressionNode>, id: int)
    ensures
        spec_eval(exprs, id) matches Err(e) ==> e == StopReason::NotFound || e
            == StopReason::DividedByZero || e == StopReason::NonAtomicConcat,
    decreases id,
{
    if 0 <= id < exprs.len() {
        match exprs[id] {
            ExpressionNode::Atomic { .. } => {},
            ExpressionNode::Binary { action, lhs, rhs } => {
                if lhs < id && rhs < id {
                    lemma_eval_err_dataless(exprs, lhs as int);
                    lemma_eval_err_dataless(exprs, rhs as int);
                }
            },
        }
    }
}

impl ExpressionPool {
    /// The sequence of interned nodes, the pool's mathematical content.
    pub open spec fn exprs(&self) -> Seq<ExpressionNode> {
        self.nodes@.map_values(|s: EvaluatedState| s.expression)
    }

    /// The full representation invariant: well-founded children, no
    /// duplicate entries, and every cached outcome correct.
    pub open spec fn wf(&self) -> bool {
        &&& exprs_wf(self.exprs())
        &&& distinct_nodes(self.exprs())
        &&& forall|i: int|
            0 <= i < self.nodes@.len() ==> state_wf(self.exprs(), #[trigger] self.nodes@[i], i)
    }

    pub fn new() -> (r: ExpressionPool)
        ensures
            r.wf(),
            r.nodes@.len() == 0,
    {
        ExpressionPool { nodes: Vec::new() }
    }

    /// The index of an already-interned node, if any.
    fn find_node(&self, node: &ExpressionNode) -> (r: Option<usize>)
        ensures
            match r {
                Some(i) => i < self.nodes@.len() && self.exprs()[i as int] == *node,
                None => !self.exprs().contains(*node),
            },
    {
        let mut i: usize = 0;
        while i < self.nodes.len()
            invariant
                i <= self.nodes@.len(),
                forall|j: int| 0 <= j < i ==> self.exprs()[j] != *node,
            decreases self.nodes@.len() - i,
        {
            if self.nodes[i].expression == *node {
                return Some(i);
            }
            i = i + 1;
        }
        None
    }

    /// Intern one entry: reuse the entry of an equal node, else append.
    fn do_insert(&mut self, state: EvaluatedState) -> (id: NodeID)
        requires
            old(self).wf(),
            insertable(*old(self), state),
        ensures
            final(self).wf(),
            intern_post(*old(self), *final(self), state.expression, id),
            !old(self).exprs().contains(state.expression) ==> final(self).nodes@ == old(
                self,
            ).nodes@.push(state),
    {
        let found = self.find_node(&state.expression);
        match found {
            Some(i) => i,
            None => {
                let ghost pre = *self;
                let id = self.nodes.len();
                self.nodes.push(state);
                proof {
                    assert(self.exprs() =~= pre.exprs().push(state.expression));
                    assert forall|i: int|
                        0 <= i < self.nodes@.len() implies state_wf(
                        self.exprs(),
                        #[trigger] self.nodes@[i],
                        i,
                    ) by {
                        if i < pre.nodes@.len() {
                            lemma_eval_prefix_stable(pre.exprs(), self.exprs(), i);
                            assert(state_wf(pre.exprs(), pre.nodes@[i], i));
                        } else {
                            assert(self.nodes@[i] == state);
                            match state.expression {
                                ExpressionNode::Atomic { number } => {
                                    assert(spec_eval(self.exprs(), i) == Ok::<
                                        RatPair,
                                        StopReason,
                                    >(RatPair { num: number as int, den: 1 }));
                                },
                                ExpressionNode::Binary { .. } => {},
                            }
                        }
                    }
                    assert(exprs_wf(self.exprs()));
                    assert(distinct_nodes(self.exprs()));
                }
                id
            },
        }
    }

    /// Intern an atom; the entry is born evaluated with its own value.
    pub fn insert_atomic(&mut self, number: usize) -> (id: NodeID)
        requires
            old(self).wf(),
        ensures
            final(self).wf(),
            intern_post(*old(self), *final(self), ExpressionNode::Atomic { number }, id),
    {
        let result = BigRational::from_usize(number);
        let state = EvaluatedState {
            is_evaluated: true,
            expression: ExpressionNode::Atomic { number },
            result,
            failure: None,
        };
        self.do_insert(state)
    }

    /// Intern a binary node over two already-interned operands; the entry
    /// is born pending.
    pub fn insert_binary(&mut self, action: ExpressionAction, lhs: NodeID, rhs: NodeID) -> (id:
        NodeID)
        requires
            old(self).wf(),
            (lhs as int) < old(self).nodes@.len(),
            (rhs as int) < old(self).nodes@.len(),
        ensures
            final(self).wf(),
            intern_post(
                *old(self),
                *final(self),
                ExpressionNode::Binary { action, lhs, rhs },
                id,
            ),
    {
        let result = BigRational::from_usize(0);
        let state = EvaluatedState {
            is_evaluated: false,
            expression: ExpressionNode::Binary { action, lhs, rhs },
            result,
            failure: None,
        };
        self.do_insert(state)
    }

    /// The interned node behind an identifier.
    pub fn get_expression(&self, node: &NodeID) -> (r: Result<ExpressionNode, StopReason>)
        ensures
            (*node as int) < self.nodes@.len() ==> r == Ok::<ExpressionNode, StopReason>(
                self.exprs()[*node as int],
            ),
            (*node as int) >= self.nodes@.len() ==> r == Err::<ExpressionNode, StopReason>(
                StopReason::NotFound,
            ),
    {
        if *node < self.nodes.len() {
            Ok(self.nodes[*node].expression)
        } else {
            Err(StopReason::NotFound)
        }
    }

    /// A copy of an entry, or the failure that makes it unusable: a cached
    /// failure comes back as that failure, a missing identifier as
    /// `NotFound`.
    pub fn find(&self, node: &NodeID) -> (r: Result<EvaluatedState, StopReason>)
        requires
            self.wf(),
        ensures
            (*node as int) >= self.nodes@.len() ==> r == Err::<EvaluatedState, StopReason>(
                StopReason::NotFound,
            ),
            (*node as int) < self.nodes@.len() ==> match self.nodes@[*node as int].failure {
                Some(e) => r == Err::<EvaluatedState, StopReason>(e),
                None => r matches Ok(st) && st.is_evaluated == self.nodes@[
                    *node as int
                ].is_evaluated && st.expression == self.nodes@[*node as int].expression
                    && st.result.wf() && st.result.pair() == self.nodes@[
                    *node as int
                ].result.pair() && st.failure is None,
            },
    {
        if *node >= self.nodes.len() {
            return Err(StopReason::NotFound);
        }
        let entry = &self.nodes[*node];
        match &entry.failure {
            Some(e) => {
                proof {
                    lemma_eval_err_dataless(self.exprs(), *node as int);
                }
                Err(e.duplicate())
            },
            None => {
                proof {
                    if entry.is_evaluated {
                        assert(state_wf(self.exprs(), self.nodes@[*node as int], *node as int));
                    }
                }
                Ok(
                    EvaluatedState {
                        is_evaluated: entry.is_evaluated,
                        expression: entry.expression,
                        result: entry.result.duplicate(),
                        failure: None,
                    },
                )
            },
        }
    }
}

/// Entries that already carry a memoized outcome are never touched again:
/// re-evaluation is pure lookup.
pub open spec fn preserves_evaluated(pre: ExpressionPool, post: ExpressionPool) -> bool {
    forall|j: int|
        0 <= j < pre.nodes@.len() && (#[trigger] pre.nodes@[j]).is_evaluated ==> post.nodes@[j]
            == pre.nodes@[j]
}

/// Whether a node, looked at through the pool, is a literal chain: an
/// atom, or a concatenation of two literal chains.
pub open spec fn spec_node_chain(exprs: Seq<ExpressionNode>, node: ExpressionNode) -> bool {
    match node {
        ExpressionNode::Atomic { .. } => true,
        ExpressionNode::Binary { action, lhs, rhs } => action == ExpressionAction::Concat && lhs
            < exprs.len() && rhs < exprs.len() && spec_literal_chain(exprs, lhs as int)
            && spec_literal_chain(exprs, rhs as int),
    }
}

impl ExpressionPool {
    /// Whether the entry at `id` is a literal chain.
    fn literal_chain(&self, id: NodeID) -> (r: bool)
        requires
            self.wf(),
            (id as int) < self.nodes@.len(),
        ensures
            r == spec_literal_chain(self.exprs(), id as int),
        decreases id,
    {
        proof {
            assert(state_wf(self.exprs(), self.nodes@[id as int], id as int));
            assert(children_ok(self.exprs()[id as int], id as int));
        }
        match self.nodes[id].expression {
            ExpressionNode::Atomic { .. } => true,
            ExpressionNode::Binary { action, lhs, rhs } => {
                if action == ExpressionAction::Concat {
                    self.literal_chain(lhs) && self.literal_chain(rhs)
                } else {
                    false
                }
            },
        }
    }

    /// Memoized evaluation: a cached outcome is returned as it stands; a
    /// pending node is computed once and the outcome written back.
    pub fn evaluate(&mut self, node: &NodeID) -> (r: Result<BigRational, StopReason>)
        requires
            old(self).wf(),
        ensures
            final(self).wf(),
            final(self).exprs() == old(self).exprs(),
            preserves_evaluated(*old(self), *final(self)),
            forall|j: int|
                0 <= j < old(self).nodes@.len() && (*node as int) < j ==> final(self).nodes@[j]
                    == #[trigger] old(self).nodes@[j],
            eval_matches(r, spec_eval(old(self).exprs(), *node as int)),
            (*node as int) < old(self).nodes@.len() ==> final(self).nodes@[
                *node as int
            ].is_evaluated,
            (*node as int) < old(self).nodes@.len() && old(self).nodes@[
                *node as int
            ].is_evaluated ==> *final(self) == *old(self),
            (*node as int) >= old(self).nodes@.len() ==> *final(self) == *old(self),
        decreases *node, 2int,
    {
        if *node >= self.nodes.len() {
            return Err(StopReason::NotFound);
        }
        proof {
            assert(state_wf(self.exprs(), self.nodes@[*node as int], *node as int));
        }
        let entry = &self.nodes[*node];
        match &entry.failure {
            Some(e) => {
                proof {
                    lemma_eval_err_dataless(self.exprs(), *node as int);
                }
                return Err(e.duplicate());
            },
            None => {},
        }
        if self.nodes[*node].is_evaluated {
            return Ok(self.nodes[*node].result.duplicate());
        }
        let outcome = self.try_evaluate(*node);
        match outcome {
            Ok(v) => Ok(self.update_success(*node, v)),
            Err(e) => {
                proof {
                    lemma_eval_err_dataless(self.exprs(), *node as int);
                }
                Err(self.update_failure(*node, e))
            },
        }
    }

    /// Evaluate both operands of a binary node, left first; the left
    /// operand's failure wins.
    fn eval_operands(&mut self, id: NodeID, lhs: NodeID, rhs: NodeID) -> (r: Result<
        (BigRational, BigRational),
        StopReason,
    >)
        requires
            old(self).wf(),
            (id as int) < old(self).nodes@.len(),
            (lhs as int) < id,
            (rhs as int) < id,
        ensures
            final(self).wf(),
            final(self).exprs() == old(self).exprs(),
            preserves_evaluated(*old(self), *final(self)),
            forall|j: int|
                0 <= j < old(self).nodes@.len() && (id as int) <= j ==> final(self).nodes@[j]
                    == #[trigger] old(self).nodes@[j],
            match (
                spec_eval(old(self).exprs(), lhs as int),
                spec_eval(old(self).exprs(), rhs as int),
            ) {
                (Err(e), _) => r == Err::<(BigRational, BigRational), StopReason>(e),
                (Ok(_), Err(e)) => r == Err::<(BigRational, BigRational), StopReason>(e),
                (Ok(lp), Ok(rp)) => r matches Ok(v) && v.0.wf() && v.0.pair() == lp && v.1.wf()
                    && v.1.pair() == rp,
            },
        decreases id, 0int,
    {
        let ghost pre = *self;
        let l = match self.evaluate(&lhs) {
            Ok(v) => v,
            Err(e) => {
                return Err(e);
            },
        };
        let ghost mid = *self;
        let r2 = match self.evaluate(&rhs) {
            Ok(v) => v,
            Err(e) => {
                proof {
                    assert(pre.exprs().len() == pre.nodes@.len());
                    assert(mid.exprs().len() == mid.nodes@.len());
                    lemma_preserves_chain(pre, mid, *self);
                    assert forall|j: int|
                        0 <= j < pre.nodes@.len() && (id as int) <= j implies self.nodes@[j]
                        == #[trigger] pre.nodes@[j] by {
                        assert(mid.nodes@[j] == pre.nodes@[j]);
                    }
                }
                return Err(e);
            },
        };
        proof {
            assert(pre.exprs().len() == pre.nodes@.len());
            assert(mid.exprs().len() == mid.nodes@.len());
            lemma_preserves_chain(pre, mid, *self);
            assert forall|j: int|
                0 <= j < pre.nodes@.len() && (id as int) <= j implies self.nodes@[j]
                == #[trigger] pre.nodes@[j] by {
                assert(mid.nodes@[j] == pre.nodes@[j]);
            }
        }
        Ok((l, r2))
    }

    /// Compute a pending binary node's outcome from its operands without
    /// writing the node's own entry.
    fn try_evaluate(&mut self, id: NodeID) -> (r: Result<BigRational, StopReason>)
        requires
            old(self).wf(),
            (id as int) < old(self).nodes@.len(),
            !old(self).nodes@[id as int].is_evaluated,
        ensures
            final(self).wf(),
            final(self).exprs() == old(self).exprs(),
            preserves_evaluated(*old(self), *final(self)),
            forall|j: int|
                0 <= j < old(self).nodes@.len() && (id as int) <= j ==> final(self).nodes@[j]
                    == #[trigger] old(self).nodes@[j],
            eval_matches(r, spec_eval(old(self).exprs(), id as int)),
        decreases id, 1int,
    {
        proof {
            assert(state_wf(self.exprs(), self.nodes@[id as int], id as int));
            assert(children_ok(self.exprs()[id as int], id as int));
        }
        let expr = self.nodes[id].expression;
        match expr {
            ExpressionNode::Atomic { .. } => {
                // an atom is interned already evaluated, so this entry
                // cannot be pending
                Err(StopReason::NotFound)
            },
            ExpressionNode::Binary { action, lhs, rhs } => {
                if action == ExpressionAction::Concat {
                    let chain_ok = expr.is_atomic_concat(self);
                    if !chain_ok {
                        return Err(StopReason::NonAtomicConcat);
                    }
                }
                let operands = match self.eval_operands(id, lhs, rhs) {
                    Ok(v) => v,
                    Err(e) => {
                        return Err(e);
                    },
                };
                let (l, r2) = operands;
                match action {
                    ExpressionAction::Concat => Ok(l.concat_decimal(&r2)),
                    ExpressionAction::Plus => Ok(l.add(&r2)),
                    ExpressionAction::Minus => Ok(l.sub(&r2)),
                    ExpressionAction::Times => Ok(l.mul(&r2)),
                    ExpressionAction::Divide => {
                        if r2.is_zero() {
                            Err(StopReason::DividedByZero)
                        } else {
                            Ok(l.div(&r2))
                        }
                    },
                }
            },
        }
    }

    /// Write a freshly computed success into a pending entry and hand the
    /// value back.
    pub fn update_success(&mut self, node: NodeID, result: BigRational) -> (r: BigRational)
        requires
            old(self).wf(),
            (node as int) < old(self).nodes@.len(),
            !old(self).nodes@[node as int].is_evaluated,
            result.wf(),
            spec_eval(old(self).exprs(), node as int) == Ok::<RatPair, StopReason>(result.pair()),
        ensures
            final(self).wf(),
            final(self).exprs() == old(self).exprs(),
            preserves_evaluated(*old(self), *final(self)),
            final(self).nodes@[node as int].is_evaluated,
            forall|j: int|
                0 <= j < old(self).nodes@.len() && j != node as int ==> final(self).nodes@[j]
                    == #[trigger] old(self).nodes@[j],
            r.wf(),
            r.pair() == result.pair(),
    {
        let expression = self.nodes[node].expression;
        let returned = result.duplicate();
        let state = EvaluatedState { is_evaluated: true, expression, result, failure: None };
        self.nodes.set(node, state);
        proof {
            assert(self.exprs() =~= old(self).exprs());
            assert forall|i: int|
                0 <= i < self.nodes@.len() implies state_wf(
                self.exprs(),
                #[trigger] self.nodes@[i],
                i,
            ) by {
                assert(state_wf(old(self).exprs(), old(self).nodes@[i], i));
            }
        }
        returned
    }

    /// Write a freshly discovered failure into a pending entry and hand
    /// the reason back.
    pub fn update_failure(&mut self, node: NodeID, reason: StopReason) -> (r: StopReason)
        requires
            old(self).wf(),
            (node as int) < old(self).nodes@.len(),
            !old(self).nodes@[node as int].is_evaluated,
            spec_eval(old(self).exprs(), node as int) == Err::<RatPair, StopReason>(reason),
        ensures
            final(self).wf(),
            final(self).exprs() == old(self).exprs(),
            preserves_evaluated(*old(self), *final(self)),
            final(self).nodes@[node as int].is_evaluated,
            forall|j: int|
                0 <= j < old(self).nodes@.len() && j != node as int ==> final(self).nodes@[j]
                    == #[trigger] old(self).nodes@[j],
            r == reason,
    {
        let expression = self.nodes[node].expression;
        proof {
            lemma_eval_err_dataless(self.exprs(), node as int);
        }
        let returned = reason.duplicate();
        let state = EvaluatedState {
            is_evaluated: true,
            expression,
            result: BigRational::from_usize(0),
            failure: Some(reason),
        };
        self.nodes.set(node, state);
        proof {
            assert(self.exprs() =~= old(self).exprs());
            assert forall|i: int|
                0 <= i < self.nodes@.len() implies state_wf(
                self.exprs(),
                #[trigger] self.nodes@[i],
                i,
            ) by {
                assert(state_wf(old(self).exprs(), old(self).nodes@[i], i));
            }
        }
        returned
    }
}

/// Two evaluation steps in a row still leave every previously memoized
/// entry untouched.
pub proof fn lemma_preserves_chain(pre: ExpressionPool, mid: ExpressionPool, post: ExpressionPool)
    requires
        preserves_evaluated(pre, mid),
        preserves_evaluated(mid, post),
        pre.nodes@.len() <= mid.nodes@.len(),
    ensures
        preserves_evaluated(pre, post),
{
    assert forall|j: int|
        0 <= j < pre.nodes@.len() && (#[trigger] pre.nodes@[j]).is_evaluated implies post.nodes@[j]
        == pre.nodes@[j] by {
        assert(mid.nodes@[j] == pre.nodes@[j]);
        assert(mid.nodes@[j].is_evaluated);
    }
}

impl ExpressionNode {
    /// Whether this node is a bare atom.
    pub fn is_atomic(&self) -> (r: bool)
        ensures
            r == (self is Atomic),
    {
        match self {
            ExpressionNode::Atomic { .. } => true,
            _ => false,
        }
    }

    /// Whether this node is a literal chain through the given pool: built
    /// from atoms and concatenations alone.
    pub fn is_atomic_concat(&self, pool: &ExpressionPool) -> (r: bool)
        requires
            pool.wf(),
        ensures
            r == spec_node_chain(pool.exprs(), *self),
    {
        match self {
            ExpressionNode::Atomic { .. } => true,
            ExpressionNode::Binary { action, lhs, rhs } => {
                if *action == ExpressionAction::Concat {
                    *lhs < pool.nodes.len() && *rhs < pool.nodes.len() && pool.literal_chain(*lhs)
                        && pool.literal_chain(*rhs)
                } else {
                    false
                }
            },
        }
    }
}

/// Evaluate a node as a final answer: the node's exact rational value,
/// except that a value with a non-trivial denominator is rejected as
/// `NotInteger`. The integrality check belongs to the query, so it is
/// never cached on the node.
pub fn evaluate(id: NodeID, pool: &mut ExpressionPool) -> (r: Result<crate::bigint::BigInt,
    StopReason>)
    requires
        old(pool).wf(),
    ensures
        final(pool).wf(),
        final(pool).exprs() == old(pool).exprs(),
        preserves_evaluated(*old(pool), *final(pool)),
        match spec_eval(old(pool).exprs(), id as int) {
            Err(e) => r == Err::<crate::bigint::BigInt, StopReason>(e),
            Ok(p) => {
                if exists|k: int| p.num == #[trigger] (k * p.den) {
                    r matches Ok(v) && v.wf() && v.value() * p.den == p.num
                } else {
                    r == Err::<crate::bigint::BigInt, StopReason>(StopReason::NotInteger)
                }
            },
        },
{
    let value = match pool.evaluate(&id) {
        Ok(v) => v,
        Err(e) => {
            return Err(e);
        },
    };
    match value.to_integer() {
        Some(b) => Ok(b),
        None => Err(StopReason::NotInteger),
    }
}

/// Law: evaluation is deterministic. The outcome of a node is a function
/// of the interned expressions alone, and evaluation never changes them,
/// so two results obtained for the same identifier over the same
/// expressions agree exactly.
pub proof fn lemma_evaluation_deterministic(
    r1: Result<BigRational, StopReason>,
    r2: Result<BigRational, StopReason>,
    exprs: Seq<ExpressionNode>,
    id: int,
)
    requires
        eval_matches(r1, spec_eval(exprs, id)),
        eval_matches(r2, spec_eval(exprs, id)),
    ensures
        r1 is Ok <==> r2 is Ok,
        r1 matches Ok(v1) ==> (r2 matches Ok(v2) && v1.pair() == v2.pair()),
        r1 matches Err(e1) ==> (r2 matches Err(e2) && e1 == e2),
{
}

/// Law: a `Divide` node whose right operand evaluates to zero fails with
/// `DividedByZero`, however deeply the zero arises.
pub proof fn lemma_divide_by_zero(exprs: Seq<ExpressionNode>, id: int)
    requires
        0 <= id < exprs.len(),
        exprs[id] matches ExpressionNode::Binary { action: ExpressionAction::Divide, lhs, rhs }
            && lhs < id && rhs < id && spec_eval(exprs, lhs as int) is Ok && (spec_eval(
            exprs,
            rhs as int,
        ) matches Ok(rp) && rp.num == 0),
    ensures
        spec_eval(exprs, id) == Err::<RatPair, StopReason>(StopReason::DividedByZero),
{
}

/// Law: a concatenation over anything but pure literal chains fails with
/// `NonAtomicConcat`, whatever its operands would have evaluated to.
pub proof fn lemma_concat_rejects_arithmetic(exprs: Seq<ExpressionNode>, id: int)
    requires
        0 <= id < exprs.len(),
        exprs[id] matches ExpressionNode::Binary { action: ExpressionAction::Concat, lhs, rhs }
            && lhs < id && rhs < id,
        !spec_literal_chain(exprs, id),
    ensures
        spec_eval(exprs, id) == Err::<RatPair, StopReason>(StopReason::NonAtomicConcat),
{
}

/// Law: a literal chain always evaluates, to a nonnegative integer.
/// Since the evaluator applies concatenation only after the literal-chain
/// check has passed, concatenation never meets a non-integral operand.
pub proof fn lemma_literal_chain_evaluates(exprs: Seq<ExpressionNode>, id: int)
    requires
        spec_literal_chain(exprs, id),
    ensures
        spec_eval(exprs, id) matches Ok(p) && p.den == 1 && p.num >= 0,
    decreases id,
{
    match exprs[id] {
        ExpressionNode::Atomic { .. } => {},
        ExpressionNode::Binary { action, lhs, rhs } => {
            lemma_literal_chain_evaluates(exprs, lhs as int);
            lemma_literal_chain_evaluates(exprs, rhs as int);
        },
    }
}

/// Law: concatenating two literal chains succeeds, with ten times the
/// left value plus the right value.
pub proof fn lemma_concat_of_chains(exprs: Seq<ExpressionNode>, id: int)
    requires
        0 <= id < exprs.len(),
        exprs[id] matches ExpressionNode::Binary { action: ExpressionAction::Concat, lhs, rhs }
            && lhs < id && rhs < id && spec_literal_chain(exprs, lhs as int)
            && spec_literal_chain(exprs, rhs as int),
    ensures
        ({
            let lp = spec_eval(exprs, (exprs[id]->Binary_lhs) as int)->Ok_0;
            let rp = spec_eval(exprs, (exprs[id]->Binary_rhs) as int)->Ok_0;
            spec_eval(exprs, id) == Ok::<RatPair, StopReason>(
                RatPair { num: lp.num * 10 + rp.num, den: 1 },
            )
        }),
{
    let lhs = exprs[id]->Binary_lhs;
    let rhs = exprs[id]->Binary_rhs;
    lemma_literal_chain_evaluates(exprs, lhs as int);
    lemma_literal_chain_evaluates(exprs, rhs as int);
    assert(spec_literal_chain(exprs, id));
    let lp = spec_eval(exprs, lhs as int)->Ok_0;
    let rp = spec_eval(exprs, rhs as int)->Ok_0;
    assert(spec_eval(exprs, id) == Ok::<RatPair, StopReason>(rat_concat(lp, rp)));
    assert(lp.num * 10 * rp.den == lp.num * 10) by (nonlinear_arith)
        requires
            rp.den == 1,
    ;
}

/// The separator the renderer prints for an operator; concatenation
/// prints nothing.
pub open spec fn spec_join(action: ExpressionAction) -> Seq<char> {
    match action {
        ExpressionAction::Concat => Seq::empty(),
        ExpressionAction::Plus => seq![' ', '+', ' '],
        ExpressionAction::Minus => seq![' ', '-', ' '],
        ExpressionAction::Times => seq![' ', '*', ' '],
        ExpressionAction::Divide => seq![' ', '/', ' '],
    }
}

/// The text the renderer produces for node `id`: an atom prints its
/// decimal value, a concatenation prints its operands back to back, any
/// other operator prints `left JOIN right` where an operand is
/// parenthesized when its own operator binds no tighter than its
/// parent's.
pub open spec fn spec_render(exprs: Seq<ExpressionNode>, id: int) -> Seq<char>
    decreases id, 0int,
{
    if id < 0 || id >= exprs.len() {
        Seq::empty()
    } else {
        match exprs[id] {
            ExpressionNode::Atomic { number } => spec_decimal(number as int),
            ExpressionNode::Binary { action, lhs, rhs } => {
                if !(lhs < id && rhs < id) {
                    Seq::empty()
                } else if action == ExpressionAction::Concat {
                    spec_render(exprs, lhs as int) + spec_render(exprs, rhs as int)
                } else {
                    spec_operand(exprs, lhs as int, id) + spec_join(action) + spec_operand(
                        exprs,
                        rhs as int,
                        id,
                    )
                }
            },
        }
    }
}

/// One operand's text, wrapped in brackets when its operator binds no
/// tighter than the parent's.
pub open spec fn spec_operand(exprs: Seq<ExpressionNode>, child: int, parent: int) -> Seq<char>
    decreases child, 1int,
{
    if child < 0 || child >= exprs.len() || parent < 0 || parent >= exprs.len() {
        Seq::empty()
    } else if exprs[child].spec_priority() <= exprs[parent].spec_priority() {
        seq!['('] + spec_render(exprs, child) + seq![')']
    } else {
        spec_render(exprs, child)
    }
}

/// Append one decimal digit.
impl ExpressionPool {
    /// Whether the renderer must parenthesize `child` under `parent`:
    /// `None` when either identifier is unknown.
    pub fn should_add_brackets(&self, child: &NodeID, parent: &NodeID) -> (r: Option<bool>)
        ensures
            (*child as int) < self.nodes@.len() && (*parent as int) < self.nodes@.len()
                ==> r == Some(
                self.exprs()[*child as int].spec_priority()
                    <= self.exprs()[*parent as int].spec_priority(),
            ),
            !((*child as int) < self.nodes@.len() && (*parent as int) < self.nodes@.len())
                ==> r is None,
    {
        if *child < self.nodes.len() && *parent < self.nodes.len() {
            let c = self.nodes[*child].expression.get_priority();
            let p = self.nodes[*parent].expression.get_priority();
            Some(c <= p)
        } else {
            None
        }
    }

    /// Print one operand of `node`, bracketed by priority, then the
    /// separator, then the other operand.
    fn write_brackets(&self, node: &NodeID, lhs: NodeID, rhs: NodeID, join: &str, w: &mut String)
        -> (r: Result<(), StopReason>)
        requires
            self.wf(),
            (*node as int) < self.nodes@.len(),
            self.exprs()[*node as int] matches ExpressionNode::Binary { action, lhs: l, rhs: r2 }
                && l == lhs && r2 == rhs && action != ExpressionAction::Concat && join@
                == spec_join(action),
        ensures
            r is Ok,
            final(w)@ == old(w)@ + spec_render(self.exprs(), *node as int),
        decreases *node, 0int,
    {
        proof {
            assert(children_ok(self.exprs()[*node as int], *node as int));
        }
        let bracket_left = match self.should_add_brackets(&lhs, node) {
            Some(b) => b,
            None => true,
        };
        let ghost start = w@;
        if bracket_left {
            proof {
                reveal_strlit("(");
                reveal_strlit(")");
            }
            w.append("(");
            match self.rewrite(&lhs, w) {
                Ok(_) => {},
                Err(e) => {
                    return Err(e);
                },
            }
            w.append(")");
            proof {
                assert(w@ =~= start + spec_operand(self.exprs(), lhs as int, *node as int));
            }
        } else {
            match self.rewrite(&lhs, w) {
                Ok(_) => {},
                Err(e) => {
                    return Err(e);
                },
            }
        }
        let ghost after_left = w@;
        w.append(join);
        let ghost after_join = w@;
        let bracket_right = match self.should_add_brackets(&rhs, node) {
            Some(b) => b,
            None => true,
        };
        if bracket_right {
            proof {
                reveal_strlit("(");
                reveal_strlit(")");
            }
            w.append("(");
            match self.rewrite(&rhs, w) {
                Ok(_) => {},
                Err(e) => {
                    return Err(e);
                },
            }
            w.append(")");
            proof {
                assert(w@ =~= after_join + spec_operand(self.exprs(), rhs as int, *node as int));
            }
        } else {
            match self.rewrite(&rhs, w) {
                Ok(_) => {},
                Err(e) => {
                    return Err(e);
                },
            }
        }
        proof {
            assert(w@ =~= old(w)@ + spec_render(self.exprs(), *node as int));
        }
        Ok(())
    }

    /// Render the expression behind `node` as minimally parenthesized
    /// infix text appended to `w`. An unknown identifier is reported as
    /// `NotFound` with nothing written.
    pub fn rewrite(&self, node: &NodeID, w: &mut String) -> (r: Result<(), StopReason>)
        requires
            self.wf(),
        ensures
            (*node as int) < self.nodes@.len() ==> r is Ok && final(w)@ == old(w)@ + spec_render(
                self.exprs(),
                *node as int,
            ),
            (*node as int) >= self.nodes@.len() ==> r == Err::<(), StopReason>(
                StopReason::NotFound,
            ) && final(w)@ == old(w)@,
        decreases *node, 1int,
    {
        if *node >= self.nodes.len() {
            return Err(StopReason::NotFound);
        }
        proof {
            assert(state_wf(self.exprs(), self.nodes@[*node as int], *node as int));
            assert(children_ok(self.exprs()[*node as int], *node as int));
        }
        match self.nodes[*node].expression {
            ExpressionNode::Atomic { number } => {
                write_decimal(number, w);
                Ok(())
            },
            ExpressionNode::Binary { action, lhs, rhs } => {
                match action {
                    ExpressionAction::Concat => {
                        let ghost start = w@;
                        match self.rewrite(&lhs, w) {
                            Ok(_) => {},
                            Err(e) => {
                                return Err(e);
                            },
                        }
                        match self.rewrite(&rhs, w) {
                            Ok(_) => {},
                            Err(e) => {
                                return Err(e);
                            },
                        }
                        proof {
                            assert(w@ =~= start + spec_render(self.exprs(), *node as int));
                        }
                        Ok(())
                    },
                    ExpressionAction::Plus => {
                        proof {
                            reveal_strlit(" + ");
                            assert(" + "@ =~= spec_join(ExpressionAction::Plus));
                        }
                        self.write_brackets(node, lhs, rhs, " + ", w)
                    },
                    ExpressionAction::Minus => {
                        proof {
                            reveal_strlit(" - ");
                            assert(" - "@ =~= spec_join(ExpressionAction::Minus));
                        }
                        self.write_brackets(node, lhs, rhs, " - ", w)
                    },
                    ExpressionAction::Times => {
                        proof {
                            reveal_strlit(" * ");
                            assert(" * "@ =~= spec_join(ExpressionAction::Times));
                        }
                        self.write_brackets(node, lhs, rhs, " * ", w)
                    },
                    ExpressionAction::Divide => {
                        proof {
                            reveal_strlit(" / ");
                            assert(" / "@ =~= spec_join(ExpressionAction::Divide));
                        }
                        self.write_brackets(node, lhs, rhs, " / ", w)
                    },
                }
            },
        }
    }
}

impl Default for ExpressionPool {
    fn default() -> (r: ExpressionPool)
        ensures
            r.wf(),
            r.nodes@.len() == 0,
    {
        ExpressionPool::new()
    }
}

} // verus!
