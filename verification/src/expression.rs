//! Building expression graphs from a shape, an atom sequence and an
//! operator assignment: the shape is walked in pre-order, atoms fill the
//! leaves left to right, operators fill the binary positions, and every
//! node is interned in the pool. `spec_register` is the exact meaning of
//! one registration, and interning is proved idempotent.
use vstd::prelude::*;

use crate::operators::ExpressionAction;
use crate::pool::children_ok;
use crate::pool::distinct_nodes;
use crate::pool::exprs_wf;
use crate::pool::lemma_eval_prefix_stable;
use crate::pool::spec_eval;
use crate::pool::spec_literal_chain;
use crate::rational::rat_add;
use crate::rational::rat_concat;
use crate::rational::rat_div;
use crate::rational::rat_mul;
use crate::rational::rat_sub;
use crate::rational::RatPair;
use crate::errors::StopReason;
use crate::pool::lemma_preserves_chain;
use crate::pool::preserves_evaluated;
use crate::pool::ExpressionPool;
use crate::pool::NodeID;
use crate::shape::TreeShape;
use crate::ExpressionNode;

verus! {

/// `big` keeps every entry of `small`, in place, and may add more.
pub open spec fn seq_extends(big: Seq<ExpressionNode>, small: Seq<ExpressionNode>) -> bool {
    small.len() <= big.len() && forall|j: int| 0 <= j < small.len() ==> big[j] == #[trigger] small[j]
}

/// Extension of node sequences is transitive.
pub proof fn lemma_extends_trans(
    a: Seq<ExpressionNode>,
    b: Seq<ExpressionNode>,
    c: Seq<ExpressionNode>,
)
    requires
        seq_extends(b, c),
        seq_extends(a, b),
    ensures
        seq_extends(a, c),
{
    assert forall|j: int| 0 <= j < c.len() implies a[j] == #[trigger] c[j] by {
        assert(b[j] == c[j]);
        assert(a[j] == b[j]);
    }
}

/// Interning one node at the spec level: the entry of an equal node is
/// reused, otherwise the node is appended.
pub open spec fn spec_intern(exprs: Seq<ExpressionNode>, node: ExpressionNode) -> (Seq<
    ExpressionNode,
>, int) {
    if exprs.contains(node) {
        (exprs, exprs.index_of(node))
    } else {
        (exprs.push(node), exprs.len() as int)
    }
}

/// Registering `shape` with its atoms starting at `vi` and its operators
/// starting at `ai`: the pre-order walk interns the left subtree, then the
/// right, then the combining node. Returns the grown node sequence and the
/// root's identifier.
pub open spec fn spec_register(
    exprs: Seq<ExpressionNode>,
    shape: TreeShape,
    values: Seq<usize>,
    actions: Seq<ExpressionAction>,
    vi: int,
    ai: int,
) -> (Seq<ExpressionNode>, int)
    decreases shape,
{
    match shape {
        TreeShape::Leaf => spec_intern(exprs, ExpressionNode::Atomic { number: values[vi] }),
        TreeShape::Binary { left, right } => {
            let action = actions[ai];
            let l = spec_register(exprs, *left, values, actions, vi, ai + 1);
            let r = spec_register(
                l.0,
                *right,
                values,
                actions,
                vi + left.leaves(),
                ai + 1 + left.internals(),
            );
            spec_intern(
                r.0,
                ExpressionNode::Binary { action, lhs: l.1 as usize, rhs: r.1 as usize },
            )
        },
    }
}

/// Whether a shape with its operator assignment is a pure literal chain:
/// every operator in the subtree is a concatenation.
pub open spec fn spec_tree_chain(shape: TreeShape, actions: Seq<ExpressionAction>, ai: int) -> bool
    decreases shape,
{
    match shape {
        TreeShape::Leaf => true,
        TreeShape::Binary { left, right } => actions[ai] == ExpressionAction::Concat
            && spec_tree_chain(*left, actions, ai + 1) && spec_tree_chain(
            *right,
            actions,
            ai + 1 + left.internals(),
        ),
    }
}

/// The exact outcome of one combination, straight off the tree: what the
/// shape, the atoms and the operator assignment denote, with the same
/// failure rules as the pool's evaluator.
pub open spec fn spec_tree_eval(
    shape: TreeShape,
    values: Seq<usize>,
    actions: Seq<ExpressionAction>,
    vi: int,
    ai: int,
) -> Result<RatPair, StopReason>
    decreases shape,
{
    match shape {
        TreeShape::Leaf => Ok(RatPair { num: values[vi] as int, den: 1 }),
        TreeShape::Binary { left, right } => {
            let action = actions[ai];
            if action == ExpressionAction::Concat && !spec_tree_chain(shape, actions, ai) {
                Err(StopReason::NonAtomicConcat)
            } else {
                let l = spec_tree_eval(*left, values, actions, vi, ai + 1);
                let r = spec_tree_eval(
                    *right,
                    values,
                    actions,
                    vi + left.leaves(),
                    ai + 1 + left.internals(),
                );
                match (l, r) {
                    (Err(e), _) => Err(e),
                    (Ok(_), Err(e)) => Err(e),
                    (Ok(lp), Ok(rp)) => match action {
                        ExpressionAction::Concat => Ok(rat_concat(lp, rp)),
                        ExpressionAction::Plus => Ok(rat_add(lp, rp)),
                        ExpressionAction::Minus => Ok(rat_sub(lp, rp)),
                        ExpressionAction::Times => Ok(rat_mul(lp, rp)),
                        ExpressionAction::Divide => {
                            if rp.num == 0 {
                                Err(StopReason::DividedByZero)
                            } else {
                                Ok(rat_div(lp, rp))
                            }
                        },
                    },
                }
            }
        },
    }
}

/// Registration only appends: the result extends the start, stays
/// duplicate-free, and the returned identifier points at an entry.
pub proof fn lemma_register_extends(
    exprs: Seq<ExpressionNode>,
    shape: TreeShape,
    values: Seq<usize>,
    actions: Seq<ExpressionAction>,
    vi: int,
    ai: int,
)
    requires
        distinct_nodes(exprs),
    ensures
        ({
            let r = spec_register(exprs, shape, values, actions, vi, ai);
            seq_extends(r.0, exprs) && distinct_nodes(r.0) && 0 <= r.1 < r.0.len()
        }),
    decreases shape,
{
    match shape {
        TreeShape::Leaf => {
            let node = ExpressionNode::Atomic { number: values[vi] };
            lemma_intern_props(exprs, node);
        },
        TreeShape::Binary { left, right } => {
            let l = spec_register(exprs, *left, values, actions, vi, ai + 1);
            lemma_register_extends(exprs, *left, values, actions, vi, ai + 1);
            let r = spec_register(
                l.0,
                *right,
                values,
                actions,
                vi + left.leaves(),
                ai + 1 + left.internals(),
            );
            lemma_register_extends(
                l.0,
                *right,
                values,
                actions,
                vi + left.leaves(),
                ai + 1 + left.internals(),
            );
            let node = ExpressionNode::Binary {
                action: actions[ai],
                lhs: l.1 as usize,
                rhs: r.1 as usize,
            };
            lemma_intern_props(r.0, node);
        },
    }
}

/// Interning keeps the sequence duplicate-free, extends it, and the index
/// handed out carries the node.
proof fn lemma_intern_props(exprs: Seq<ExpressionNode>, node: ExpressionNode)
    requires
        distinct_nodes(exprs),
    ensures
        ({
            let r = spec_intern(exprs, node);
            seq_extends(r.0, exprs) && distinct_nodes(r.0) && 0 <= r.1 < r.0.len() && r.0[r.1]
                == node
        }),
{
    let r = spec_intern(exprs, node);
    if exprs.contains(node) {
        assert(exprs[exprs.index_of(node)] == node);
    } else {
        assert forall|i: int, j: int| 0 <= i < j < r.0.len() implies r.0[i] != r.0[j] by {
            if j == r.0.len() - 1 {
                assert(r.0[j] == node);
                assert(exprs[i] == r.0[i]);
                if r.0[i] == node {
                    assert(exprs.contains(node));
                }
            }
        }
    }
}

/// In a duplicate-free sequence the entry holding a node determines
/// `index_of`.
proof fn lemma_index_of_unique(exprs: Seq<ExpressionNode>, node: ExpressionNode, i: int)
    requires
        distinct_nodes(exprs),
        0 <= i < exprs.len(),
        exprs[i] == node,
    ensures
        exprs.contains(node),
        exprs.index_of(node) == i,
{
    assert(exprs.contains(node));
    let j = exprs.index_of(node);
    assert(exprs[j] == node);
    if i < j {
        assert(exprs[i] != exprs[j]);
    } else if j < i {
        assert(exprs[j] != exprs[i]);
    }
}

/// Law: registration denotes the combination it was given. The
/// identifier handed back evaluates to exactly what the shape, the atom
/// sequence and the operator assignment denote, and it is a literal chain
/// exactly when every operator in the subtree is a concatenation. The
/// grown pool also keeps its structural invariants.
pub proof fn lemma_register_denotes(
    exprs: Seq<ExpressionNode>,
    shape: TreeShape,
    values: Seq<usize>,
    actions: Seq<ExpressionAction>,
    vi: int,
    ai: int,
)
    requires
        distinct_nodes(exprs),
        exprs_wf(exprs),
        spec_register(exprs, shape, values, actions, vi, ai).0.len() <= usize::MAX,
    ensures
        ({
            let r = spec_register(exprs, shape, values, actions, vi, ai);
            exprs_wf(r.0) && spec_eval(r.0, r.1) == spec_tree_eval(shape, values, actions, vi, ai)
                && spec_literal_chain(r.0, r.1) == spec_tree_chain(shape, actions, ai)
        }),
    decreases shape,
{
    lemma_register_extends(exprs, shape, values, actions, vi, ai);
    match shape {
        TreeShape::Leaf => {
            let node = ExpressionNode::Atomic { number: values[vi] };
            let r = spec_intern(exprs, node);
            lemma_intern_props(exprs, node);
            lemma_intern_wf(exprs, node);
            assert(r.0[r.1] == node);
        },
        TreeShape::Binary { left, right } => {
            let l = spec_register(exprs, *left, values, actions, vi, ai + 1);
            let rvi = vi + left.leaves();
            let rai = ai + 1 + left.internals();
            lemma_register_extends(exprs, *left, values, actions, vi, ai + 1);
            lemma_register_extends(l.0, *right, values, actions, rvi, rai);
            let r = spec_register(l.0, *right, values, actions, rvi, rai);
            assert(l.0.len() <= r.0.len());
            assert(r.0.len() <= spec_register(exprs, shape, values, actions, vi, ai).0.len());
            lemma_register_denotes(exprs, *left, values, actions, vi, ai + 1);
            lemma_register_denotes(l.0, *right, values, actions, rvi, rai);
            assert(0 <= l.1 < l.0.len());
            assert(0 <= r.1 < r.0.len());
            assert((l.1 as usize) as int == l.1);
            assert((r.1 as usize) as int == r.1);
            let node = ExpressionNode::Binary {
                action: actions[ai],
                lhs: l.1 as usize,
                rhs: r.1 as usize,
            };
            let f = spec_intern(r.0, node);
            lemma_intern_props(r.0, node);
            lemma_intern_wf(r.0, node);
            assert(f.0[f.1] == node);
            // the operand results are unchanged by the later growth
            assert(seq_extends(f.0, r.0));
            lemma_extends_trans(f.0, r.0, l.0);
            lemma_eval_prefix_stable(l.0, f.0, l.1);
            lemma_eval_prefix_stable(r.0, f.0, r.1);
            assert(spec_eval(f.0, l.1) == spec_tree_eval(*left, values, actions, vi, ai + 1));
            assert(spec_eval(f.0, r.1) == spec_tree_eval(*right, values, actions, rvi, rai));
            assert(spec_literal_chain(f.0, l.1) == spec_tree_chain(*left, actions, ai + 1));
            assert(spec_literal_chain(f.0, r.1) == spec_tree_chain(*right, actions, rai));
            // children sit strictly before the combined node
            assert(children_ok(f.0[f.1], f.1));
            assert(spec_literal_chain(f.0, f.1) == spec_tree_chain(shape, actions, ai));
            assert(spec_eval(f.0, f.1) == spec_tree_eval(shape, values, actions, vi, ai));
        },
    }
}

/// Interning a node whose operands are already interned keeps every
/// child pointing strictly backwards.
proof fn lemma_intern_wf(exprs: Seq<ExpressionNode>, node: ExpressionNode)
    requires
        distinct_nodes(exprs),
        exprs_wf(exprs),
        children_ok(node, exprs.len() as int),
    ensures
        exprs_wf(spec_intern(exprs, node).0),
{
    let r = spec_intern(exprs, node);
    if !exprs.contains(node) {
        assert forall|i: int| 0 <= i < r.0.len() implies children_ok(#[trigger] r.0[i], i) by {
            if i < exprs.len() {
                assert(children_ok(exprs[i], i));
            } else {
                assert(r.0[i] == node);
            }
        }
    }
}

/// Registering into any pool that already holds a registration's result
/// changes nothing and returns the same identifier.
proof fn lemma_register_stable(
    small: Seq<ExpressionNode>,
    big: Seq<ExpressionNode>,
    shape: TreeShape,
    values: Seq<usize>,
    actions: Seq<ExpressionAction>,
    vi: int,
    ai: int,
)
    requires
        distinct_nodes(small),
        distinct_nodes(big),
        seq_extends(big, spec_register(small, shape, values, actions, vi, ai).0),
    ensures
        spec_register(big, shape, values, actions, vi, ai).0 == big,
        spec_register(big, shape, values, actions, vi, ai).1 == spec_register(
            small,
            shape,
            values,
            actions,
            vi,
            ai,
        ).1,
    decreases shape,
{
    match shape {
        TreeShape::Leaf => {
            let node = ExpressionNode::Atomic { number: values[vi] };
            let r = spec_intern(small, node);
            lemma_intern_props(small, node);
            assert(big[r.1] == node);
            lemma_index_of_unique(big, node, r.1);
        },
        TreeShape::Binary { left, right } => {
            let l = spec_register(small, *left, values, actions, vi, ai + 1);
            lemma_register_extends(small, *left, values, actions, vi, ai + 1);
            let rvi = vi + left.leaves();
            let rai = ai + 1 + left.internals();
            let r = spec_register(l.0, *right, values, actions, rvi, rai);
            lemma_register_extends(l.0, *right, values, actions, rvi, rai);
            let node = ExpressionNode::Binary {
                action: actions[ai],
                lhs: l.1 as usize,
                rhs: r.1 as usize,
            };
            let f = spec_intern(r.0, node);
            lemma_intern_props(r.0, node);
            // big extends f.0, which extends r.0, which extends l.0
            assert(seq_extends(big, r.0));
            assert(seq_extends(big, l.0));
            lemma_register_stable(small, big, *left, values, actions, vi, ai + 1);
            lemma_register_stable(l.0, big, *right, values, actions, rvi, rai);
            assert(big[f.1] == node);
            lemma_index_of_unique(big, node, f.1);
        },
    }
}

/// Law: interning is idempotent. Registering the same shape, atom
/// sequence and operator assignment a second time hands back the same
/// identifier and leaves the pool's contents unchanged, so no memoized
/// entry is ever disturbed.
pub proof fn lemma_register_idempotent(
    exprs: Seq<ExpressionNode>,
    shape: TreeShape,
    values: Seq<usize>,
    actions: Seq<ExpressionAction>,
    vi: int,
    ai: int,
)
    requires
        distinct_nodes(exprs),
    ensures
        ({
            let first = spec_register(exprs, shape, values, actions, vi, ai);
            let second = spec_register(first.0, shape, values, actions, vi, ai);
            second.0 == first.0 && second.1 == first.1
        }),
{
    let first = spec_register(exprs, shape, values, actions, vi, ai);
    lemma_register_extends(exprs, shape, values, actions, vi, ai);
    assert(seq_extends(first.0, first.0));
    lemma_register_stable(exprs, first.0, shape, values, actions, vi, ai);
}

impl ExpressionPool {
    /// Walk the shape in pre-order, interning an atom at each leaf and a
    /// binary node at each split, with `vi` and `ai` the cursors into the
    /// atoms and operators.
    fn register_rec(
        &mut self,
        shape: &TreeShape,
        values: &Vec<usize>,
        actions: &Vec<ExpressionAction>,
        vi: usize,
        ai: usize,
    ) -> (id: NodeID)
        requires
            old(self).wf(),
            vi + shape.leaves() <= values@.len(),
            ai + shape.internals() <= actions@.len(),
        ensures
            final(self).wf(),
            final(self).exprs() == spec_register(
                old(self).exprs(),
                *shape,
                values@,
                actions@,
                vi as int,
                ai as int,
            ).0,
            id as int == spec_register(
                old(self).exprs(),
                *shape,
                values@,
                actions@,
                vi as int,
                ai as int,
            ).1,
            seq_extends(final(self).exprs(), old(self).exprs()),
            preserves_evaluated(*old(self), *final(self)),
            (id as int) < final(self).exprs().len(),
        decreases *shape,
    {
        match shape {
            TreeShape::Leaf => {
                let id = self.insert_atomic(values[vi]);
                proof {
                    let node = ExpressionNode::Atomic { number: values@[vi as int] };
                    if old(self).exprs().contains(node) {
                        lemma_index_of_unique(old(self).exprs(), node, id as int);
                    }
                }
                id
            },
            TreeShape::Binary { left, right } => {
                proof {
                    assert(shape.leaves() == left.leaves() + right.leaves());
                    assert(shape.internals() == 1 + left.internals() + right.internals());
                }
                let atom_count = values.len();
                let slot_count = actions.len();
                proof {
                    assert(atom_count == values@.len());
                    assert(slot_count == actions@.len());
                }
                let ghost pre = *self;
                let action = actions[ai];
                let lid = self.register_rec(left, values, actions, vi, ai + 1);
                let ghost mid = *self;
                let lv = left.leaf_count();
                let li = left.internal_count();
                let rid = self.register_rec(right, values, actions, vi + lv, ai + 1 + li);
                let ghost post = *self;
                let id = self.insert_binary(action, lid, rid);
                proof {
                    let node = ExpressionNode::Binary { action, lhs: lid, rhs: rid };
                    if post.exprs().contains(node) {
                        lemma_index_of_unique(post.exprs(), node, id as int);
                    }
                    assert(pre.exprs().len() == pre.nodes@.len());
                    assert(mid.exprs().len() == mid.nodes@.len());
                    assert(post.exprs().len() == post.nodes@.len());
                    lemma_preserves_chain(pre, mid, post);
                    lemma_preserves_chain(pre, post, *self);
                    assert(seq_extends(self.exprs(), pre.exprs()));
                }
                id
            },
        }
    }

    /// Register a whole combination: the atoms fill the shape's leaves
    /// left to right and the operator tuple fills its binary positions in
    /// pre-order; every node is interned, so structurally identical
    /// sub-expressions collapse to entries already present.
    pub fn register_binary_node(
        &mut self,
        node: &TreeShape,
        values: &Vec<usize>,
        actions: &Vec<ExpressionAction>,
    ) -> (id: NodeID)
        requires
            old(self).wf(),
            values@.len() == node.leaves(),
            actions@.len() == node.internals(),
        ensures
            final(self).wf(),
            final(self).exprs() == spec_register(
                old(self).exprs(),
                *node,
                values@,
                actions@,
                0,
                0,
            ).0,
            id as int == spec_register(old(self).exprs(), *node, values@, actions@, 0, 0).1,
            seq_extends(final(self).exprs(), old(self).exprs()),
            preserves_evaluated(*old(self), *final(self)),
            (id as int) < final(self).exprs().len(),
            spec_eval(final(self).exprs(), id as int) == spec_tree_eval(
                *node,
                values@,
                actions@,
                0,
                0,
            ),
            spec_literal_chain(final(self).exprs(), id as int) == spec_tree_chain(
                *node,
                actions@,
                0,
            ),
    {
        let id = self.register_rec(node, values, actions, 0, 0);
        let len = self.nodes.len();
        proof {
            assert(len == self.nodes@.len());
            assert(self.exprs().len() == self.nodes@.len());
            lemma_register_denotes(old(self).exprs(), *node, values@, actions@, 0, 0);
        }
        id
    }
}

} // verus!
