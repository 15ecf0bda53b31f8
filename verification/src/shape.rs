//! Parenthesization shapes: full binary trees over a given number of
//! leaves, together with a memoizing enumerator that produces every shape
//! exactly once. The count equals the Catalan number of the leaf count
//! minus one, which is proved here along with distinctness.
use vstd::prelude::*;

verus! {

/// One parenthesization of a sequence of atoms: either a single atom or a
/// binary split into a left and a right subtree.
#[derive(Debug)]
pub enum TreeShape {
    Leaf,
    Binary { left: Box<TreeShape>, right: Box<TreeShape> },
}

impl TreeShape {
    /// How many atoms this shape consumes.
    pub open spec fn leaves(&self) -> nat
        decreases self,
    {
        match self {
            TreeShape::Leaf => 1,
            TreeShape::Binary { left, right } => left.leaves() + right.leaves(),
        }
    }

    /// How many binary (operator) positions this shape has.
    pub open spec fn internals(&self) -> nat
        decreases self,
    {
        match self {
            TreeShape::Leaf => 0,
            TreeShape::Binary { left, right } => 1 + left.internals() + right.internals(),
        }
    }

    /// How many atoms this shape consumes, as a machine integer.
    pub fn leaf_count(&self) -> (r: usize)
        requires
            self.leaves() <= usize::MAX,
        ensures
            r == self.leaves(),
        decreases *self,
    {
        match self {
            TreeShape::Leaf => 1,
            TreeShape::Binary { left, right } => left.leaf_count() + right.leaf_count(),
        }
    }

    /// How many binary positions this shape has, as a machine integer.
    pub fn internal_count(&self) -> (r: usize)
        requires
            self.internals() <= usize::MAX,
        ensures
            r == self.internals(),
        decreases *self,
    {
        match self {
            TreeShape::Leaf => 0,
            TreeShape::Binary { left, right } => 1 + left.internal_count() + right.internal_count(),
        }
    }

    /// A fresh copy of the same shape.
    pub fn duplicate(&self) -> (r: TreeShape)
        ensures
            r == *self,
        decreases *self,
    {
        match self {
            TreeShape::Leaf => TreeShape::Leaf,
            TreeShape::Binary { left, right } => TreeShape::Binary {
                left: Box::new(left.duplicate()),
                right: Box::new(right.duplicate()),
            },
        }
    }
}

/// A full binary tree has one binary node fewer than it has leaves.
pub proof fn lemma_internal_count(s: TreeShape)
    ensures
        s.internals() + 1 == s.leaves(),
    decreases s,
{
    match s {
        TreeShape::Leaf => {},
        TreeShape::Binary { left, right } => {
            lemma_internal_count(*left);
            lemma_internal_count(*right);
        },
    }
}

pub open spec fn mk_binary(l: TreeShape, r: TreeShape) -> TreeShape {
    TreeShape::Binary { left: Box::new(l), right: Box::new(r) }
}

/// The left subtree's leaf count, zero for a leaf.
pub open spec fn left_leaves(s: TreeShape) -> nat {
    match s {
        TreeShape::Leaf => 0,
        TreeShape::Binary { left, .. } => left.leaves(),
    }
}

/// No element occurs twice.
pub open spec fn distinct_seq(s: Seq<TreeShape>) -> bool {
    forall|i: int, j: int| 0 <= i < j < s.len() ==> s[i] != s[j]
}

/// All combinations of a fixed left subtree with each right subtree, in
/// order.
pub open spec fn spec_row(l: TreeShape, rs: Seq<TreeShape>) -> Seq<TreeShape>
    decreases rs.len(),
{
    if rs.len() == 0 {
        Seq::empty()
    } else {
        seq![mk_binary(l, rs[0])] + spec_row(l, rs.drop_first())
    }
}

/// All combinations of each left subtree with each right subtree: rows in
/// left order, each row in right order.
pub open spec fn spec_cross(ls: Seq<TreeShape>, rs: Seq<TreeShape>) -> Seq<TreeShape>
    decreases ls.len(),
{
    if ls.len() == 0 {
        Seq::empty()
    } else {
        spec_row(ls[0], rs) + spec_cross(ls.drop_first(), rs)
    }
}

/// Splits `1..=k` of a tree over `n` leaves: every shape whose left
/// subtree takes `j` leaves for some `j <= k`.
pub open spec fn spec_splits(n: nat, k: nat) -> Seq<TreeShape>
    decreases n, k,
{
    if k == 0 || k >= n {
        Seq::empty()
    } else {
        spec_splits(n, (k - 1) as nat) + spec_cross(
            spec_trees(k),
            spec_trees((n - k) as nat),
        )
    }
}

/// Every full binary tree shape with exactly `n` leaves, in the order the
/// enumerator produces them.
pub open spec fn spec_trees(n: nat) -> Seq<TreeShape>
    decreases n, n,
{
    if n == 0 {
        Seq::empty()
    } else if n == 1 {
        seq![TreeShape::Leaf]
    } else {
        spec_splits(n, (n - 1) as nat)
    }
}

/// The Catalan numbers, by their summation recurrence.
pub open spec fn catalan(n: nat) -> nat
    decreases n, n,
{
    if n == 0 {
        1
    } else {
        catalan_sum(n, (n - 1) as nat)
    }
}

/// `catalan(k) * catalan(n-1-k) + ... + catalan(0) * catalan(n-1)`: the
/// partial sums of the Catalan recurrence for `catalan(n)`.
pub open spec fn catalan_sum(n: nat, k: nat) -> nat
    decreases n, k,
{
    if n == 0 || k >= n {
        0
    } else if k == 0 {
        catalan(0) * catalan((n - 1) as nat)
    } else {
        catalan(k) * catalan((n - 1 - k) as nat) + catalan_sum(n, (k - 1) as nat)
    }
}

proof fn lemma_row_props(l: TreeShape, rs: Seq<TreeShape>)
    ensures
        spec_row(l, rs).len() == rs.len(),
        forall|j: int| 0 <= j < rs.len() ==> #[trigger] spec_row(l, rs)[j] == mk_binary(l, rs[j]),
    decreases rs.len(),
{
    if rs.len() > 0 {
        lemma_row_props(l, rs.drop_first());
        assert forall|j: int| 0 <= j < rs.len() implies #[trigger] spec_row(l, rs)[j] == mk_binary(
            l,
            rs[j],
        ) by {
            if j > 0 {
                assert(spec_row(l, rs)[j] == spec_row(l, rs.drop_first())[j - 1]);
                assert(rs.drop_first()[j - 1] == rs[j]);
            }
        }
    }
}

/// Whether `x` combines some left element with some right element.
pub open spec fn cross_member(x: TreeShape, ls: Seq<TreeShape>, rs: Seq<TreeShape>) -> bool {
    exists|i: int, j: int|
        0 <= i < ls.len() && 0 <= j < rs.len() && x == #[trigger] mk_binary(ls[i], rs[j])
}

proof fn lemma_cross_props(ls: Seq<TreeShape>, rs: Seq<TreeShape>)
    ensures
        spec_cross(ls, rs).len() == ls.len() * rs.len(),
        forall|t: int|
            0 <= t < spec_cross(ls, rs).len() ==> cross_member(
                #[trigger] spec_cross(ls, rs)[t],
                ls,
                rs,
            ),
    decreases ls.len(),
{
    if ls.len() == 0 {
        assert(ls.len() * rs.len() == 0);
    } else {
        lemma_row_props(ls[0], rs);
        lemma_cross_props(ls.drop_first(), rs);
        assert((ls.len() - 1) * rs.len() == ls.len() * rs.len() - rs.len()) by (nonlinear_arith);
        assert forall|t: int| 0 <= t < spec_cross(ls, rs).len() implies cross_member(
            #[trigger] spec_cross(ls, rs)[t],
            ls,
            rs,
        ) by {
            let x = spec_cross(ls, rs)[t];
            if t < rs.len() {
                assert(x == spec_row(ls[0], rs)[t]);
                assert(x == mk_binary(ls[0], rs[t]));
            } else {
                let y = spec_cross(ls.drop_first(), rs)[t - rs.len()];
                assert(x == y);
                assert(cross_member(y, ls.drop_first(), rs));
                let (i, j): (int, int) = choose|i: int, j: int|
                    0 <= i < ls.drop_first().len() && 0 <= j < rs.len() && y == #[trigger] mk_binary(
                        ls.drop_first()[i],
                        rs[j],
                    );
                assert(ls.drop_first()[i] == ls[i + 1]);
                assert(x == mk_binary(ls[i + 1], rs[j]));
            }
        }
    }
}

proof fn lemma_cross_distinct(ls: Seq<TreeShape>, rs: Seq<TreeShape>)
    requires
        distinct_seq(ls),
        distinct_seq(rs),
    ensures
        distinct_seq(spec_cross(ls, rs)),
    decreases ls.len(),
{
    if ls.len() > 0 {
        lemma_row_props(ls[0], rs);
        assert(distinct_seq(ls.drop_first()));
        lemma_cross_distinct(ls.drop_first(), rs);
        lemma_cross_props(ls.drop_first(), rs);
        let whole = spec_cross(ls, rs);
        assert forall|i: int, j: int| 0 <= i < j < whole.len() implies whole[i] != whole[j] by {
            let m = rs.len() as int;
            if j < m {
                assert(whole[i] == mk_binary(ls[0], rs[i]));
                assert(whole[j] == mk_binary(ls[0], rs[j]));
            } else if i < m {
                assert(whole[i] == mk_binary(ls[0], rs[i]));
                let y = spec_cross(ls.drop_first(), rs)[j - m];
                assert(whole[j] == y);
                assert(cross_member(y, ls.drop_first(), rs));
                let (a, b): (int, int) = choose|a: int, b: int|
                    0 <= a < ls.drop_first().len() && 0 <= b < rs.len() && y == #[trigger] mk_binary(
                        ls.drop_first()[a],
                        rs[b],
                    );
                assert(ls.drop_first()[a] == ls[a + 1]);
                assert(ls[0] != ls[a + 1]);
            } else {
                assert(whole[i] == spec_cross(ls.drop_first(), rs)[i - m]);
                assert(whole[j] == spec_cross(ls.drop_first(), rs)[j - m]);
            }
        }
    }
}

/// The combined facts about `spec_trees(n)` and its split prefixes, proved
/// by mutual induction following the definitions.
proof fn lemma_trees_props(n: nat)
    ensures
        spec_trees(n).len() == if n == 0 {
            0
        } else {
            catalan((n - 1) as nat)
        },
        distinct_seq(spec_trees(n)),
        forall|t: int|
            0 <= t < spec_trees(n).len() ==> (#[trigger] spec_trees(n)[t]).leaves() == n,
    decreases n, n,
{
    if n <= 1 {
        // spec_trees(0) is empty; spec_trees(1) is the single leaf
    } else {
        lemma_splits_props(n, (n - 1) as nat);
        assert(catalan((n - 1) as nat) == catalan_sum((n - 1) as nat, (n - 2) as nat));
    }
}

proof fn lemma_splits_props(n: nat, k: nat)
    requires
        2 <= n,
        1 <= k < n,
    ensures
        spec_splits(n, k).len() == catalan_sum((n - 1) as nat, (k - 1) as nat),
        distinct_seq(spec_splits(n, k)),
        forall|t: int|
            0 <= t < spec_splits(n, k).len() ==> (#[trigger] spec_splits(n, k)[t]).leaves() == n
                && spec_splits(n, k)[t] is Binary && 1 <= left_leaves(spec_splits(n, k)[t]) <= k,
    decreases n, k,
{
    let ls = spec_trees(k);
    let rs = spec_trees((n - k) as nat);
    lemma_trees_props(k);
    lemma_trees_props((n - k) as nat);
    lemma_cross_props(ls, rs);
    lemma_cross_distinct(ls, rs);
    let cross = spec_cross(ls, rs);
    assert(cross.len() == catalan((k - 1) as nat) * catalan((n - k - 1) as nat));
    assert forall|t: int| 0 <= t < cross.len() implies (#[trigger] cross[t]).leaves() == n
        && cross[t] is Binary && left_leaves(cross[t]) == k by {
        assert(cross_member(cross[t], ls, rs));
        let (i, j): (int, int) = choose|i: int, j: int|
            0 <= i < ls.len() && 0 <= j < rs.len() && cross[t] == #[trigger] mk_binary(
                ls[i],
                rs[j],
            );
        assert(ls[i].leaves() == k);
        assert(rs[j].leaves() == n - k);
    }
    if k == 1 {
        assert(spec_splits(n, 0) =~= Seq::<TreeShape>::empty());
        assert(spec_splits(n, k) =~= cross);
        assert(catalan_sum((n - 1) as nat, 0) == catalan(0) * catalan((n - 2) as nat));
        assert(catalan(0) * catalan((n - 2) as nat) == catalan((n - 2) as nat));
    } else {
        lemma_splits_props(n, (k - 1) as nat);
        let prefix = spec_splits(n, (k - 1) as nat);
        let whole = spec_splits(n, k);
        assert(whole == prefix + cross);
        assert(catalan_sum((n - 1) as nat, (k - 1) as nat) == catalan((k - 1) as nat) * catalan(
            (n - 1 - k) as nat,
        ) + catalan_sum((n - 1) as nat, (k - 2) as nat));
        assert forall|i: int, j: int| 0 <= i < j < whole.len() implies whole[i] != whole[j] by {
            let p = prefix.len() as int;
            if j < p {
                assert(whole[i] == prefix[i]);
                assert(whole[j] == prefix[j]);
            } else if i < p {
                assert(whole[i] == prefix[i]);
                assert(whole[j] == cross[j - p]);
                assert(left_leaves(prefix[i]) <= k - 1);
                assert(left_leaves(cross[j - p]) == k);
            } else {
                assert(whole[i] == cross[i - p]);
                assert(whole[j] == cross[j - p]);
            }
        }
    }
}

/// Law: for `n >= 1` atoms the shape enumeration holds exactly
/// `catalan(n-1)` shapes, no two of them equal, and every one of them has
/// exactly `n` leaves and `n - 1` binary positions.
pub proof fn lemma_shape_enumeration(n: nat)
    requires
        n >= 1,
    ensures
        spec_trees(n).len() == catalan((n - 1) as nat),
        distinct_seq(spec_trees(n)),
        forall|t: int|
            0 <= t < spec_trees(n).len() ==> (#[trigger] spec_trees(n)[t]).leaves() == n
                && spec_trees(n)[t].internals() == n - 1,
{
    lemma_trees_props(n);
    assert forall|t: int| 0 <= t < spec_trees(n).len() implies (
    #[trigger] spec_trees(n)[t]).leaves() == n && spec_trees(n)[t].internals() == n - 1 by {
        lemma_internal_count(spec_trees(n)[t]);
    }
}

/// The memoizing shape enumerator: level `k` of the cache holds every
/// shape with `k` leaves.
#[derive(Debug)]
pub struct FullBinaryTrees {
    pub cache: Vec<Vec<TreeShape>>,
}

impl FullBinaryTrees {
    /// Every filled level agrees with the specification sequence.
    pub open spec fn wf(&self) -> bool {
        forall|i: int| 0 <= i < self.cache@.len() ==> (#[trigger] self.cache@[i])@ == spec_trees(
            i as nat,
        )
    }

    pub fn new() -> (r: FullBinaryTrees)
        ensures
            r.wf(),
            r.cache@.len() == 0,
    {
        FullBinaryTrees { cache: Vec::new() }
    }

    /// Fill the cache up to and including level `n`.
    pub fn build_trees(&mut self, n: usize)
        requires
            old(self).wf(),
        ensures
            final(self).wf(),
            final(self).cache@.len() > n,
            forall|i: int|
                0 <= i < old(self).cache@.len() ==> old(self).cache@[i]
                    == #[trigger] final(self).cache@[i],
    {
        while self.cache.len() <= n
            invariant
                self.wf(),
                forall|i: int|
                    0 <= i < old(self).cache@.len() ==> old(self).cache@[i] == #[trigger] self.cache@[i],
                old(self).cache@.len() <= self.cache@.len(),
            decreases n + 1 - self.cache@.len(),
        {
            let k = self.cache.len();
            let level = self.build_level(k);
            self.cache.push(level);
        }
    }

    /// Build the vector of every shape with `k` leaves, assuming all
    /// smaller levels are cached.
    fn build_level(&self, k: usize) -> (level: Vec<TreeShape>)
        requires
            self.wf(),
            k == self.cache@.len(),
        ensures
            level@ == spec_trees(k as nat),
    {
        let mut level: Vec<TreeShape> = Vec::new();
        if k == 0 {
            proof {
                assert(level@ =~= spec_trees(0));
            }
            return level;
        }
        if k == 1 {
            level.push(TreeShape::Leaf);
            proof {
                assert(level@ =~= spec_trees(1));
            }
            return level;
        }
        let ghost kn = k as nat;
        proof {
            assert(spec_splits(kn, 0) =~= Seq::<TreeShape>::empty());
            assert(level@ =~= spec_splits(kn, 0));
        }
        let mut split: usize = 1;
        while split < k
            invariant
                self.wf(),
                k == self.cache@.len(),
                kn == k as nat,
                2 <= k,
                1 <= split <= k,
                level@ == spec_splits(kn, (split - 1) as nat),
            decreases k - split,
        {
            let ghost ls = spec_trees(split as nat);
            let ghost rs = spec_trees((k - split) as nat);
            let ghost base = level@;
            let left_count = self.cache[split].len();
            let right_count = self.cache[k - split].len();
            let mut li: usize = 0;
            proof {
                assert(spec_cross(ls.take(0), rs) =~= Seq::<TreeShape>::empty());
                assert(level@ =~= base + spec_cross(ls.take(0), rs));
            }
            while li < left_count
                invariant
                    self.wf(),
                    k == self.cache@.len(),
                    kn == k as nat,
                    2 <= k,
                    1 <= split < k,
                    li <= left_count,
                    left_count == ls.len(),
                    right_count == rs.len(),
                    ls == spec_trees(split as nat),
                    rs == spec_trees((k - split) as nat),
                    ls == self.cache@[split as int]@,
                    rs == self.cache@[k - split]@,
                    level@ == base + spec_cross(ls.take(li as int), rs),
                decreases left_count - li,
            {
                let mut ri: usize = 0;
                let ghost row_base = level@;
                proof {
                    assert(spec_row(ls[li as int], rs.take(0)) =~= Seq::<TreeShape>::empty());
                    assert(level@ =~= row_base + spec_row(ls[li as int], rs.take(0)));
                }
                while ri < right_count
                    invariant
                        self.wf(),
                        k == self.cache@.len(),
                        kn == k as nat,
                        2 <= k,
                        1 <= split < k,
                        li < left_count,
                        ri <= right_count,
                        left_count == ls.len(),
                        right_count == rs.len(),
                        ls == spec_trees(split as nat),
                        rs == spec_trees((k - split) as nat),
                        ls == self.cache@[split as int]@,
                        rs == self.cache@[k - split]@,
                        row_base == base + spec_cross(ls.take(li as int), rs),
                        level@ == row_base + spec_row(ls[li as int], rs.take(ri as int)),
                    decreases right_count - ri,
                {
                    let l = self.cache[split][li].duplicate();
                    let r = self.cache[k - split][ri].duplicate();
                    level.push(TreeShape::Binary { left: Box::new(l), right: Box::new(r) });
                    proof {
                        lemma_row_snoc(ls[li as int], rs, ri as int);
                    }
                    ri = ri + 1;
                }
                proof {
                    assert(rs.take(rs.len() as int) =~= rs);
                    lemma_cross_snoc(ls, rs, li as int);
                }
                li = li + 1;
            }
            proof {
                assert(ls.take(ls.len() as int) =~= ls);
                assert(level@ == base + spec_cross(ls, rs));
                assert(spec_splits(kn, split as nat) == spec_splits(kn, (split - 1) as nat)
                    + spec_cross(ls, rs));
            }
            split = split + 1;
        }
        proof {
            assert(level@ == spec_splits(kn, (k - 1) as nat));
            assert(spec_trees(kn) == spec_splits(kn, (k - 1) as nat));
        }
        level
    }

    /// The cached shapes with exactly `n` leaves.
    pub fn inquire(&self, n: usize) -> (r: &Vec<TreeShape>)
        requires
            self.wf(),
            n < self.cache@.len(),
        ensures
            r@ == spec_trees(n as nat),
    {
        &self.cache[n]
    }
}

impl Default for FullBinaryTrees {
    fn default() -> (r: FullBinaryTrees)
        ensures
            r.wf(),
            r.cache@.len() == 0,
    {
        FullBinaryTrees::new()
    }
}

/// Extending the right operands by one extends the row by one combination.
proof fn lemma_row_snoc(l: TreeShape, rs: Seq<TreeShape>, j: int)
    requires
        0 <= j < rs.len(),
    ensures
        spec_row(l, rs.take(j + 1)) == spec_row(l, rs.take(j)).push(mk_binary(l, rs[j])),
    decreases j,
{
    if j == 0 {
        assert(rs.take(1) =~= seq![rs[0]]);
        assert(rs.take(0) =~= Seq::<TreeShape>::empty());
        assert(seq![rs[0]].drop_first() =~= Seq::<TreeShape>::empty());
        assert(spec_row(l, Seq::<TreeShape>::empty()) == Seq::<TreeShape>::empty());
        assert(spec_row(l, seq![rs[0]]) == seq![mk_binary(l, rs[0])] + spec_row(
            l,
            Seq::<TreeShape>::empty(),
        ));
        assert(spec_row(l, rs.take(1)) =~= spec_row(l, rs.take(0)).push(mk_binary(l, rs[0])));
    } else {
        assert(rs.take(j + 1).drop_first() =~= rs.drop_first().take(j));
        assert(rs.take(j).drop_first() =~= rs.drop_first().take(j - 1));
        lemma_row_snoc(l, rs.drop_first(), j - 1);
        assert(rs.drop_first()[j - 1] == rs[j]);
        assert(rs.take(j + 1)[0] == rs[0]);
        assert(rs.take(j)[0] == rs[0]);
        assert(spec_row(l, rs.take(j + 1)) == seq![mk_binary(l, rs[0])] + spec_row(
            l,
            rs.drop_first().take(j),
        ));
        assert(spec_row(l, rs.take(j)) == seq![mk_binary(l, rs[0])] + spec_row(
            l,
            rs.drop_first().take(j - 1),
        ));
        assert(spec_row(l, rs.take(j + 1)) =~= spec_row(l, rs.take(j)).push(mk_binary(l, rs[j])));
    }
}

/// Extending the left operands by one appends that operand's whole row.
proof fn lemma_cross_snoc(ls: Seq<TreeShape>, rs: Seq<TreeShape>, i: int)
    requires
        0 <= i < ls.len(),
    ensures
        spec_cross(ls.take(i + 1), rs) == spec_cross(ls.take(i), rs) + spec_row(ls[i], rs),
    decreases i,
{
    if i == 0 {
        assert(ls.take(1) =~= seq![ls[0]]);
        assert(ls.take(0) =~= Seq::<TreeShape>::empty());
        assert(seq![ls[0]].drop_first() =~= Seq::<TreeShape>::empty());
        assert(spec_cross(Seq::<TreeShape>::empty(), rs) == Seq::<TreeShape>::empty());
        assert(spec_cross(seq![ls[0]], rs) == spec_row(ls[0], rs) + spec_cross(
            Seq::<TreeShape>::empty(),
            rs,
        ));
        assert(spec_cross(ls.take(1), rs) =~= spec_cross(ls.take(0), rs) + spec_row(ls[0], rs));
    } else {
        assert(ls.take(i + 1).drop_first() =~= ls.drop_first().take(i));
        assert(ls.take(i).drop_first() =~= ls.drop_first().take(i - 1));
        lemma_cross_snoc(ls.drop_first(), rs, i - 1);
        assert(ls.drop_first()[i - 1] == ls[i]);
        assert(ls.take(i + 1)[0] == ls[0]);
        assert(ls.take(i)[0] == ls[0]);
        assert(spec_cross(ls.take(i + 1), rs) == spec_row(ls[0], rs) + spec_cross(
            ls.drop_first().take(i),
            rs,
        ));
        assert(spec_cross(ls.take(i), rs) == spec_row(ls[0], rs) + spec_cross(
            ls.drop_first().take(i - 1),
            rs,
        ));
        assert(spec_cross(ls.take(i + 1), rs) =~= spec_cross(ls.take(i), rs) + spec_row(
            ls[i],
            rs,
        ));
    }
}

} // verus!
