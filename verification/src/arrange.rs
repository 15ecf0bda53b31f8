//! The operator assigner: enumerates every assignment of operators to the
//! binary positions of a shape, as a mixed-radix counter. Tuple `i`
//! decodes slot `j` to `alphabet[(i / m^j) mod m]`; the decode is proved
//! injective and complete over `[0, m^s)`.
use vstd::prelude::*;

use vstd::arithmetic::div_mod::lemma_div_denominator;
use vstd::arithmetic::div_mod::lemma_div_pos_is_pos;
use vstd::arithmetic::div_mod::lemma_fundamental_div_mod;
use vstd::arithmetic::div_mod::lemma_fundamental_div_mod_converse;
use vstd::arithmetic::div_mod::lemma_mod_pos_bound;
use vstd::arithmetic::div_mod::lemma_multiply_divide_lt;
use vstd::arithmetic::power::lemma_pow0;
use vstd::arithmetic::power::lemma_pow1;
use vstd::arithmetic::power::lemma_pow_adds;
use vstd::arithmetic::power::lemma_pow_increases;
use vstd::arithmetic::power::lemma_pow_positive;
use vstd::arithmetic::power::pow;

use crate::operators::ExpressionAction;

verus! {

/// No operator occurs twice in the alphabet.
pub open spec fn distinct_ops(s: Seq<ExpressionAction>) -> bool {
    forall|i: int, j: int| 0 <= i < j < s.len() ==> s[i] != s[j]
}

/// The alphabet with every repeated tag removed, first occurrences kept.
pub open spec fn spec_dedup(s: Seq<ExpressionAction>) -> Seq<ExpressionAction>
    decreases s.len(),
{
    if s.len() == 0 {
        Seq::empty()
    } else {
        let prefix = spec_dedup(s.drop_last());
        if prefix.contains(s.last()) {
            prefix
        } else {
            prefix.push(s.last())
        }
    }
}

pub proof fn lemma_dedup_props(s: Seq<ExpressionAction>)
    ensures
        distinct_ops(spec_dedup(s)),
        forall|x: ExpressionAction| #[trigger] spec_dedup(s).contains(x) <==> s.contains(x),
    decreases s.len(),
{
    if s.len() > 0 {
        lemma_dedup_props(s.drop_last());
        let prefix = spec_dedup(s.drop_last());
        assert forall|x: ExpressionAction| #[trigger] s.contains(x) implies spec_dedup(s).contains(
            x,
        ) by {
            let i = choose|i: int| 0 <= i < s.len() && s[i] == x;
            if i < s.len() - 1 {
                assert(s.drop_last()[i] == x);
                assert(s.drop_last().contains(x));
                assert(prefix.contains(x));
                let p = choose|p: int| 0 <= p < prefix.len() && prefix[p] == x;
                if prefix.contains(s.last()) {
                    assert(spec_dedup(s) == prefix);
                } else {
                    assert(spec_dedup(s)[p] == x);
                }
            } else {
                assert(x == s.last());
                if prefix.contains(s.last()) {
                    assert(spec_dedup(s) == prefix);
                } else {
                    assert(spec_dedup(s)[prefix.len() as int] == x);
                }
            }
        }
        assert forall|x: ExpressionAction| #[trigger] spec_dedup(s).contains(x) implies s.contains(
            x,
        ) by {
            let p = choose|p: int| 0 <= p < spec_dedup(s).len() && spec_dedup(s)[p] == x;
            if p < prefix.len() {
                assert(prefix[p] == x);
                assert(prefix.contains(x));
                let i = choose|i: int| 0 <= i < s.drop_last().len() && s.drop_last()[i] == x;
                assert(s[i] == x);
            } else {
                assert(x == s.last());
                assert(s[s.len() - 1] == x);
            }
        }
        if !prefix.contains(s.last()) {
            assert forall|i: int, j: int|
                0 <= i < j < spec_dedup(s).len() implies spec_dedup(s)[i] != spec_dedup(s)[j] by {
                if j < prefix.len() {
                } else {
                    assert(spec_dedup(s)[j] == s.last());
                    assert(spec_dedup(s)[i] == prefix[i]);
                    assert(prefix.contains(prefix[i]));
                }
            }
        }
    }
}

/// The operator tuple that counter value `index` decodes to, over an
/// alphabet of size `m`: slot `j` holds `ops[(index / m^j) % m]`.
pub open spec fn spec_assignment(ops: Seq<ExpressionAction>, slots: nat, index: nat) -> Seq<
    ExpressionAction,
> {
    Seq::new(
        slots as nat,
        |j: int| ops[(index as int / pow(ops.len() as int, j as nat)) % ops.len() as int],
    )
}

/// Peeling one slot off a decode: the first slot is `index % m`, the rest
/// is the decode of `index / m`.
proof fn lemma_assignment_peel(ops: Seq<ExpressionAction>, slots: nat, index: nat)
    requires
        ops.len() > 0,
        slots > 0,
    ensures
        spec_assignment(ops, slots, index)[0] == ops[index as int % ops.len() as int],
        spec_assignment(ops, slots, index).drop_first() == spec_assignment(
            ops,
            (slots - 1) as nat,
            (index as int / ops.len() as int) as nat,
        ),
{
    let m = ops.len() as int;
    lemma_pow0(m);
    lemma_fundamental_div_mod_converse(index as int, 1, index as int, 0);
    assert(spec_assignment(ops, slots, index)[0] == ops[index as int % m]);
    lemma_div_pos_is_pos(index as int, m);
    let tail = (index as int / m) as nat;
    assert forall|j: int|
        0 <= j < slots - 1 implies spec_assignment(ops, slots, index).drop_first()[j]
        == spec_assignment(ops, (slots - 1) as nat, tail)[j] by {
        lemma_pow_positive(m, j as nat);
        lemma_div_denominator(index as int, m, pow(m, j as nat));
        lemma_pow1(m);
        lemma_pow_adds(m, 1, j as nat);
        assert(pow(m, (j + 1) as nat) == m * pow(m, j as nat));
        assert(spec_assignment(ops, slots, index)[j + 1] == ops[(index as int / pow(
            m,
            (j + 1) as nat,
        )) % m]);
    }
    assert(spec_assignment(ops, slots, index).drop_first() =~= spec_assignment(
        ops,
        (slots - 1) as nat,
        tail,
    ));
}

/// Law: over a duplicate-free alphabet, distinct counter values below
/// `m^s` decode to distinct operator tuples, so the assigner never repeats
/// an assignment.
pub proof fn lemma_assignments_distinct(
    ops: Seq<ExpressionAction>,
    slots: nat,
    i1: nat,
    i2: nat,
)
    requires
        distinct_ops(ops),
        ops.len() >= 1,
        i1 < pow(ops.len() as int, slots),
        i2 < pow(ops.len() as int, slots),
        i1 != i2,
    ensures
        spec_assignment(ops, slots, i1) != spec_assignment(ops, slots, i2),
    decreases slots,
{
    let m = ops.len() as int;
    if slots == 0 {
        lemma_pow0(m);
    } else {
        lemma_assignment_peel(ops, slots, i1);
        lemma_assignment_peel(ops, slots, i2);
        lemma_mod_pos_bound(i1 as int, m);
        lemma_mod_pos_bound(i2 as int, m);
        if i1 as int % m == i2 as int % m {
            lemma_fundamental_div_mod(i1 as int, m);
            lemma_fundamental_div_mod(i2 as int, m);
            let q1 = (i1 as int / m) as nat;
            let q2 = (i2 as int / m) as nat;
            lemma_div_pos_is_pos(i1 as int, m);
            lemma_div_pos_is_pos(i2 as int, m);
            assert(q1 != q2);
            lemma_pow1(m);
            lemma_pow_adds(m, 1, (slots - 1) as nat);
            assert(pow(m, slots) == m * pow(m, (slots - 1) as nat));
            lemma_multiply_divide_lt(i1 as int, m, pow(m, (slots - 1) as nat));
            lemma_multiply_divide_lt(i2 as int, m, pow(m, (slots - 1) as nat));
            lemma_assignments_distinct(ops, (slots - 1) as nat, q1, q2);
            assert(spec_assignment(ops, slots, i1).drop_first() != spec_assignment(
                ops,
                slots,
                i2,
            ).drop_first());
        } else {
            let a = i1 as int % m;
            let b = i2 as int % m;
            if a < b {
                assert(ops[a] != ops[b]);
            } else {
                assert(ops[b] != ops[a]);
            }
            assert(spec_assignment(ops, slots, i1)[0] != spec_assignment(ops, slots, i2)[0]);
        }
    }
}

/// Law: every tuple of `slots` operators drawn from the alphabet is the
/// decode of some counter value below `m^s`, so the assigner omits no
/// assignment.
pub proof fn lemma_assignments_complete(ops: Seq<ExpressionAction>, slots: nat, t: Seq<
    ExpressionAction,
>)
    requires
        ops.len() >= 1,
        t.len() == slots,
        forall|j: int| 0 <= j < slots ==> ops.contains(#[trigger] t[j]),
    ensures
        exists|i: nat|
            i < pow(ops.len() as int, slots) && #[trigger] spec_assignment(ops, slots, i) == t,
    decreases slots,
{
    let m = ops.len() as int;
    if slots == 0 {
        lemma_pow0(m);
        assert(spec_assignment(ops, 0, 0) =~= t);
        assert((0 as nat) < pow(m, slots) && spec_assignment(ops, slots, 0) == t);
    } else {
        assert(ops.contains(t[0]));
        let d = choose|d: int| 0 <= d < ops.len() && ops[d] == t[0];
        let rest = t.drop_first();
        assert forall|j: int| 0 <= j < slots - 1 implies ops.contains(#[trigger] rest[j]) by {
            assert(rest[j] == t[j + 1]);
        }
        lemma_assignments_complete(ops, (slots - 1) as nat, rest);
        let tail = choose|i: nat|
            i < pow(m, (slots - 1) as nat) && #[trigger] spec_assignment(ops, (slots - 1) as nat, i) == rest;
        lemma_pow_positive(m, (slots - 1) as nat);
        let i = (d + m * tail) as nat;
        lemma_pow1(m);
        lemma_pow_adds(m, 1, (slots - 1) as nat);
        assert(pow(m, slots) == m * pow(m, (slots - 1) as nat));
        assert(d + m * tail < m * pow(m, (slots - 1) as nat)) by (nonlinear_arith)
            requires
                0 <= d < m,
                0 <= tail,
                tail < pow(m, (slots - 1) as nat),
        ;
        lemma_fundamental_div_mod_converse(i as int, m, tail as int, d);
        lemma_assignment_peel(ops, slots, i);
        assert(spec_assignment(ops, slots, i)[0] == t[0]);
        assert(spec_assignment(ops, slots, i).drop_first() == rest);
        assert forall|j: int|
            0 <= j < slots implies spec_assignment(ops, slots, i)[j] == t[j] by {
            if j > 0 {
                assert(spec_assignment(ops, slots, i).drop_first()[j - 1] == spec_assignment(
                    ops,
                    slots,
                    i,
                )[j]);
                assert(rest[j - 1] == t[j]);
            }
        }
        assert(spec_assignment(ops, slots, i) =~= t);
        assert(i < pow(m, slots) && spec_assignment(ops, slots, i) == t);
    }
}

/// Whether `v` holds the tag `x`.
fn contains_action(v: &Vec<ExpressionAction>, x: ExpressionAction) -> (r: bool)
    ensures
        r == v@.contains(x),
{
    let mut i: usize = 0;
    while i < v.len()
        invariant
            i <= v@.len(),
            forall|j: int| 0 <= j < i ==> v@[j] != x,
        decreases v@.len() - i,
    {
        if v[i] == x {
            return true;
        }
        i = i + 1;
    }
    false
}

/// The alphabet with duplicates removed, first occurrences kept.
fn dedup_actions(v: &Vec<ExpressionAction>) -> (r: Vec<ExpressionAction>)
    ensures
        r@ == spec_dedup(v@),
{
    let mut out: Vec<ExpressionAction> = Vec::new();
    let mut i: usize = 0;
    proof {
        assert(v@.take(0) =~= Seq::<ExpressionAction>::empty());
    }
    while i < v.len()
        invariant
            i <= v@.len(),
            out@ == spec_dedup(v@.take(i as int)),
        decreases v@.len() - i,
    {
        let x = v[i];
        let seen = contains_action(&out, x);
        proof {
            assert(v@.take(i + 1).drop_last() =~= v@.take(i as int));
            assert(v@.take(i + 1).last() == v@[i as int]);
        }
        if !seen {
            out.push(x);
        }
        i = i + 1;
    }
    proof {
        assert(v@.take(v@.len() as int) =~= v@);
    }
    out
}

/// `base^exp` when it fits in a `usize`.
#[verifier::rlimit(30)]
pub(crate) fn checked_pow(base: usize, exp: usize) -> (r: Option<usize>)
    ensures
        r matches Some(t) ==> t == pow(base as int, exp as nat),
        r is None ==> pow(base as int, exp as nat) > usize::MAX,
{
    let mut acc: usize = 1;
    let mut i: usize = 0;
    proof {
        lemma_pow0(base as int);
    }
    while i < exp
        invariant
            i <= exp,
            acc == pow(base as int, i as nat),
        decreases exp - i,
    {
        let ghost prev_acc = acc as int;
        let ghost prev_i = i as nat;
        proof {
            lemma_pow1(base as int);
            lemma_pow_adds(base as int, 1, prev_i);
            assert(pow(base as int, (prev_i + 1) as nat) == base * pow(base as int, prev_i));
        }
        if base != 0 && acc > usize::MAX / base {
            proof {
                lemma_fundamental_div_mod(usize::MAX as int, base as int);
                assert(acc * base > usize::MAX) by (nonlinear_arith)
                    requires
                        acc >= usize::MAX / base + 1,
                        base > usize::MAX % base >= 0,
                        usize::MAX == base * (usize::MAX / base) + usize::MAX % base,
                ;
                if base == 1 {
                    lemma_fundamental_div_mod_converse(
                        usize::MAX as int,
                        1,
                        usize::MAX as int,
                        0,
                    );
                }
                assert(base >= 2);
                assert(base * prev_acc == prev_acc * base) by (nonlinear_arith);
                assert(pow(base as int, (prev_i + 1) as nat) > usize::MAX);
                lemma_pow_increases(base as nat, (prev_i + 1) as nat, exp as nat);
            }
            return None;
        }
        proof {
            if base != 0 {
                lemma_fundamental_div_mod(usize::MAX as int, base as int);
                assert(acc * base <= usize::MAX) by (nonlinear_arith)
                    requires
                        acc <= usize::MAX / base,
                        base > usize::MAX % base >= 0,
                        usize::MAX == base * (usize::MAX / base) + usize::MAX % base,
                ;
            }
        }
        acc = acc * base;
        i = i + 1;
        proof {
            assert(acc as int == prev_acc * base);
            assert(prev_acc * base == base * prev_acc) by (nonlinear_arith);
            assert(i as nat == (prev_i + 1) as nat);
            assert(acc == pow(base as int, i as nat));
        }
    }
    Some(acc)
}

/// Enumerates every assignment of operators to `length` slots, in
/// mixed-radix counter order starting at `order`.
#[derive(Debug)]
pub struct Arrangement {
    pub order: usize,
    pub length: usize,
    pub operators: Vec<ExpressionAction>,
}

impl Arrangement {
    /// The alphabet is duplicate-free.
    pub open spec fn wf(&self) -> bool {
        distinct_ops(self.operators@)
    }

    /// How many assignments there are in total.
    pub open spec fn total(&self) -> int {
        pow(self.operators@.len() as int, self.length as nat)
    }

    pub fn new(operators: Vec<ExpressionAction>) -> (r: Arrangement)
        ensures
            r.wf(),
            r.order == 0,
            r.operators@ == spec_dedup(operators@),
            r.length == r.operators@.len(),
    {
        let deduped = dedup_actions(&operators);
        proof {
            lemma_dedup_props(operators@);
        }
        let length = deduped.len();
        Arrangement { order: 0, length, operators: deduped }
    }

    /// Start the counter at `order` instead of zero.
    pub fn with_order(self, order: usize) -> (r: Arrangement)
        ensures
            r.order == order,
            r.length == self.length,
            r.operators == self.operators,
    {
        Arrangement { order, length: self.length, operators: self.operators }
    }

    /// Assign to `slots` positions instead of one per alphabet entry.
    pub fn with_slots(self, slots: usize) -> (r: Arrangement)
        ensures
            r.order == self.order,
            r.length == slots,
            r.operators == self.operators,
    {
        Arrangement { order: self.order, length: slots, operators: self.operators }
    }

    /// The next operator tuple, or `None` once all `m^s` assignments have
    /// been produced. The counter must still be representable after the
    /// step, which only matters when the assignment count exceeds the
    /// machine word.
    pub fn next(&mut self) -> (r: Option<Vec<ExpressionAction>>)
        requires
            old(self).wf(),
            old(self).order < usize::MAX || old(self).order as int >= old(self).total(),
        ensures
            final(self).wf(),
            final(self).operators == old(self).operators,
            final(self).length == old(self).length,
            old(self).order as int >= old(self).total() ==> r is None && final(self).order
                == old(self).order,
            (old(self).order as int) < old(self).total() ==> (r matches Some(t)
                && t@ == spec_assignment(
                    old(self).operators@,
                    old(self).length as nat,
                    old(self).order as nat,
                )
                && final(self).order == old(self).order + 1),
    {
        let m = self.operators.len();
        match checked_pow(m, self.length) {
            Some(total) => {
                if self.order >= total {
                    return None;
                }
            },
            None => {},
        }
        proof {
            if m == 0 {
                if self.length == 0 {
                    lemma_pow0(0);
                } else {
                    vstd::arithmetic::power::lemma0_pow(self.length as nat);
                }
            }
        }
        let ghost start = self.order as nat;
        let mut actions: Vec<ExpressionAction> = Vec::new();
        let mut pointer: usize = self.order;
        let mut i: usize = 0;
        proof {
            lemma_pow0(m as int);
        }
        while i < self.length
            invariant
                i <= self.length,
                actions@.len() == i,
                m == self.operators@.len(),
                self.length > 0 ==> m > 0,
                pointer as int == start as int / pow(m as int, i as nat),
                start < pow(m as int, self.length as nat),
                forall|j: int|
                    0 <= j < i ==> actions@[j] == self.operators@[(start as int / pow(
                        m as int,
                        j as nat,
                    )) % m as int],
            decreases self.length - i,
        {
            proof {
                lemma_pow_positive(m as int, i as nat);
                lemma_mod_pos_bound(pointer as int, m as int);
            }
            actions.push(self.operators[pointer % m]);
            proof {
                lemma_pow1(m as int);
                lemma_pow_adds(m as int, 1, i as nat);
                assert(pow(m as int, (i + 1) as nat) == m * pow(m as int, i as nat));
                lemma_div_denominator(start as int, pow(m as int, i as nat), m as int);
                assert((start as int / pow(m as int, i as nat)) / m as int == start as int / (pow(
                    m as int,
                    i as nat,
                ) * m as int));
                assert(pow(m as int, i as nat) * m as int == m as int * pow(m as int, i as nat))
                    by (nonlinear_arith);
            }
            pointer = pointer / m;
            i = i + 1;
        }
        proof {
            assert(actions@ =~= spec_assignment(self.operators@, self.length as nat, start));
        }
        self.order = self.order + 1;
        Some(actions)
    }
}

} // verus!
