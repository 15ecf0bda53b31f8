//! Decimal digit strings: the specification of a number's decimal form
//! and the verified writers that produce it.
use vstd::prelude::*;

use vstd::string::StringExecFns;

verus! {

pub open spec fn digit_char(d: int) -> char {
    if d == 0 {
        '0'
    } else if d == 1 {
        '1'
    } else if d == 2 {
        '2'
    } else if d == 3 {
        '3'
    } else if d == 4 {
        '4'
    } else if d == 5 {
        '5'
    } else if d == 6 {
        '6'
    } else if d == 7 {
        '7'
    } else if d == 8 {
        '8'
    } else {
        '9'
    }
}

/// The decimal digits of `n`, most significant first.
pub open spec fn spec_decimal(n: int) -> Seq<char>
    decreases n,
{
    if n < 10 {
        seq![digit_char(n)]
    } else {
        spec_decimal(n / 10).push(digit_char(n % 10))
    }
}

/// Append one decimal digit character.
pub(crate) fn append_digit(d: usize, w: &mut String)
    requires
        d < 10,
    ensures
        final(w)@ == old(w)@.push(digit_char(d as int)),
{
    proof {
        reveal_strlit("0");
        reveal_strlit("1");
        reveal_strlit("2");
        reveal_strlit("3");
        reveal_strlit("4");
        reveal_strlit("5");
        reveal_strlit("6");
        reveal_strlit("7");
        reveal_strlit("8");
        reveal_strlit("9");
    }
    if d == 0 {
        w.append("0");
    } else if d == 1 {
        w.append("1");
    } else if d == 2 {
        w.append("2");
    } else if d == 3 {
        w.append("3");
    } else if d == 4 {
        w.append("4");
    } else if d == 5 {
        w.append("5");
    } else if d == 6 {
        w.append("6");
    } else if d == 7 {
        w.append("7");
    } else if d == 8 {
        w.append("8");
    } else {
        w.append("9");
    }
    proof {
        assert(final(w)@ =~= old(w)@.push(digit_char(d as int)));
    }
}

/// Append the decimal digits of `n`.
pub(crate) fn write_decimal(n: usize, w: &mut String)
    ensures
        final(w)@ == old(w)@ + spec_decimal(n as int),
    decreases n,
{
    if n >= 10 {
        write_decimal(n / 10, w);
    }
    let ghost before = w@;
    append_digit(n % 10, w);
    proof {
        if n < 10 {
            assert(w@ =~= old(w)@ + spec_decimal(n as int));
        } else {
            assert(before == old(w)@ + spec_decimal(n as int / 10));
            assert(w@ =~= old(w)@ + spec_decimal(n as int / 10).push(digit_char(n as int % 10)));
        }
    }
}

/// The decimal form of a signed integer: a minus sign for a negative
/// value, then the digits.
pub open spec fn spec_int_decimal(v: int) -> Seq<char> {
    if v < 0 {
        seq!['-'] + spec_decimal(-v)
    } else {
        spec_decimal(v)
    }
}

/// The characters of base-ten digits collected least significant first,
/// printed most significant first.
pub open spec fn rev_chars(ds: Seq<u8>) -> Seq<char>
    decreases ds.len(),
{
    if ds.len() == 0 {
        Seq::empty()
    } else {
        seq![digit_char(ds.last() as int)] + rev_chars(ds.drop_last())
    }
}

pub proof fn lemma_rev_chars_index(ds: Seq<u8>)
    ensures
        rev_chars(ds).len() == ds.len(),
        forall|i: int|
            0 <= i < ds.len() ==> #[trigger] rev_chars(ds)[i] == digit_char(
                ds[ds.len() - 1 - i] as int,
            ),
    decreases ds.len(),
{
    if ds.len() > 0 {
        lemma_rev_chars_index(ds.drop_last());
        assert forall|i: int|
            0 <= i < ds.len() implies #[trigger] rev_chars(ds)[i] == digit_char(
            ds[ds.len() - 1 - i] as int,
        ) by {
            if i > 0 {
                assert(rev_chars(ds)[i] == rev_chars(ds.drop_last())[i - 1]);
                assert(ds.drop_last()[ds.len() - 1 - i] == ds[ds.len() - 1 - i]);
            }
        }
    }
}

} // verus!
