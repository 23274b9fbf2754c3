//! Decimal text: the ASCII form of the integers that the wire format uses for
//! integer frames, bulk-string lengths and array element counts.

use vstd::prelude::*;

verus! {

/// Decimal digit characters of a natural number, most significant first.
pub open spec fn dec_digits(n: nat) -> Seq<u8>
    decreases n,
{
    if n < 10 {
        seq![(48 + n) as u8]
    } else {
        dec_digits(n / 10) + seq![(48 + n % 10) as u8]
    }
}

/// Canonical decimal text of an integer: a minus sign for negative values, then digits.
pub open spec fn int_rep(i: int) -> Seq<u8> {
    if i < 0 {
        seq![45u8] + dec_digits((-i) as nat)
    } else {
        dec_digits(i as nat)
    }
}

pub open spec fn is_digit(b: u8) -> bool {
    48 <= b <= 57
}

pub open spec fn all_digits(t: Seq<u8>) -> bool {
    forall|i: int| 0 <= i < t.len() ==> is_digit(#[trigger] t[i])
}

/// Text shaped as a decimal number: at least one digit, optionally preceded by a minus sign.
pub open spec fn is_dec(t: Seq<u8>) -> bool {
    if t.len() > 0 && t[0] == 45 {
        t.len() >= 2 && all_digits(t.skip(1))
    } else {
        t.len() >= 1 && all_digits(t)
    }
}

/// Value of a run of decimal digits.
pub open spec fn digits_val(t: Seq<u8>) -> int
    decreases t.len(),
{
    if t.len() == 0 {
        0
    } else {
        digits_val(t.drop_last()) * 10 + (t.last() - 48)
    }
}

/// Value of decimal text with an optional sign.
pub open spec fn dec_value(t: Seq<u8>) -> int {
    if t.len() > 0 && t[0] == 45 {
        -digits_val(t.skip(1))
    } else {
        digits_val(t)
    }
}

pub proof fn lemma_digits_val_snoc(t: Seq<u8>, b: u8)
    ensures
        digits_val(t.push(b)) == digits_val(t) * 10 + (b - 48),
{
    assert(t.push(b).drop_last() =~= t);
    assert(t.push(b).last() == b);
}

/// The digit characters of a natural number are digits, and there is at least one.
pub proof fn lemma_dec_digits_shape(n: nat)
    ensures
        dec_digits(n).len() >= 1,
        all_digits(dec_digits(n)),
    decreases n,
{
    if n >= 10 {
        lemma_dec_digits_shape(n / 10);
        let a = dec_digits(n / 10);
        let d = (48 + n % 10) as u8;
        assert forall|i: int| 0 <= i < (a + seq![d]).len() implies is_digit(#[trigger] (a
            + seq![d])[i]) by {
            if i < a.len() {
                assert((a + seq![d])[i] == a[i]);
            } else {
                assert((a + seq![d])[i] == d);
            }
        }
    }
}

/// Reading the digit characters of a natural number back gives the number.
pub proof fn lemma_digits_val_of_rep(n: nat)
    ensures
        digits_val(dec_digits(n)) == n,
    decreases n,
{
    if n < 10 {
        let t = dec_digits(n);
        assert(t == seq![(48 + n) as u8]);
        assert(t.drop_last() =~= Seq::<u8>::empty());
        assert(digits_val(Seq::<u8>::empty()) == 0);
        assert(digits_val(t) == t.last() - 48);
    } else {
        lemma_digits_val_of_rep(n / 10);
        let a = dec_digits(n / 10);
        let d = (48 + n % 10) as u8;
        assert(a + seq![d] =~= a.push(d));
        lemma_digits_val_snoc(a, d);
        assert(dec_digits(n) == a.push(d));
        assert(d == 48 + n % 10);
        assert(digits_val(dec_digits(n)) == (n / 10) * 10 + n % 10);
        assert((n / 10) * 10 + n % 10 == n) by (nonlinear_arith);
    }
}

/// The decimal text of an integer is decimal text, reads back to the integer,
/// and contains no carriage return or line feed.
pub proof fn lemma_int_rep_ok(i: int)
    ensures
        is_dec(int_rep(i)),
        dec_value(int_rep(i)) == i,
        forall|j: int|
            0 <= j < int_rep(i).len() ==> #[trigger] int_rep(i)[j] != 13 && int_rep(i)[j] != 10,
{
    if i < 0 {
        let a = dec_digits((-i) as nat);
        lemma_dec_digits_shape((-i) as nat);
        lemma_digits_val_of_rep((-i) as nat);
        let t = seq![45u8] + a;
        assert(t[0] == 45);
        assert(t.skip(1) =~= a);
        assert(is_dec(t));
        assert(dec_value(t) == -digits_val(a));
    } else {
        lemma_dec_digits_shape(i as nat);
        lemma_digits_val_of_rep(i as nat);
        let t = dec_digits(i as nat);
        assert(t[0] != 45) by {
            assert(is_digit(t[0]));
        }
    }
}

/// Appends the decimal digits of `n` to `out`.
pub fn push_dec(out: &mut Vec<u8>, n: u64)
    ensures
        final(out)@ == old(out)@ + dec_digits(n as nat),
    decreases n,
{
    if n < 10 {
        out.push((48 + n) as u8);
        assert(out@ =~= old(out)@ + dec_digits(n as nat));
    } else {
        push_dec(out, n / 10);
        out.push((48 + n % 10) as u8);
        assert(out@ =~= old(out)@ + dec_digits(n as nat));
    }
}

/// Appends the decimal text of `v`, sign included.
pub fn push_int(out: &mut Vec<u8>, v: i64)
    ensures
        final(out)@ == old(out)@ + int_rep(v as int),
{
    if v < 0 {
        out.push(45);
        let mag: u64 = (-(v as i128)) as u64;
        assert(mag as int == -(v as int));
        push_dec(out, mag);
        assert(out@ =~= old(out)@ + int_rep(v as int));
    } else {
        push_dec(out, v as u64);
        assert(out@ =~= old(out)@ + int_rep(v as int));
    }
}

/// Appends the decimal text of a length.
pub fn push_len(out: &mut Vec<u8>, n: usize)
    ensures
        final(out)@ == old(out)@ + int_rep(n as int),
{
    push_dec(out, n as u64);
    assert(out@ =~= old(out)@ + int_rep(n as int));
}

} // verus!
