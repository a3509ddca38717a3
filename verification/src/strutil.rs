//! Small verified building blocks for text: appending characters,
//! rendering integers in decimal, and a lemma about filtering sequences.

use vstd::prelude::*;

verus! {

/// Relies on String::push: appends the one character to the end of the
/// string.
#[verifier::external_body]
pub(crate) fn push_char(s: &mut String, c: char)
    ensures
        final(s)@ == old(s)@.push(c),
{
    s.push(c);
}

/// The decimal digit character for a value below ten.
pub open spec fn spec_digit_char(d: nat) -> char {
    ((48 + d) as u8) as char
}

/// The decimal numeral of a natural number, most significant digit first.
pub open spec fn spec_dec(n: nat) -> Seq<char>
    decreases n,
{
    if n < 10 {
        seq![spec_digit_char(n)]
    } else {
        spec_dec(n / 10).push(spec_digit_char(n % 10))
    }
}

/// The decimal numeral of `n`, zero-padded on the left to at least two
/// digits.
pub open spec fn spec_dec2(n: nat) -> Seq<char> {
    if n < 10 {
        "0"@ + spec_dec(n)
    } else {
        spec_dec(n)
    }
}

/// The decimal numeral of an integer, with a leading minus sign when it
/// is negative.
pub open spec fn spec_dec_int(v: int) -> Seq<char> {
    if v < 0 {
        "-"@ + spec_dec((-v) as nat)
    } else {
        spec_dec(v as nat)
    }
}

/// Renders a natural number in decimal.
pub fn dec_u32(n: u32) -> (r: String)
    ensures
        r@ == spec_dec(n as nat),
    decreases n,
{
    if n < 10 {
        let mut s = String::new();
        push_char(&mut s, ((48u8 + (n as u8)) as char));
        proof {
            assert(s@ =~= seq![spec_digit_char(n as nat)]);
        }
        s
    } else {
        let mut s = dec_u32(n / 10);
        push_char(&mut s, ((48u8 + ((n % 10) as u8)) as char));
        s
    }
}

/// Renders a natural number in decimal, zero-padded to at least two
/// digits.
pub fn dec2_u32(n: u32) -> (r: String)
    ensures
        r@ == spec_dec2(n as nat),
{
    if n < 10 {
        let mut s = String::from_str("0");
        let digits = dec_u32(n);
        s.append(digits.as_str());
        s
    } else {
        dec_u32(n)
    }
}

/// Renders an integer in decimal, with a minus sign when negative.
pub fn dec_i32(v: i32) -> (r: String)
    requires
        v > i32::MIN,
    ensures
        r@ == spec_dec_int(v as int),
{
    if v < 0 {
        let mut s = String::from_str("-");
        let digits = dec_u32((-v) as u32);
        s.append(digits.as_str());
        s
    } else {
        dec_u32(v as u32)
    }
}

/// Filtering a sequence extended by one element keeps the filtered
/// prefix and appends the new element exactly when it satisfies the
/// predicate.
pub proof fn lemma_filter_push<A>(s: Seq<A>, pred: spec_fn(A) -> bool, x: A)
    ensures
        s.push(x).filter(pred) == if pred(x) {
            s.filter(pred).push(x)
        } else {
            s.filter(pred)
        },
{
    reveal(Seq::filter);
    assert(s.push(x).drop_last() =~= s);
    assert(s.push(x).last() == x);
}

} // verus!
