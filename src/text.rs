//! Building text: decimal numbers, padding, and turning characters into a `String`.
use vstd::prelude::*;

verus! {

/// The decimal digits of `n`, without leading zeros.
pub open spec fn decimal_chars(n: nat) -> Seq<char>
    decreases n,
{
    if n < 10 {
        seq![(48 + n) as char]
    } else {
        decimal_chars(n / 10).push((48 + n % 10) as char)
    }
}

/// A number printed right-aligned in a field of two characters.
pub open spec fn padded(n: nat) -> Seq<char> {
    if n < 10 { seq![' '] + decimal_chars(n) } else { decimal_chars(n) }
}

/// Appends the decimal digits of `n` to `out`.
pub fn push_decimal(n: usize, out: &mut Vec<char>)
    ensures
        final(out)@ == old(out)@ + decimal_chars(n as nat),
    decreases n,
{
    if n >= 10 {
        push_decimal(n / 10, out);
    }
    let c = ((n % 10) as u8 + 48u8) as char;
    out.push(c);
    assert(out@ =~= old(out)@ + decimal_chars(n as nat));
}

/// Appends `n` right-aligned in a field of two characters.
pub fn push_padded(n: usize, out: &mut Vec<char>)
    ensures
        final(out)@ == old(out)@ + padded(n as nat),
{
    let ghost start = out@;
    if n < 10 {
        out.push(' ');
    }
    push_decimal(n, out);
    assert(out@ =~= start + padded(n as nat));
}

/// Relies on std's `FromIterator<char>` for `String`: the characters, in order.
#[verifier::external_body]
pub fn chars_to_string(cs: &Vec<char>) -> (r: String)
    ensures
        r@ == cs@,
{
    cs.iter().collect()
}


} // verus!
