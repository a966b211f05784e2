//! Conversions between text and character sequences.

use vstd::prelude::*;

verus! {

/// The characters of `s`, in order.
pub fn str_chars(s: &str) -> (r: Vec<char>)
    ensures
        r@ == s@,
{
    broadcast use vstd::string::group_string_axioms;
    let mut out: Vec<char> = Vec::new();
    for c in it: s.chars()
        invariant
            it.seq() == s@,
            out@ == s@.take(it.index() as int),
    {
        out.push(c);
    }
    out
}

/// `String::from_iter` over characters: the text made of the characters
/// of `v`, in order.
#[verifier::external_body]
pub(crate) fn chars_to_string(v: &[char]) -> (r: String)
    ensures
        r@ == v@,
{
    String::from_iter(v.iter())
}

/// Unicode scalar values: code points other than the surrogates.
pub open spec fn is_scalar_value(u: u32) -> bool {
    u <= 0xD7FF || (0xE000 <= u && u <= 0x10FFFF)
}

/// `char::from_u32`: the character with code point `u`, if `u` is a
/// Unicode scalar value.
#[verifier::external_body]
pub(crate) fn char_from_u32(u: u32) -> (r: Option<char>)
    ensures
        r is Some <==> is_scalar_value(u),
        r matches Some(c) ==> c as u32 == u,
{
    char::from_u32(u)
}

/// The characters `s[i..j]`.
pub fn sub_chars(s: &[char], i: usize, j: usize) -> (r: Vec<char>)
    requires
        i <= j <= s@.len(),
    ensures
        r@ == s@.subrange(i as int, j as int),
{
    let mut out: Vec<char> = Vec::new();
    let mut k: usize = i;
    while k < j
        invariant
            i <= k <= j <= s@.len(),
            out@ == s@.subrange(i as int, k as int),
        decreases j - k,
    {
        out.push(s[k]);
        proof { assert(out@ =~= s@.subrange(i as int, k as int + 1)); }
        k += 1;
    }
    out
}

/// The decimal digits of `n`.
pub open spec fn decimal(n: nat) -> Seq<char>
    decreases n,
{
    if n < 10 {
        seq![(n + 48) as char]
    } else {
        decimal(n / 10).push(((n % 10) + 48) as char)
    }
}

/// Append the decimal digits of `n` to `out`.
pub fn push_decimal(out: &mut Vec<char>, n: u64)
    ensures
        final(out)@ == old(out)@ + decimal(n as nat),
    decreases n,
{
    if n < 10 {
        out.push(char_digit(n));
    } else {
        push_decimal(out, n / 10);
        out.push(char_digit(n % 10));
        proof {
            assert(decimal(n as nat) == decimal((n / 10) as nat).push(((n % 10) + 48) as char));
        }
    }
}

/// The digit character for `d`.
fn char_digit(d: u64) -> (c: char)
    requires
        d < 10,
    ensures
        c == (d + 48) as char,
{
    if d == 0 { '0' } else if d == 1 { '1' } else if d == 2 { '2' } else if d == 3 { '3' }
    else if d == 4 { '4' } else if d == 5 { '5' } else if d == 6 { '6' } else if d == 7 { '7' }
    else if d == 8 { '8' } else { '9' }
}

/// The text of an integer as Rust writes it: a minus sign before the
/// digits of a negative one.
pub open spec fn int_display(i: i64) -> Seq<char> {
    if i < 0 { seq!['-'] + decimal((-(i as int)) as nat) } else { decimal(i as nat) }
}

/// Append the text of `i` (see `int_display`) to `out`.
pub fn push_int_display(out: &mut Vec<char>, i: i64)
    ensures
        final(out)@ == old(out)@ + int_display(i),
{
    if i < 0 {
        out.push('-');
        let m: u64 = (-(i as i128)) as u64;
        push_decimal(out, m);
        assert(out@ =~= old(out)@ + int_display(i));
    } else {
        push_decimal(out, i as u64);
    }
}

} // verus!
