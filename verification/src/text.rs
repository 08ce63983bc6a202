//! Building text: characters, decimal numbers and the letters that label options.

use vstd::prelude::*;

verus! {

/// Calls `String::push`. Trusted: as std documents, the character is appended.
#[verifier::external_body]
pub(crate) fn push_char(s: &mut String, c: char)
    ensures
        final(s)@ == old(s)@.push(c),
{
    s.push(c);
}

/// The letter that labels option `i` of a question: `'A'` for the first option,
/// then on through the byte values, as `(b'A' + i as u8) as char`.
pub open spec fn option_letter(i: int) -> char {
    ((65 + i % 256) as u8) as char
}

/// Whether the letter of option `i` can be formed without overflowing a byte.
pub open spec fn letter_fits(i: int) -> bool {
    65 + i % 256 <= 255
}

/// The letter that labels option `i`.
pub fn letter_for(i: usize) -> (c: char)
    requires
        letter_fits(i as int),
    ensures
        c == option_letter(i as int),
{
    let b: u8 = 65u8 + (i % 256) as u8;
    b as char
}


/// The character of decimal digit `d`.
pub open spec fn digit_char(d: int) -> char {
    ((48 + d) as u8) as char
}

/// The decimal representation of `n`, without sign or leading zeros.
pub open spec fn decimal(n: nat) -> Seq<char>
    decreases n,
{
    if n < 10 {
        seq![digit_char(n as int)]
    } else {
        decimal(n / 10).push(digit_char((n % 10) as int))
    }
}

/// Appends the decimal representation of `n`.
pub fn push_decimal(s: &mut String, n: u64)
    ensures
        final(s)@ == old(s)@ + decimal(n as nat),
    decreases n,
{
    if n >= 10 {
        push_decimal(s, n / 10);
    }
    let d: u8 = 48u8 + (n % 10) as u8;
    push_char(s, d as char);
    proof {
        if n < 10 {
            assert(old(s)@ + decimal(n as nat) =~= old(s)@.push(d as char));
        } else {
            assert(old(s)@ + decimal((n / 10) as nat) + seq![d as char] =~= old(s)@ + decimal(n as nat));
        }
    }
}

/// Appends a piece of text.
pub fn push_text(s: &mut String, t: &str)
    ensures
        final(s)@ == old(s)@ + t@,
{
    s.append(t);
}

} // verus!
