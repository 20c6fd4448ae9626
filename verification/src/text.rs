//! Building message text: literal pieces and integers in decimal or hex.
use vstd::prelude::*;

verus! {

/// Appends one character to a string; it calls std's `String::push`, which
/// adds the character at the end and changes nothing else.
#[verifier::external_body]
pub(crate) fn push_char(s: &mut String, c: char)
    ensures
        final(s)@ == old(s)@.push(c),
{
    s.push(c);
}

/// The lower-case digit character for `d` (0..16).
pub open spec fn digit_char(d: nat) -> char {
    if d < 10 {
        (48 + d) as char
    } else {
        (87 + d) as char
    }
}

/// The digits of `n` in base `base`, most significant first, no leading zeros.
pub open spec fn radix_digits(n: nat, base: nat) -> Seq<char>
    recommends
        2 <= base,
    decreases n,
{
    if base < 2 || n < base {
        seq![digit_char(n)]
    } else {
        proof {
            vstd::arithmetic::div_mod::lemma_div_decreases(n as int, base as int);
        }
        radix_digits(n / base, base).push(digit_char(n % base))
    }
}

/// What `format!("{}", n)` writes for an unsigned integer.
pub open spec fn decimal(n: nat) -> Seq<char> {
    radix_digits(n, 10)
}

/// What `format!("{:#x}", n)` writes for an unsigned integer.
pub open spec fn hex_alt(n: nat) -> Seq<char> {
    seq!['0', 'x'] + radix_digits(n, 16)
}

fn digit(d: u64) -> (c: char)
    requires
        d < 16,
    ensures
        c == digit_char(d as nat),
{
    if d < 10 {
        ((48 + d) as u8) as char
    } else {
        ((87 + d) as u8) as char
    }
}

fn push_radix(s: &mut String, n: u64, base: u64)
    requires
        2 <= base <= 16,
    ensures
        final(s)@ == old(s)@ + radix_digits(n as nat, base as nat),
    decreases n,
{
    if n >= base {
        proof {
            vstd::arithmetic::div_mod::lemma_div_decreases(n as int, base as int);
        }
        push_radix(s, n / base, base);
    }
    push_char(s, digit(n % base));
    proof {
        if n < base {
            vstd::arithmetic::div_mod::lemma_small_mod(n as nat, base as nat);
        }
    }
}

/// Appends the decimal digits of `n`.
pub fn push_decimal(s: &mut String, n: u64)
    ensures
        final(s)@ == old(s)@ + decimal(n as nat),
{
    push_radix(s, n, 10);
}

/// Appends `0x` and the lower-case hex digits of `n`.
pub fn push_hex_alt(s: &mut String, n: u64)
    ensures
        final(s)@ == old(s)@ + hex_alt(n as nat),
{
    push_char(s, '0');
    push_char(s, 'x');
    push_radix(s, n, 16);
    assert(final(s)@ == old(s)@ + hex_alt(n as nat));
}

/// A string holding `text` followed by the decimal digits of `n`.
pub fn text_then_decimal(text: &str, n: u64) -> (r: String)
    ensures
        r@ == text@ + decimal(n as nat),
{
    let mut s = String::from_str(text);
    push_decimal(&mut s, n);
    s
}

} // verus!
