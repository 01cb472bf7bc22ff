//! What it is for a character to be a digit or a letter, and what the
//! standard library's functions on characters and strings are taken to do.

use vstd::prelude::*;

verus! {

/// `c` is one of the ten ASCII decimal digits.
pub open spec fn ascii_digit(c: char) -> bool {
    '0' <= c <= '9'
}

/// `c` is an ASCII letter or an ASCII decimal digit.
pub open spec fn ascii_alphanumeric(c: char) -> bool {
    ('0' <= c <= '9') || ('a' <= c <= 'z') || ('A' <= c <= 'Z')
}

/// The value of the decimal digit `c`.
pub open spec fn decimal_digit(c: char) -> nat {
    (c as nat - '0' as nat) as nat
}

/// The value of `c` as a digit in a radix up to 36: `0`-`9` count from zero,
/// letters of either case from ten.
pub open spec fn digit_value(c: char) -> Option<nat> {
    if '0' <= c <= '9' {
        Some(decimal_digit(c))
    } else if 'a' <= c <= 'z' {
        Some((c as nat - 'a' as nat + 10) as nat)
    } else if 'A' <= c <= 'Z' {
        Some((c as nat - 'A' as nat + 10) as nat)
    } else {
        None
    }
}

/// `char::is_ascii_digit` of the standard library: true exactly for
/// U+0030 `0` through U+0039 `9`, as its documentation states.
pub assume_specification[ char::is_ascii_digit ](c: &char) -> (b: bool)
    ensures
        b == ascii_digit(*c),
;

/// `char::is_ascii_alphanumeric` of the standard library: true exactly for
/// `A`-`Z`, `a`-`z` and `0`-`9`, as its documentation states.
pub assume_specification[ char::is_ascii_alphanumeric ](c: &char) -> (b: bool)
    ensures
        b == ascii_alphanumeric(*c),
;

/// `char::to_digit` of the standard library: the digit that `c` stands for
/// in the given radix, or `None` where `c` is no digit of that radix. The
/// standard library panics on a radix outside 2..=36, which `requires`
/// leaves out.
pub assume_specification[ char::to_digit ](c: char, radix: u32) -> (digit: Option<u32>)
    requires
        2 <= radix <= 36,
    ensures
        match digit {
            Some(d) => digit_value(c) == Some(d as nat) && d < radix,
            None => digit_value(c) matches Some(v) ==> v >= radix,
        },
;

/// `String::push` of the standard library: appends the character to the
/// end of the string, as its documentation states.
pub assume_specification[ String::push ](text: &mut String, ch: char)
    ensures
        final(text)@ == old(text)@.push(ch),
;

} // verus!
