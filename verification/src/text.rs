use vstd::prelude::*;

verus! {

/// Whether `c` is an ASCII letter (`A`-`Z` or `a`-`z`).
pub open spec fn is_ascii_letter(c: char) -> bool {
    ('A' <= c && c <= 'Z') || ('a' <= c && c <= 'z')
}

/// Whether a character below 256 has the Unicode `Alphabetic` property:
/// the ASCII letters, `ª`, `µ`, `º`, and the Latin-1 letters `À`-`ÿ` but
/// for `×` and `÷`.
pub open spec fn latin1_alphabetic(c: char) -> bool {
    let n = c as u32;
    ||| is_ascii_letter(c)
    ||| n == 0xAA || n == 0xB5 || n == 0xBA
    ||| (0xC0 <= n && n <= 0xFF && n != 0xD7 && n != 0xF7)
}

/// What `char::is_alphabetic` returns for `c`: whether `c` has the Unicode
/// `Alphabetic` property.
pub uninterp spec fn unicode_alphabetic(c: char) -> bool;

/// Whether the tokenizer treats `c` as the first character of a bare word:
/// the `Alphabetic` property, spelled out below 256.
pub open spec fn is_letter(c: char) -> bool {
    if (c as u32) < 256 {
        latin1_alphabetic(c)
    } else {
        unicode_alphabetic(c)
    }
}

/// Calls `char::is_alphabetic`. Its documentation defines the result as the
/// Unicode `Alphabetic` property (DerivedCoreProperties), which is named here;
/// of it the contract spells out the characters below 256 (the Latin-1
/// block of the Unicode Character Database), the only ones the tokenizer
/// asks about.
#[verifier::external_body]
pub(crate) fn char_is_alphabetic(c: char) -> (r: bool)
    ensures
        r == unicode_alphabetic(c),
        (c as u32) < 256 ==> (r <==> latin1_alphabetic(c)),
{
    c.is_alphabetic()
}

/// Calls `String::push`, which appends `c` at the end of `s`.
#[verifier::external_body]
pub(crate) fn push_char(s: &mut String, c: char)
    ensures
        final(s)@ == old(s)@.push(c),
{
    s.push(c);
}

/// The characters of a byte string, each byte taken as the character with
/// the same code (as `u8 as char` does).
pub open spec fn byte_chars(b: Seq<u8>) -> Seq<char> {
    b.map_values(|x: u8| x as char)
}

pub(crate) fn byte_to_char(b: u8) -> (c: char)
    ensures
        c == b as char,
        c as u32 == b as u32,
{
    b as char
}

/// Calls `<str as PartialEq>::eq`: two string slices are equal when they
/// hold the same characters.
#[verifier::external_body]
pub(crate) fn str_eq(a: &str, b: &str) -> (r: bool)
    ensures
        r == (a@ == b@),
{
    a == b
}

/// The value of `c` as a digit in base `radix` (2 to 36): `0`-`9`, then
/// `a`-`z` or `A`-`Z` for ten and up; `-1` where it is none.
pub open spec fn digit_value(c: char, radix: nat) -> int {
    let d: int = if '0' <= c && c <= '9' {
        c as int - '0' as int
    } else if 'a' <= c && c <= 'z' {
        c as int - 'a' as int + 10
    } else if 'A' <= c && c <= 'Z' {
        c as int - 'A' as int + 10
    } else {
        -1
    };
    if 0 <= d < radix {
        d
    } else {
        -1
    }
}

/// The number that a string of digits in base `radix` denotes; `None` where
/// some character is no digit.
pub open spec fn digits_value(s: Seq<char>, radix: nat) -> Option<nat>
    decreases s.len(),
{
    if s.len() == 0 {
        Some(0)
    } else {
        match digits_value(s.drop_last(), radix) {
            Some(v) => {
                let d = digit_value(s.last(), radix);
                if d < 0 {
                    None
                } else {
                    Some((v * radix + d) as nat)
                }
            },
            None => None,
        }
    }
}

/// What parsing `s` as an unsigned integer in base `radix` gives: an
/// optional `+`, then at least one digit, the value at most `max`.
pub open spec fn parse_unsigned(s: Seq<char>, radix: nat, max: nat) -> Option<nat> {
    let d = if s.len() > 0 && s[0] == '+' {
        s.drop_first()
    } else {
        s
    };
    if d.len() == 0 {
        None
    } else {
        match digits_value(d, radix) {
            Some(v) => if v <= max {
                Some(v)
            } else {
                None
            },
            None => None,
        }
    }
}

/// Calls `<u32 as FromStr>::from_str` (`str::parse::<u32>`), documented as
/// accepting an optional `+` followed by decimal digits only, and failing
/// on anything else or on overflow.
#[verifier::external_body]
pub(crate) fn parse_u32(s: &str) -> (r: Option<u32>)
    ensures
        match r {
            Some(n) => parse_unsigned(s@, 10, u32::MAX as nat) == Some(n as nat),
            None => parse_unsigned(s@, 10, u32::MAX as nat) is None,
        },
{
    s.parse::<u32>().ok()
}

/// Calls `<usize as FromStr>::from_str` (`str::parse::<usize>`), with the
/// same documented grammar as for `u32`.
#[verifier::external_body]
pub(crate) fn parse_usize(s: &str) -> (r: Option<usize>)
    ensures
        match r {
            Some(n) => parse_unsigned(s@, 10, usize::MAX as nat) == Some(n as nat),
            None => parse_unsigned(s@, 10, usize::MAX as nat) is None,
        },
{
    s.parse::<usize>().ok()
}

/// Calls `usize::from_str_radix(s, 16)`, documented as accepting an
/// optional `+` followed by hexadecimal digits (either case) only, and
/// failing on anything else or on overflow.
#[verifier::external_body]
pub(crate) fn usize_from_hex_digits(s: &str) -> (r: Option<usize>)
    ensures
        match r {
            Some(n) => parse_unsigned(s@, 16, usize::MAX as nat) == Some(n as nat),
            None => parse_unsigned(s@, 16, usize::MAX as nat) is None,
        },
{
    usize::from_str_radix(s, 16).ok()
}

/// `s` with every leading `0x` removed, repeatedly.
pub open spec fn strip_hex_prefix(s: Seq<char>) -> Seq<char>
    decreases s.len(),
{
    if s.len() >= 2 && s[0] == '0' && s[1] == 'x' {
        strip_hex_prefix(s.subrange(2, s.len() as int))
    } else {
        s
    }
}

/// Calls `str::trim_start_matches(s, "0x")`, documented as removing all
/// prefixes that match the pattern, repeatedly.
#[verifier::external_body]
pub(crate) fn trim_hex_prefix(s: &str) -> (r: &str)
    ensures
        r@ == strip_hex_prefix(s@),
{
    s.trim_start_matches("0x")
}

/// The decimal digit for `d` (below ten).
pub open spec fn digit_char(d: nat) -> char {
    ('0' as nat + d) as char
}

/// The decimal representation of `n`, without leading zeros.
pub open spec fn decimal(n: nat) -> Seq<char>
    decreases n,
{
    if n < 10 {
        seq![digit_char(n)]
    } else {
        decimal(n / 10).push(digit_char(n % 10))
    }
}

} // verus!
