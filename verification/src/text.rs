//! Text helpers: Unicode white space, decimal rendering and previews.

use vstd::prelude::*;
use vstd::string::*;
use vstd::utf8::*;

verus! {

/// The Unicode `White_Space` property, as `char::is_whitespace` documents it.
pub open spec fn is_white_space(c: char) -> bool {
    let u = c as u32;
    ||| 0x09 <= u <= 0x0d
    ||| u == 0x20
    ||| u == 0x85
    ||| u == 0xa0
    ||| u == 0x1680
    ||| 0x2000 <= u <= 0x200a
    ||| u == 0x2028
    ||| u == 0x2029
    ||| u == 0x202f
    ||| u == 0x205f
    ||| u == 0x3000
}

/// A text is blank when it holds nothing but white space, that is, when
/// trimming it leaves the empty string.
pub open spec fn spec_is_blank(s: Seq<char>) -> bool {
    forall|i: int| 0 <= i < s.len() ==> #[trigger] is_white_space(s[i])
}

/// Whether `c` is Unicode white space.
pub fn white_space(c: char) -> (b: bool)
    ensures
        b == is_white_space(c),
{
    let u = c as u32;
    (0x09 <= u && u <= 0x0d) || u == 0x20 || u == 0x85 || u == 0xa0 || u == 0x1680 || (0x2000
        <= u && u <= 0x200a) || u == 0x2028 || u == 0x2029 || u == 0x202f || u == 0x205f || u
        == 0x3000
}

/// Whether `s.trim()` is empty.
pub fn is_blank(s: &str) -> (b: bool)
    ensures
        b == spec_is_blank(s@),
{
    let n = s.unicode_len();
    let mut i: usize = 0;
    while i < n
        invariant
            n == s@.len(),
            i <= n,
            forall|k: int| 0 <= k < i ==> #[trigger] is_white_space(s@[k]),
        decreases n - i,
    {
        let c = s.get_char(i);
        if !white_space(c) {
            return false;
        }
        i = i + 1;
    }
    true
}

/// The character of the decimal digit `d`.
pub open spec fn digit_char(d: nat) -> char {
    (48 + d) as char
}

/// The decimal rendering of `n`, as `Display` writes it.
pub open spec fn spec_decimal(n: nat) -> Seq<char>
    decreases n,
{
    if n < 10 {
        seq![digit_char(n)]
    } else {
        spec_decimal(n / 10).push(digit_char(n % 10))
    }
}

/// The decimal rendering of a signed integer, with a leading `-` when negative.
pub open spec fn spec_signed_decimal(n: int) -> Seq<char> {
    if n < 0 {
        seq!['-'] + spec_decimal((-n) as nat)
    } else {
        spec_decimal(n as nat)
    }
}

/// Appends the decimal digits of `n` to `out`.
pub fn push_decimal(out: &mut String, n: u64)
    ensures
        final(out)@ == old(out)@ + spec_decimal(n as nat),
    decreases n,
{
    if n >= 10 {
        push_decimal(out, n / 10);
    }
    let d = (n % 10) as usize;
    let digits = "0123456789";
    proof {
        reveal_strlit("0123456789");
    }
    let one = digits.substring_char(d, d + 1);
    assert(one@ =~= seq![digit_char(d as nat)]);
    out.append(one);
    assert(n >= 10 ==> spec_decimal(n as nat) == spec_decimal((n / 10) as nat).push(digit_char((n % 10) as nat)));
}

/// The decimal rendering of `n`.
pub fn decimal(n: u64) -> (s: String)
    ensures
        s@ == spec_decimal(n as nat),
{
    let mut s = String::new();
    push_decimal(&mut s, n);
    assert(s@ =~= spec_decimal(n as nat));
    s
}

/// The decimal rendering of a signed 32-bit integer.
pub fn signed_decimal(n: i32) -> (s: String)
    ensures
        s@ == spec_signed_decimal(n as int),
{
    if n < 0 {
        let mut s = String::from_str("-");
        proof {
            reveal_strlit("-");
        }
        let magnitude: u64 = (0 - (n as i64)) as u64;
        push_decimal(&mut s, magnitude);
        s
    } else {
        decimal(n as u64)
    }
}

/// The first `limit` characters of `s`, or all of it when it is shorter.
pub fn preview(s: &str, limit: usize) -> (r: String)
    ensures
        r@ == s@.take(if s@.len() < limit { s@.len() as int } else { limit as int }),
{
    let n = s.unicode_len();
    let end = if n < limit { n } else { limit };
    s.substring_char(0, end).to_owned()
}

/// Whether `bytes` is well-formed UTF-8, as `std::str::from_utf8` accepts it.
pub fn is_valid_utf8(bytes: &[u8]) -> (b: bool)
    ensures
        b == valid_utf8(bytes@),
{
    let n = bytes.len();
    let mut i: usize = 0;
    assert(bytes@.subrange(0, n as int) =~= bytes@);
    while i < n
        invariant
            n == bytes@.len(),
            i <= n,
            valid_utf8(bytes@) == valid_utf8(bytes@.subrange(i as int, n as int)),
        decreases n - i,
    {
        let ghost rest = bytes@.subrange(i as int, n as int);
        let b0 = bytes[i];
        let width: usize;
        if b0 <= 0x7f {
            width = 1;
        } else if 0xc0 <= b0 && b0 <= 0xdf {
            if n - i < 2 {
                return false;
            }
            let b1 = bytes[i + 1];
            if !(0x80 <= b1 && b1 <= 0xbf) {
                return false;
            }
            let cp: u32 = (((b0 & 0x1f) as u32) << 6) | ((b1 & 0x3f) as u32);
            assert(cp == decode_first_codepoint(rest));
            if !(0x80 <= cp) || (0xd800 <= cp && cp <= 0xdfff) {
                return false;
            }
            width = 2;
        } else if 0xe0 <= b0 && b0 <= 0xef {
            if n - i < 3 {
                return false;
            }
            let b1 = bytes[i + 1];
            let b2 = bytes[i + 2];
            if !(0x80 <= b1 && b1 <= 0xbf && 0x80 <= b2 && b2 <= 0xbf) {
                return false;
            }
            let cp: u32 = (((b0 & 0x0f) as u32) << 12) | (((b1 & 0x3f) as u32) << 6) | ((b2
                & 0x3f) as u32);
            assert(cp == decode_first_codepoint(rest));
            if !(0x800 <= cp) || (0xd800 <= cp && cp <= 0xdfff) {
                return false;
            }
            width = 3;
        } else if 0xf0 <= b0 && b0 <= 0xf7 {
            if n - i < 4 {
                return false;
            }
            let b1 = bytes[i + 1];
            let b2 = bytes[i + 2];
            let b3 = bytes[i + 3];
            if !(0x80 <= b1 && b1 <= 0xbf && 0x80 <= b2 && b2 <= 0xbf && 0x80 <= b3 && b3 <= 0xbf) {
                return false;
            }
            let cp: u32 = (((b0 & 0x07) as u32) << 18) | (((b1 & 0x3f) as u32) << 12) | (((b2
                & 0x3f) as u32) << 6) | ((b3 & 0x3f) as u32);
            assert(cp == decode_first_codepoint(rest));
            if !(0x10000 <= cp && cp <= 0x10ffff) || (0xd800 <= cp && cp <= 0xdfff) {
                return false;
            }
            width = 4;
        } else {
            return false;
        }
        assert(valid_first_scalar(rest));
        assert(length_of_first_scalar(rest) == width);
        assert(pop_first_scalar(rest) =~= bytes@.subrange((i + width) as int, n as int));
        i = i + width;
    }
    assert(bytes@.subrange(n as int, n as int).len() == 0);
    true
}

} // verus!
