//! The decisions of the web pages: whether the server accepted a request,
//! the status texts shown to the user, how many search hits to ask for, and
//! how much of a review body a hit shows.

use vstd::prelude::*;
use vstd::string::*;
use crate::text::{digit_char, preview, push_decimal, spec_decimal};

verus! {

/// Whether the server accepted a new review (`200` or `201`).
pub fn insert_accepted(status: u16) -> (b: bool)
    ensures
        b == (status == 200 || status == 201),
{
    status == 200 || status == 201
}

/// Whether the server answered a search (`200`).
pub fn search_accepted(status: u16) -> (b: bool)
    ensures
        b == (status == 200),
{
    status == 200
}

/// The status shown after a review was accepted.
pub fn inserted_message() -> (s: String)
    ensures
        s@ == "Inserted!"@,
{
    String::from_str("Inserted!")
}

/// The status shown when the server refused a request: its status code and
/// the body of its answer.
pub fn error_message(status: u16, body: &str) -> (s: String)
    ensures
        s@ == "Error "@ + spec_decimal(status as nat) + ": "@ + body@,
{
    let mut s = String::from_str("Error ");
    push_decimal(&mut s, status as u64);
    s.append(": ");
    s.append(body);
    s
}

/// The status shown when a request could not be sent or answered.
pub fn network_error_message(detail: &str) -> (s: String)
    ensures
        s@ == "Network error: "@ + detail@,
{
    let mut s = String::from_str("Network error: ");
    s.append(detail);
    s
}

/// The status shown when a search answer could not be read.
pub fn parse_error_message(detail: &str) -> (s: String)
    ensures
        s@ == "Parse error: "@ + detail@,
{
    let mut s = String::from_str("Parse error: ");
    s.append(detail);
    s
}

/// How many characters of a review body a search hit shows.
pub const PREVIEW_CHARS: usize = 160usize;

/// The part of a review body that a search hit shows.
pub fn body_preview(body: &str) -> (s: String)
    ensures
        s@ == body@.take(if body@.len() < PREVIEW_CHARS { body@.len() as int } else { PREVIEW_CHARS as int }),
{
    preview(body, PREVIEW_CHARS)
}

/// Whether `c` is an ASCII decimal digit.
pub open spec fn is_digit(c: char) -> bool {
    '0' <= c <= '9'
}

/// The value of a string of decimal digits.
pub open spec fn digits_value(digits: Seq<char>) -> nat
    decreases digits.len(),
{
    if digits.len() == 0 {
        0
    } else {
        digits_value(digits.drop_last()) * 10 + ((digits.last() as u32 - '0' as u32) as nat)
    }
}

/// The digits part of a number's text: after a leading `+`, if the text is
/// longer than that sign.
pub open spec fn unsigned_digits(text: Seq<char>) -> Seq<char> {
    if text.len() > 1 && text[0] == '+' {
        text.drop_first()
    } else {
        text
    }
}

/// What parsing `text` as a `u32` gives: an optional `+` followed by one or
/// more decimal digits whose value fits in a `u32`.
pub open spec fn spec_parse_u32(text: Seq<char>) -> Option<u32> {
    let digits = unsigned_digits(text);
    if digits.len() > 0 && (forall|k: int| 0 <= k < digits.len() ==> #[trigger] is_digit(digits[k]))
        && digits_value(digits) <= u32::MAX {
        Some(digits_value(digits) as u32)
    } else {
        None
    }
}

proof fn lemma_digits_value_grows(digits: Seq<char>, j: int, k: int)
    requires
        0 <= j <= k <= digits.len(),
        forall|m: int| 0 <= m < digits.len() ==> #[trigger] is_digit(digits[m]),
    ensures
        digits_value(digits.take(j)) <= digits_value(digits.take(k)),
    decreases k - j,
{
    if j < k {
        lemma_digits_value_grows(digits, j, k - 1);
        assert(digits.take(k).drop_last() =~= digits.take(k - 1));
        assert(is_digit(digits[k - 1]));
    }
}

/// Digits are read positionally: one more digit `c` after digits `s`
/// multiplies the value of `s` by ten and adds the digit's value, for every
/// digit, `0` included.
pub proof fn lemma_digits_value_push(s: Seq<char>, c: char)
    requires
        is_digit(c),
    ensures
        digits_value(s.push(c)) == 10 * digits_value(s) + (c as u32 - '0' as u32),
        digits_value(seq![c]) == c as u32 - '0' as u32,
{
    assert(s.push(c).drop_last() =~= s);
    assert(seq![c].drop_last() =~= Seq::<char>::empty());
    assert(digits_value(Seq::<char>::empty()) == 0);
}

proof fn lemma_decimal_digits(n: nat)
    ensures
        spec_decimal(n).len() > 0,
        forall|k: int| 0 <= k < spec_decimal(n).len() ==> #[trigger] is_digit(spec_decimal(n)[k]),
        digits_value(spec_decimal(n)) == n,
    decreases n,
{
    let d = spec_decimal(n);
    if n < 10 {
        assert(d == seq![digit_char(n)]);
        assert(digit_char(n) as u32 == 48 + n);
        assert(is_digit(d[0]));
        lemma_digits_value_push(Seq::<char>::empty(), digit_char(n));
        assert(seq![digit_char(n)] =~= Seq::<char>::empty().push(digit_char(n)));
    } else {
        lemma_decimal_digits(n / 10);
        let c = digit_char(n % 10);
        assert(c as u32 == 48 + n % 10);
        assert(d == spec_decimal(n / 10).push(c));
        assert forall|k: int| 0 <= k < d.len() implies #[trigger] is_digit(d[k]) by {
            if k < d.len() - 1 {
                assert(d[k] == spec_decimal(n / 10)[k]);
            }
        }
        lemma_digits_value_push(spec_decimal(n / 10), c);
    }
}

/// Reading back the decimal rendering of a number gives the number: every
/// `u32` written out in decimal parses to itself.
pub proof fn lemma_parse_decimal(n: u32)
    ensures
        spec_parse_u32(spec_decimal(n as nat)) == Some(n),
{
    lemma_decimal_digits(n as nat);
    let d = spec_decimal(n as nat);
    assert(is_digit(d[0]));
    assert(unsigned_digits(d) == d);
}

/// Parses `text` as a `u32`, as `str::parse::<u32>` does.
pub fn parse_u32(text: &str) -> (r: Option<u32>)
    ensures
        r == spec_parse_u32(text@),
        forall|n: u32| text@ == #[trigger] spec_decimal(n as nat) ==> r == Some(n),
{
    let r = scan_u32(text);
    proof {
        assert forall|n: u32| text@ == #[trigger] spec_decimal(n as nat) implies r == Some(n) by {
            lemma_parse_decimal(n);
        }
    }
    r
}

fn scan_u32(text: &str) -> (r: Option<u32>)
    ensures
        r == spec_parse_u32(text@),
{
    let n = text.unicode_len();
    let start: usize = if n > 1 && text.get_char(0) == '+' { 1 } else { 0 };
    let ghost digits = unsigned_digits(text@);
    assert(digits =~= text@.subrange(start as int, n as int));
    if start == n {
        return None;
    }
    let mut value: u32 = 0;
    let mut i = start;
    while i < n
        invariant
            n == text@.len(),
            start < n,
            start <= i <= n,
            digits == text@.subrange(start as int, n as int),
            digits == unsigned_digits(text@),
            forall|k: int| 0 <= k < i - start ==> #[trigger] is_digit(digits[k]),
            value == digits_value(digits.take(i - start)),
        decreases n - i,
    {
        let c = text.get_char(i);
        assert(digits[i - start] == c);
        if !('0' <= c && c <= '9') {
            assert(!is_digit(digits[i - start]));
            return None;
        }
        let d = (c as u32) - ('0' as u32);
        proof {
            assert(digits.take(i + 1 - start).drop_last() =~= digits.take(i - start));
            assert(digits.take(i + 1 - start).last() == c);
            assert(digits_value(digits.take(i + 1 - start)) == value * 10 + d);
        }
        match value.checked_mul(10) {
            Some(v10) => match v10.checked_add(d) {
                Some(next) => {
                    value = next;
                },
                None => {
                    proof {
                        lemma_overflow_means_too_large(digits, (i + 1 - start) as int);
                    }
                    return None;
                },
            },
            None => {
                proof {
                    lemma_overflow_means_too_large(digits, (i + 1 - start) as int);
                }
                return None;
            },
        }
        i = i + 1;
    }
    assert(digits.take(n - start) =~= digits);
    Some(value)
}

proof fn lemma_overflow_means_too_large(digits: Seq<char>, j: int)
    requires
        0 < j <= digits.len(),
        digits_value(digits.take(j)) > u32::MAX,
    ensures
        spec_parse_u32_digits_fail(digits),
{
    if forall|m: int| 0 <= m < digits.len() ==> #[trigger] is_digit(digits[m]) {
        lemma_digits_value_grows(digits, j, digits.len() as int);
        assert(digits.take(digits.len() as int) =~= digits);
    }
}

/// The digits do not make a `u32`: some is no digit or their value is too
/// large.
pub open spec fn spec_parse_u32_digits_fail(digits: Seq<char>) -> bool {
    !((forall|k: int| 0 <= k < digits.len() ==> #[trigger] is_digit(digits[k])) && digits_value(
        digits,
    ) <= u32::MAX)
}

/// How many hits to ask for when the Top K input is not a number.
pub const DEFAULT_TOP_K_INPUT: u32 = 5u32;

/// The Top K chosen in the search page: the input's number, or five when it
/// does not parse.
pub fn top_k_from_input(text: &str) -> (k: u32)
    ensures
        spec_parse_u32(text@) matches Some(v) ==> k == v,
        spec_parse_u32(text@) is None ==> k == DEFAULT_TOP_K_INPUT,
{
    match parse_u32(text) {
        Some(v) => v,
        None => DEFAULT_TOP_K_INPUT,
    }
}

} // verus!
