//! Byte-level text helpers shared by the parsers: ASCII digit classes,
//! Unicode whitespace trimming over UTF-8 bytes, integer parsing, and
//! building owned strings from validated byte ranges.
//!
//! Every `&str` handled by the parsers is valid UTF-8; its bytes are
//! `s.spec_bytes()`. Trimming follows `str::trim`, which strips the
//! characters that have the Unicode `White_Space` property; their UTF-8
//! encodings are listed in [`ws_prefix_len`].

use vstd::prelude::*;
use vstd::utf8::*;
use vstd::string::StrSliceExecFns;

verus! {

broadcast use vstd::seq::group_seq_axioms;

/// An ASCII decimal digit.
pub open spec fn is_digit(b: u8) -> bool {
    0x30 <= b <= 0x39
}

/// Numeric value of an ASCII digit.
pub open spec fn digit_value(b: u8) -> nat {
    (b - 0x30) as nat
}

/// Every byte is an ASCII digit.
pub open spec fn all_digits(s: Seq<u8>) -> bool {
    forall|i: int| 0 <= i < s.len() ==> #[trigger] is_digit(s[i])
}

/// The value of a run of ASCII digits read as a decimal numeral.
pub open spec fn digits_value(s: Seq<u8>) -> nat
    decreases s.len(),
{
    if s.len() == 0 {
        0
    } else {
        digits_value(s.drop_last()) * 10 + digit_value(s.last())
    }
}

/// Ten to the power `n`.
pub open spec fn pow10(n: nat) -> nat
    decreases n,
{
    if n == 0 {
        1
    } else {
        10 * pow10((n - 1) as nat)
    }
}

/// ASCII whitespace that `char::is_whitespace` accepts: tab, line feed,
/// vertical tab, form feed, carriage return and space.
pub open spec fn is_ascii_ws(b: u8) -> bool {
    b == 0x20 || (0x09 <= b <= 0x0d)
}

/// Three-byte UTF-8 encodings of the `White_Space` characters U+1680,
/// U+2000..U+200A, U+2028, U+2029, U+202F, U+205F and U+3000.
pub open spec fn is_ws3(a: u8, b: u8, c: u8) -> bool {
    ||| (a == 0xe1 && b == 0x9a && c == 0x80)
    ||| (a == 0xe2 && b == 0x80 && ((0x80 <= c <= 0x8a) || c == 0xa8 || c == 0xa9 || c == 0xaf))
    ||| (a == 0xe2 && b == 0x81 && c == 0x9f)
    ||| (a == 0xe3 && b == 0x80 && c == 0x80)
}

/// Two-byte UTF-8 encodings of the `White_Space` characters U+0085 and U+00A0.
pub open spec fn is_ws2(a: u8, b: u8) -> bool {
    a == 0xc2 && (b == 0x85 || b == 0xa0)
}

/// Byte length of the whitespace character that begins `s`, or zero when
/// `s` does not begin with one.
pub open spec fn ws_prefix_len(s: Seq<u8>) -> int {
    if s.len() >= 1 && is_ascii_ws(s[0]) {
        1
    } else if s.len() >= 2 && is_ws2(s[0], s[1]) {
        2
    } else if s.len() >= 3 && is_ws3(s[0], s[1], s[2]) {
        3
    } else {
        0
    }
}

/// Byte length of the whitespace character that ends `s`, or zero.
pub open spec fn ws_suffix_len(s: Seq<u8>) -> int {
    let n = s.len() as int;
    if n >= 1 && is_ascii_ws(s[n - 1]) {
        1
    } else if n >= 2 && is_ws2(s[n - 2], s[n - 1]) {
        2
    } else if n >= 3 && is_ws3(s[n - 3], s[n - 2], s[n - 1]) {
        3
    } else {
        0
    }
}

/// `str::trim_start` on UTF-8 bytes.
pub open spec fn trim_start(s: Seq<u8>) -> Seq<u8>
    decreases s.len(),
{
    let k = ws_prefix_len(s);
    if k > 0 {
        trim_start(s.subrange(k, s.len() as int))
    } else {
        s
    }
}

/// `str::trim_end` on UTF-8 bytes.
pub open spec fn trim_end(s: Seq<u8>) -> Seq<u8>
    decreases s.len(),
{
    let k = ws_suffix_len(s);
    if k > 0 {
        trim_end(s.subrange(0, s.len() - k))
    } else {
        s
    }
}

/// `str::trim` on UTF-8 bytes.
pub open spec fn trim(s: Seq<u8>) -> Seq<u8> {
    trim_end(trim_start(s))
}

/// Byte `i` may start a slice: it is the end of the sequence or not a
/// UTF-8 continuation byte. For valid UTF-8 this is `str::is_char_boundary`.
pub open spec fn cut_ok(s: Seq<u8>, i: int) -> bool {
    i == s.len() || (0 <= i < s.len() && !is_continuation_byte(s[i]))
}

pub fn byte_is_digit(b: u8) -> (r: bool)
    ensures
        r == is_digit(b),
{
    b >= 0x30 && b <= 0x39
}

fn byte_is_ascii_ws(b: u8) -> (r: bool)
    ensures
        r == is_ascii_ws(b),
{
    b == 0x20 || (b >= 0x09 && b <= 0x0d)
}

fn bytes_are_ws3(a: u8, b: u8, c: u8) -> (r: bool)
    ensures
        r == is_ws3(a, b, c),
{
    (a == 0xe1 && b == 0x9a && c == 0x80) || (a == 0xe2 && b == 0x80 && ((c >= 0x80 && c <= 0x8a)
        || c == 0xa8 || c == 0xa9 || c == 0xaf)) || (a == 0xe2 && b == 0x81 && c == 0x9f) || (a
        == 0xe3 && b == 0x80 && c == 0x80)
}

/// Whitespace length at the start of `b[lo..hi]`.
fn ws_prefix_at(b: &[u8], lo: usize, hi: usize) -> (k: usize)
    requires
        lo <= hi <= b@.len(),
    ensures
        k as int == ws_prefix_len(b@.subrange(lo as int, hi as int)),
{
    let ghost s = b@.subrange(lo as int, hi as int);
    if hi - lo >= 1 && byte_is_ascii_ws(b[lo]) {
        1
    } else if hi - lo >= 2 && b[lo] == 0xc2 && (b[lo + 1] == 0x85 || b[lo + 1] == 0xa0) {
        2
    } else if hi - lo >= 3 && bytes_are_ws3(b[lo], b[lo + 1], b[lo + 2]) {
        3
    } else {
        0
    }
}

/// Whitespace length at the end of `b[lo..hi]`.
fn ws_suffix_at(b: &[u8], lo: usize, hi: usize) -> (k: usize)
    requires
        lo <= hi <= b@.len(),
    ensures
        k as int == ws_suffix_len(b@.subrange(lo as int, hi as int)),
{
    let ghost s = b@.subrange(lo as int, hi as int);
    if hi - lo >= 1 && byte_is_ascii_ws(b[hi - 1]) {
        1
    } else if hi - lo >= 2 && b[hi - 2] == 0xc2 && (b[hi - 1] == 0x85 || b[hi - 1] == 0xa0) {
        2
    } else if hi - lo >= 3 && bytes_are_ws3(b[hi - 3], b[hi - 2], b[hi - 1]) {
        3
    } else {
        0
    }
}

/// Start of `trim_start(b[lo..hi])` inside `b`.
pub fn trim_start_at(b: &[u8], lo: usize, hi: usize) -> (i: usize)
    requires
        lo <= hi <= b@.len(),
    ensures
        lo <= i <= hi,
        b@.subrange(i as int, hi as int) == trim_start(b@.subrange(lo as int, hi as int)),
{
    let mut i = lo;
    while i < hi
        invariant
            lo <= i <= hi <= b@.len(),
            trim_start(b@.subrange(i as int, hi as int)) == trim_start(
                b@.subrange(lo as int, hi as int),
            ),
        ensures
            lo <= i <= hi,
            trim_start(b@.subrange(i as int, hi as int)) == trim_start(
                b@.subrange(lo as int, hi as int),
            ),
            ws_prefix_len(b@.subrange(i as int, hi as int)) == 0,
        decreases hi - i,
    {
        let k = ws_prefix_at(b, i, hi);
        if k == 0 {
            break ;
        }
        proof {
            let s = b@.subrange(i as int, hi as int);
            assert(s.subrange(k as int, s.len() as int) =~= b@.subrange(i + k, hi as int));
        }
        i = i + k;
    }
    i
}

/// End of `trim_end(b[lo..hi])` inside `b`.
pub fn trim_end_at(b: &[u8], lo: usize, hi: usize) -> (j: usize)
    requires
        lo <= hi <= b@.len(),
    ensures
        lo <= j <= hi,
        b@.subrange(lo as int, j as int) == trim_end(b@.subrange(lo as int, hi as int)),
{
    let mut j = hi;
    while j > lo
        invariant
            lo <= j <= hi <= b@.len(),
            trim_end(b@.subrange(lo as int, j as int)) == trim_end(
                b@.subrange(lo as int, hi as int),
            ),
        ensures
            lo <= j <= hi,
            trim_end(b@.subrange(lo as int, j as int)) == trim_end(
                b@.subrange(lo as int, hi as int),
            ),
            ws_suffix_len(b@.subrange(lo as int, j as int)) == 0,
        decreases j - lo,
    {
        let k = ws_suffix_at(b, lo, j);
        if k == 0 {
            break ;
        }
        proof {
            let s = b@.subrange(lo as int, j as int);
            assert(s.subrange(0, s.len() - k) =~= b@.subrange(lo as int, j - k));
        }
        j = j - k;
    }
    j
}

/// Bounds of `trim(b[lo..hi])` inside `b`.
pub fn trim_at(b: &[u8], lo: usize, hi: usize) -> (r: (usize, usize))
    requires
        lo <= hi <= b@.len(),
    ensures
        lo <= r.0 <= r.1 <= hi,
        b@.subrange(r.0 as int, r.1 as int) == trim(b@.subrange(lo as int, hi as int)),
{
    let i = trim_start_at(b, lo, hi);
    let j = trim_end_at(b, i, hi);
    (i, j)
}

// ---------------------------------------------------------------------------
// UTF-8 validity of sub-ranges
// ---------------------------------------------------------------------------

/// A sub-range of valid UTF-8 whose ends are character boundaries is valid UTF-8.
pub proof fn lemma_valid_utf8_range(s: Seq<u8>, lo: int, hi: int)
    requires
        valid_utf8(s),
        0 <= lo <= hi <= s.len(),
        cut_ok(s, lo),
        cut_ok(s, hi),
    ensures
        valid_utf8(s.subrange(lo, hi)),
{
    if lo < s.len() {
        is_char_boundary_iff_not_is_continuation_byte(s, lo);
    } else {
        is_char_boundary_start_end_of_seq(s);
    }
    valid_utf8_split(s, lo);
    let t = s.subrange(lo, s.len() as int);
    if hi < s.len() {
        assert(t[hi - lo] == s[hi]);
        is_char_boundary_iff_not_is_continuation_byte(t, hi - lo);
    } else {
        is_char_boundary_start_end_of_seq(t);
    }
    valid_utf8_split(t, hi - lo);
    assert(t.subrange(0, hi - lo) =~= s.subrange(lo, hi));
}

/// Dropping a leading ASCII byte or whitespace character keeps UTF-8 valid.
pub proof fn lemma_valid_utf8_drop_first(s: Seq<u8>, k: int)
    requires
        valid_utf8(s),
        s.len() > 0,
        (k == 1 && s[0] < 0x80) || (k > 0 && k == ws_prefix_len(s)),
    ensures
        valid_utf8(s.subrange(k, s.len() as int)),
{
    assert(length_of_first_scalar(s) == k);
}

/// Dropping a trailing whitespace character keeps UTF-8 valid.
pub proof fn lemma_valid_utf8_drop_last_ws(s: Seq<u8>, k: int)
    requires
        valid_utf8(s),
        k > 0,
        k == ws_suffix_len(s),
    ensures
        valid_utf8(s.subrange(0, s.len() - k)),
{
    let i = s.len() - k;
    is_char_boundary_iff_not_is_continuation_byte(s, i);
    valid_utf8_split(s, i);
}

/// Trimming valid UTF-8 keeps it valid.
pub proof fn lemma_trim_start_valid(s: Seq<u8>)
    requires
        valid_utf8(s),
    ensures
        valid_utf8(trim_start(s)),
    decreases s.len(),
{
    let k = ws_prefix_len(s);
    if k > 0 {
        lemma_valid_utf8_drop_first(s, k);
        lemma_trim_start_valid(s.subrange(k, s.len() as int));
    }
}

/// Trimming valid UTF-8 keeps it valid.
pub proof fn lemma_trim_end_valid(s: Seq<u8>)
    requires
        valid_utf8(s),
    ensures
        valid_utf8(trim_end(s)),
    decreases s.len(),
{
    let k = ws_suffix_len(s);
    if k > 0 {
        lemma_valid_utf8_drop_last_ws(s, k);
        lemma_trim_end_valid(s.subrange(0, s.len() - k));
    }
}

/// Trimming valid UTF-8 keeps it valid.
pub proof fn lemma_trim_valid(s: Seq<u8>)
    requires
        valid_utf8(s),
    ensures
        valid_utf8(trim(s)),
{
    lemma_trim_start_valid(s);
    lemma_trim_end_valid(trim_start(s));
}

/// A sequence of ASCII bytes is valid UTF-8.
pub proof fn lemma_ascii_valid_utf8(s: Seq<u8>)
    requires
        forall|i: int| 0 <= i < s.len() ==> #[trigger] s[i] < 0x80,
    ensures
        valid_utf8(s),
    decreases s.len(),
{
    if s.len() > 0 {
        let t = s.subrange(1, s.len() as int);
        assert forall|i: int| 0 <= i < t.len() implies #[trigger] t[i] < 0x80 by {
            assert(t[i] == s[i + 1]);
        }
        lemma_ascii_valid_utf8(t);
        assert(pop_first_scalar(s) =~= t);
    }
}

// ---------------------------------------------------------------------------
// Owned strings from bytes
// ---------------------------------------------------------------------------

/// Calls `String::from_utf8`, which (per its documentation) returns the
/// string made of the given bytes when they are valid UTF-8 and an error
/// otherwise; the error is mapped to `None`.
#[verifier::external_body]
fn string_from_utf8(v: Vec<u8>) -> (r: Option<String>)
    ensures
        r is Some <==> valid_utf8(v@),
        r matches Some(s) ==> s@ == decode_utf8(v@),
{
    String::from_utf8(v).ok()
}

/// Copy of `b[lo..hi]`.
pub fn copy_range(b: &[u8], lo: usize, hi: usize) -> (v: Vec<u8>)
    requires
        lo <= hi <= b@.len(),
    ensures
        v@ == b@.subrange(lo as int, hi as int),
{
    let mut v: Vec<u8> = Vec::new();
    let mut i = lo;
    while i < hi
        invariant
            lo <= i <= hi <= b@.len(),
            v@ == b@.subrange(lo as int, i as int),
        decreases hi - i,
    {
        v.push(b[i]);
        proof {
            assert(v@ =~= b@.subrange(lo as int, i + 1));
        }
        i = i + 1;
    }
    v
}

/// The string whose UTF-8 encoding is `v`.
pub fn string_of_bytes(v: Vec<u8>) -> (s: String)
    requires
        valid_utf8(v@),
    ensures
        s@ == decode_utf8(v@),
{
    let r = string_from_utf8(v);
    match r {
        Some(s) => s,
        None => {
            proof {
                assert(false);
            }
            String::new()
        },
    }
}

/// The string whose UTF-8 encoding is `b[lo..hi]`.
pub fn string_of_range(b: &[u8], lo: usize, hi: usize) -> (s: String)
    requires
        lo <= hi <= b@.len(),
        valid_utf8(b@.subrange(lo as int, hi as int)),
    ensures
        s@ == decode_utf8(b@.subrange(lo as int, hi as int)),
{
    string_of_bytes(copy_range(b, lo, hi))
}

// ---------------------------------------------------------------------------
// Integers
// ---------------------------------------------------------------------------

/// The digits of `s` after an optional leading `+` or `-`.
pub open spec fn unsigned_part(s: Seq<u8>) -> Seq<u8> {
    if s.len() > 0 && (s[0] == 0x2b || s[0] == 0x2d) {
        s.subrange(1, s.len() as int)
    } else {
        s
    }
}

/// The numeral starts with a minus sign.
pub open spec fn starts_negative(s: Seq<u8>) -> bool {
    s.len() > 0 && s[0] == 0x2d
}

/// The signed value of an optionally signed numeral.
pub open spec fn signed_numeral_value(s: Seq<u8>) -> int {
    if starts_negative(s) {
        -digits_value(unsigned_part(s))
    } else {
        digits_value(unsigned_part(s)) as int
    }
}

/// The numeral has the shape `i64::from_str` and `i32::from_str` accept:
/// an optional `+` or `-` followed by one or more ASCII digits.
pub open spec fn is_signed_numeral(s: Seq<u8>) -> bool {
    unsigned_part(s).len() > 0 && all_digits(unsigned_part(s))
}

/// What `i64::from_str` returns for `s`.
pub open spec fn parse_i64_spec(s: Seq<u8>) -> Option<i64> {
    if is_signed_numeral(s) && i64::MIN <= signed_numeral_value(s) <= i64::MAX {
        Some(signed_numeral_value(s) as i64)
    } else {
        None
    }
}

/// What the unsigned `from_str` (`u8`, `u16`, `u32`, ...) returns for `s`
/// when the type's largest value is `max`: an optional `+` followed by one
/// or more ASCII digits whose value does not exceed `max`.
pub open spec fn parse_uint_spec(s: Seq<u8>, max: nat) -> Option<nat> {
    if !starts_negative(s) && is_signed_numeral(s) && digits_value(unsigned_part(s)) <= max {
        Some(digits_value(unsigned_part(s)))
    } else {
        None
    }
}

/// What `i32::from_str` returns for `s`.
pub open spec fn parse_i32_spec(s: Seq<u8>) -> Option<i32> {
    if is_signed_numeral(s) && i32::MIN <= signed_numeral_value(s) <= i32::MAX {
        Some(signed_numeral_value(s) as i32)
    } else {
        None
    }
}


/// Extending a run of digits never makes its value smaller.
pub proof fn lemma_digits_value_prefix(s: Seq<u8>, k: int)
    requires
        0 <= k <= s.len(),
    ensures
        digits_value(s.subrange(0, k)) <= digits_value(s),
    decreases s.len() - k,
{
    if k < s.len() {
        lemma_digits_value_prefix(s, k + 1);
        assert(s.subrange(0, k + 1).drop_last() =~= s.subrange(0, k));
    } else {
        assert(s.subrange(0, k) =~= s);
    }
}

/// A run of `n` digits is below `10^n`.
pub proof fn lemma_digits_value_bound(s: Seq<u8>)
    requires
        all_digits(s),
    ensures
        digits_value(s) < pow10(s.len()),
    decreases s.len(),
{
    if s.len() > 0 {
        let t = s.drop_last();
        assert(all_digits(t)) by {
            assert forall|i: int| 0 <= i < t.len() implies #[trigger] is_digit(t[i]) by {
                assert(t[i] == s[i]);
            }
        }
        lemma_digits_value_bound(t);
        assert(is_digit(s[s.len() - 1]));
    }
}

/// Value of the digit run `b[lo..hi]`, or `None` when it exceeds `cap`.
pub fn digits_value_capped(b: &[u8], lo: usize, hi: usize, cap: u64) -> (r: Option<u64>)
    requires
        lo <= hi <= b@.len(),
        all_digits(b@.subrange(lo as int, hi as int)),
    ensures
        r is Some <==> digits_value(b@.subrange(lo as int, hi as int)) <= cap,
        r matches Some(v) ==> v as nat == digits_value(b@.subrange(lo as int, hi as int)),
{
    let mut acc: u64 = 0;
    let mut i = lo;
    while i < hi
        invariant
            lo <= i <= hi <= b@.len(),
            all_digits(b@.subrange(lo as int, hi as int)),
            acc as nat == digits_value(b@.subrange(lo as int, i as int)),
            acc <= cap,
        decreases hi - i,
    {
        let ghost whole = b@.subrange(lo as int, hi as int);
        proof {
            assert(is_digit(whole[i - lo]));
            assert(b@.subrange(lo as int, i + 1).drop_last() =~= b@.subrange(lo as int, i as int));
            assert(b@.subrange(lo as int, i + 1).last() == b@[i as int]);
        }
        let d = (b[i] - 0x30) as u64;
        if d > cap || acc > (cap - d) / 10 {
            proof {
                assert(acc * 10 + d > cap) by (nonlinear_arith)
                    requires
                        d > cap || acc > (cap - d) / 10,
                        d <= cap ==> (cap - d) / 10 * 10 + 10 > cap - d,
                        acc >= 0, d >= 0,
                ;
                lemma_digits_value_prefix(whole, i + 1 - lo);
                assert(whole.subrange(0, i + 1 - lo) =~= b@.subrange(lo as int, i + 1));
            }
            return None;
        }
        proof {
            assert(acc * 10 + d <= cap) by (nonlinear_arith)
                requires
                    acc <= (cap - d) / 10,
                    d <= cap,
            ;
        }
        acc = acc * 10 + d;
        i = i + 1;
    }
    Some(acc)
}


/// Whether every byte of `b[lo..hi]` is an ASCII digit.
pub fn all_digits_at(b: &[u8], lo: usize, hi: usize) -> (r: bool)
    requires
        lo <= hi <= b@.len(),
    ensures
        r == all_digits(b@.subrange(lo as int, hi as int)),
{
    let mut i = lo;
    while i < hi
        invariant
            lo <= i <= hi <= b@.len(),
            all_digits(b@.subrange(lo as int, i as int)),
        decreases hi - i,
    {
        if !byte_is_digit(b[i]) {
            proof {
                let s = b@.subrange(lo as int, hi as int);
                assert(!is_digit(s[i - lo]));
            }
            return false;
        }
        proof {
            let t = b@.subrange(lo as int, i + 1);
            assert forall|k: int| 0 <= k < t.len() implies #[trigger] is_digit(t[k]) by {
                if k < i - lo {
                    assert(t[k] == b@.subrange(lo as int, i as int)[k]);
                }
            }
        }
        i = i + 1;
    }
    true
}

/// Sign and digit run of an optionally signed numeral in `b[lo..hi]`:
/// whether it is negative and where its digits start.
pub fn numeral_digits_start(b: &[u8], lo: usize, hi: usize) -> (r: (bool, usize))
    requires
        lo <= hi <= b@.len(),
    ensures
        r.0 == starts_negative(b@.subrange(lo as int, hi as int)),
        lo <= r.1 <= hi,
        b@.subrange(r.1 as int, hi as int) == unsigned_part(b@.subrange(lo as int, hi as int)),
{
    if lo < hi && (b[lo] == 0x2b || b[lo] == 0x2d) {
        proof {
            let s = b@.subrange(lo as int, hi as int);
            assert(s.subrange(1, s.len() as int) =~= b@.subrange(lo + 1, hi as int));
        }
        (b[lo] == 0x2d, lo + 1)
    } else {
        (false, lo)
    }
}

/// `i64::from_str` on the bytes `b[lo..hi]`.
pub fn parse_i64_at(b: &[u8], lo: usize, hi: usize) -> (r: Option<i64>)
    requires
        lo <= hi <= b@.len(),
    ensures
        r == parse_i64_spec(b@.subrange(lo as int, hi as int)),
{
    let (neg, start) = numeral_digits_start(b, lo, hi);
    if start == hi || !all_digits_at(b, start, hi) {
        return None;
    }
    let cap: u64 = if neg { 9223372036854775808 } else { 9223372036854775807 };
    match digits_value_capped(b, start, hi, cap) {
        None => None,
        Some(v) => {
            if neg {
                Some((0i128 - v as i128) as i64)
            } else {
                Some(v as i64)
            }
        },
    }
}

/// The unsigned `from_str` on the bytes `b[lo..hi]`, for a type whose
/// largest value is `cap`.
pub fn parse_uint_at(b: &[u8], lo: usize, hi: usize, cap: u64) -> (r: Option<u64>)
    requires
        lo <= hi <= b@.len(),
    ensures
        match parse_uint_spec(b@.subrange(lo as int, hi as int), cap as nat) {
            Some(v) => r == Some(v as u64),
            None => r is None,
        },
{
    let (neg, start) = numeral_digits_start(b, lo, hi);
    if neg || start == hi || !all_digits_at(b, start, hi) {
        return None;
    }
    digits_value_capped(b, start, hi, cap)
}

/// `i32::from_str` on the bytes `b[lo..hi]`.
pub fn parse_i32_at(b: &[u8], lo: usize, hi: usize) -> (r: Option<i32>)
    requires
        lo <= hi <= b@.len(),
    ensures
        r == parse_i32_spec(b@.subrange(lo as int, hi as int)),
{
    let (neg, start) = numeral_digits_start(b, lo, hi);
    if start == hi || !all_digits_at(b, start, hi) {
        return None;
    }
    let cap: u64 = if neg { 2147483648 } else { 2147483647 };
    match digits_value_capped(b, start, hi, cap) {
        None => None,
        Some(v) => {
            if neg {
                Some((0i64 - v as i64) as i32)
            } else {
                Some(v as i32)
            }
        },
    }
}

// ---------------------------------------------------------------------------
// Rendering integers
// ---------------------------------------------------------------------------

/// The ASCII digit for a value below ten.
pub open spec fn digit_byte(d: nat) -> u8 {
    (0x30 + d) as u8
}

/// The `w` low-order decimal digits of `n`, zero-padded, most significant first.
pub open spec fn padded_digits(n: nat, w: nat) -> Seq<u8>
    decreases w,
{
    if w == 0 {
        Seq::empty()
    } else {
        padded_digits(n / 10, (w - 1) as nat).push(digit_byte(n % 10))
    }
}

/// The decimal numeral of `n` without leading zeros (`"0"` for zero).
pub open spec fn decimal_text(n: nat) -> Seq<u8>
    decreases n,
{
    if n < 10 {
        seq![digit_byte(n)]
    } else {
        decimal_text(n / 10).push(digit_byte(n % 10))
    }
}

/// Padded digits are digits, and read back as `n mod 10^w`.
pub proof fn lemma_padded_digits(n: nat, w: nat)
    ensures
        padded_digits(n, w).len() == w,
        all_digits(padded_digits(n, w)),
        digits_value(padded_digits(n, w)) == n % pow10(w),
    decreases w,
{
    if w > 0 {
        let p = padded_digits(n / 10, (w - 1) as nat);
        lemma_padded_digits(n / 10, (w - 1) as nat);
        let q = padded_digits(n, w);
        assert(q.drop_last() =~= p);
        assert forall|i: int| 0 <= i < q.len() implies #[trigger] is_digit(q[i]) by {
            if i < p.len() {
                assert(q[i] == p[i]);
            }
        }
        let m = pow10((w - 1) as nat);
        lemma_pow10_positive((w - 1) as nat);
        assert(pow10(w) == 10 * m);
        assert((n / 10) % m * 10 + n % 10 == n % (10 * m)) by (nonlinear_arith)
            requires
                m > 0,
        {
            vstd::arithmetic::div_mod::lemma_breakdown(n as int, 10, m as int);
        }
        assert(q.last() == digit_byte(n % 10));
    }
}

/// Powers of ten are positive.
pub proof fn lemma_pow10_positive(n: nat)
    ensures
        pow10(n) > 0,
    decreases n,
{
    if n > 0 {
        lemma_pow10_positive((n - 1) as nat);
    }
}

/// The decimal numeral of `n` is made of digits and reads back as `n`.
pub proof fn lemma_decimal_text(n: nat)
    ensures
        decimal_text(n).len() > 0,
        all_digits(decimal_text(n)),
        digits_value(decimal_text(n)) == n,
    decreases n,
{
    if n >= 10 {
        lemma_decimal_text(n / 10);
        let p = decimal_text(n / 10);
        let q = decimal_text(n);
        assert(q.drop_last() =~= p);
        assert forall|i: int| 0 <= i < q.len() implies #[trigger] is_digit(q[i]) by {
            if i < p.len() {
                assert(q[i] == p[i]);
            }
        }
        assert(q.last() == digit_byte(n % 10));
        assert(digits_value(q) == digits_value(p) * 10 + digit_value(q.last()));
    } else {
        let q = decimal_text(n);
        assert(q.drop_last() =~= Seq::<u8>::empty());
        assert(digits_value(q) == digits_value(q.drop_last()) * 10 + digit_value(q.last()));
    }
}

/// Append the `w` low-order digits of `n`, zero-padded.
pub fn push_padded_digits(out: &mut Vec<u8>, n: u64, w: usize)
    requires
        w <= 20,
    ensures
        final(out)@ == old(out)@ + padded_digits(n as nat, w as nat),
{
    let mut buf: Vec<u8> = Vec::new();
    let mut k: usize = 0;
    let mut m = n;
    proof {
        assert(pow10(0) == 1);
        assert(buf@ =~= Seq::<u8>::empty());
        assert(padded_digits(n as nat, w as nat) + buf@ =~= padded_digits(n as nat, w as nat));
    }
    while k < w
        invariant
            k <= w,
            m as nat == n as nat / pow10(k as nat),
            padded_digits(n as nat, w as nat) == padded_digits(m as nat, (w - k) as nat) + buf@,
        decreases w - k,
    {
        proof {
            let rest = (w - k) as nat;
            assert(padded_digits(m as nat, rest) == padded_digits(m as nat / 10, (rest - 1) as nat).push(
                digit_byte(m as nat % 10),
            ));
            assert(padded_digits(m as nat / 10, (rest - 1) as nat) + seq![digit_byte(m as nat % 10)]
                + buf@ =~= padded_digits(m as nat / 10, (rest - 1) as nat) + (seq![
                digit_byte(m as nat % 10),
            ] + buf@));
            lemma_pow10_positive(k as nat);
            vstd::arithmetic::div_mod::lemma_div_denominator(n as int, pow10(k as nat) as int, 10);
            assert(pow10((k + 1) as nat) == pow10(k as nat) * 10);
        }
        let d = (m % 10) as u8;
        buf.insert(0, 0x30 + d);
        m = m / 10;
        k = k + 1;
        proof {
            assert(padded_digits(n as nat, w as nat) == padded_digits(m as nat, (w - k) as nat)
                + buf@);
        }
    }
    proof {
        assert(padded_digits(m as nat, 0) =~= Seq::<u8>::empty());
        assert(Seq::<u8>::empty() + buf@ =~= buf@);
    }
    let mut i: usize = 0;
    let ghost start = out@;
    while i < buf.len()
        invariant
            i <= buf@.len(),
            out@ == start + buf@.subrange(0, i as int),
        decreases buf@.len() - i,
    {
        out.push(buf[i]);
        proof {
            assert(out@ =~= start + buf@.subrange(0, i + 1));
        }
        i = i + 1;
    }
    proof {
        assert(buf@.subrange(0, buf@.len() as int) =~= buf@);
    }
}


/// Number of digits in the decimal numeral of `n`.
pub open spec fn num_digits(n: nat) -> nat
    decreases n,
{
    if n < 10 {
        1
    } else {
        1 + num_digits(n / 10)
    }
}

/// Padding to exactly the numeral's width gives the numeral.
pub proof fn lemma_padded_is_decimal(n: nat)
    ensures
        padded_digits(n, num_digits(n)) == decimal_text(n),
    decreases n,
{
    if n >= 10 {
        lemma_padded_is_decimal(n / 10);
    } else {
        assert(padded_digits(n / 10, 0) =~= Seq::<u8>::empty());
        assert(padded_digits(n, 1) =~= seq![digit_byte(n)]);
    }
}

/// Append the decimal numeral of `n`.
pub fn push_decimal(out: &mut Vec<u8>, n: u64)
    ensures
        final(out)@ == old(out)@ + decimal_text(n as nat),
{
    let mut w: usize = 1;
    let mut m = n;
    while m >= 10
        invariant
            1 <= w <= 20,
            m <= n,
            num_digits(n as nat) == (w - 1) + num_digits(m as nat),
        decreases m,
    {
        proof {
            assert(num_digits(m as nat) == 1 + num_digits(m as nat / 10));
            assert(num_digits(m as nat / 10) >= 1);
            assert(w < 20) by {
                lemma_num_digits_u64(n as nat);
            }
        }
        m = m / 10;
        w = w + 1;
    }
    proof {
        lemma_padded_is_decimal(n as nat);
    }
    push_padded_digits(out, n, w);
}

/// A `u64` has at most 20 digits.
pub proof fn lemma_num_digits_u64_pub(n: nat)
    requires
        n <= u64::MAX,
    ensures
        num_digits(n) <= 20,
{
    lemma_num_digits_u64(n);
}

proof fn lemma_num_digits_u64(n: nat)
    requires
        n <= u64::MAX,
    ensures
        num_digits(n) <= 20,
    decreases n,
{
    if n >= 10 {
        reveal_with_fuel(pow10, 20);
        lemma_num_digits_small(n / 10, 19);
    }
}

proof fn lemma_num_digits_small(n: nat, k: nat)
    requires
        k >= 1,
        n < pow10(k),
    ensures
        num_digits(n) <= k,
    decreases k,
{
    if n >= 10 {
        assert(pow10(k) == 10 * pow10((k - 1) as nat));
        if k == 1 {
            assert(pow10(0) == 1);
        } else {
            lemma_num_digits_small(n / 10, (k - 1) as nat);
        }
    }
}


// ---------------------------------------------------------------------------
// ASCII text
// ---------------------------------------------------------------------------

/// Every byte is ASCII.
pub open spec fn all_ascii(s: Seq<u8>) -> bool {
    forall|i: int| 0 <= i < s.len() ==> #[trigger] s[i] < 0x80
}

/// The characters of an ASCII byte sequence.
pub open spec fn ascii_chars(s: Seq<u8>) -> Seq<char> {
    s.map_values(|b: u8| b as char)
}

/// ASCII bytes are valid UTF-8 and decode byte by byte.
pub proof fn lemma_ascii_decode(s: Seq<u8>)
    requires
        all_ascii(s),
    ensures
        valid_utf8(s),
        decode_utf8(s) == ascii_chars(s),
    decreases s.len(),
{
    if s.len() > 0 {
        let t = s.subrange(1, s.len() as int);
        assert(all_ascii(t)) by {
            assert forall|i: int| 0 <= i < t.len() implies #[trigger] t[i] < 0x80 by {
                assert(t[i] == s[i + 1]);
            }
        }
        lemma_ascii_decode(t);
        assert(pop_first_scalar(s) =~= t);
        let b = s[0];
        assert(b < 0x80);
        assert(b & 0x7f == b) by (bit_vector)
            requires
                b < 0x80,
        ;
        assert(decode_first_scalar(s) == b as u32);
        assert(decode_utf8(s) =~= ascii_chars(s));
    } else {
        assert(decode_utf8(s) =~= ascii_chars(s));
    }
}

/// Digits are ASCII.
pub proof fn lemma_digits_ascii(s: Seq<u8>)
    requires
        all_digits(s),
    ensures
        all_ascii(s),
{
    assert forall|i: int| 0 <= i < s.len() implies #[trigger] s[i] < 0x80 by {
        assert(is_digit(s[i]));
    }
}

/// The string made of the ASCII bytes `v`.
pub fn string_of_ascii(v: Vec<u8>) -> (s: String)
    requires
        all_ascii(v@),
    ensures
        s@ == ascii_chars(v@),
{
    proof {
        lemma_ascii_decode(v@);
    }
    string_of_bytes(v)
}

/// Bytes with no whitespace at either end are their own trim.
pub proof fn lemma_trim_no_ws(s: Seq<u8>)
    requires
        ws_prefix_len(s) == 0,
        ws_suffix_len(s) == 0,
    ensures
        trim(s) == s,
{
}


/// What `trim_start` leaves does not begin with whitespace.
proof fn lemma_trim_start_clean(s: Seq<u8>)
    ensures
        ws_prefix_len(trim_start(s)) == 0,
    decreases s.len(),
{
    let k = ws_prefix_len(s);
    if k > 0 {
        lemma_trim_start_clean(s.subrange(k, s.len() as int));
    }
}

/// What `trim_end` leaves does not end with whitespace and is a prefix.
proof fn lemma_trim_end_clean(s: Seq<u8>)
    ensures
        ws_suffix_len(trim_end(s)) == 0,
        trim_end(s).len() <= s.len(),
        trim_end(s) == s.subrange(0, trim_end(s).len() as int),
    decreases s.len(),
{
    let k = ws_suffix_len(s);
    if k > 0 {
        let u = s.subrange(0, s.len() - k);
        lemma_trim_end_clean(u);
        assert(u.subrange(0, trim_end(u).len() as int) =~= s.subrange(0, trim_end(u).len() as int));
    } else {
        assert(s.subrange(0, s.len() as int) =~= s);
    }
}

/// Trimming twice is trimming once.
pub proof fn lemma_trim_idempotent(s: Seq<u8>)
    ensures
        trim(trim(s)) == trim(s),
{
    let a = trim_start(s);
    let t = trim_end(a);
    lemma_trim_start_clean(s);
    lemma_trim_end_clean(a);
    assert(ws_prefix_len(t) == 0) by {
        if t.len() >= 1 {
            assert(t[0] == a[0]);
        }
        if t.len() >= 2 {
            assert(t[1] == a[1]);
        }
        if t.len() >= 3 {
            assert(t[2] == a[2]);
        }
    }
    lemma_trim_no_ws(t);
}

/// Text that is its own trim has no whitespace at its ends.
pub proof fn lemma_trim_fixed_ends(x: Seq<u8>)
    requires
        trim(x) == x,
        x.len() > 0,
    ensures
        ws_prefix_len(x) == 0,
        ws_suffix_len(x) == 0,
        trim_start(x) == x,
{
    lemma_trim_shorter_start(x);
    lemma_trim_shorter_end(trim_start(x));
    if ws_suffix_len(trim_start(x)) > 0 {
        assert(trim(x).len() < trim_start(x).len());
    }
}

/// Trimming the start never lengthens text, and shortens it when it
/// begins with whitespace.
pub proof fn lemma_trim_shorter_start(e: Seq<u8>)
    ensures
        trim_start(e).len() <= e.len(),
        ws_prefix_len(e) > 0 ==> trim_start(e).len() < e.len(),
        trim_start(e).len() == e.len() ==> trim_start(e) == e,
    decreases e.len(),
{
    let k = ws_prefix_len(e);
    if k > 0 {
        lemma_trim_shorter_start(e.subrange(k, e.len() as int));
    }
}

/// Trimming the end never lengthens text.
pub proof fn lemma_trim_shorter_end(e: Seq<u8>)
    ensures
        trim_end(e).len() <= e.len(),
        ws_suffix_len(e) > 0 ==> trim_end(e).len() < e.len(),
    decreases e.len(),
{
    let k = ws_suffix_len(e);
    if k > 0 {
        lemma_trim_shorter_end(e.subrange(0, e.len() - k));
    }
}

/// Encoding a concatenation concatenates the encodings.
pub proof fn lemma_encode_concat(a: Seq<char>, b: Seq<char>)
    ensures
        encode_utf8(a + b) == encode_utf8(a) + encode_utf8(b),
    decreases a.len(),
{
    if a.len() == 0 {
        assert(a + b =~= b);
        assert(encode_utf8(a) + encode_utf8(b) =~= encode_utf8(b));
    } else {
        lemma_encode_concat(a.drop_first(), b);
        assert((a + b).drop_first() =~= a.drop_first() + b);
        assert((a + b)[0] == a[0]);
        let h = encode_scalar(a[0] as u32);
        assert(h + (encode_utf8(a.drop_first()) + encode_utf8(b)) =~= (h + encode_utf8(
            a.drop_first(),
        )) + encode_utf8(b));
    }
}

/// The string `a` followed by the string `b`.
pub fn concat_str(a: &str, b: &str) -> (r: String)
    ensures
        r@ == a@ + b@,
{
    let x = a.as_bytes();
    let y = b.as_bytes();
    let mut v = copy_range(x, 0, x.len());
    let mut i: usize = 0;
    proof {
        assert(x@.subrange(0, x@.len() as int) =~= x@);
    }
    while i < y.len()
        invariant
            i <= y@.len(),
            v@ == x@ + y@.subrange(0, i as int),
        decreases y@.len() - i,
    {
        v.push(y[i]);
        proof {
            assert(v@ =~= x@ + y@.subrange(0, i + 1));
        }
        i = i + 1;
    }
    proof {
        assert(y@.subrange(0, y@.len() as int) =~= y@);
        lemma_encode_concat(a@, b@);
        encode_utf8_valid_utf8(a@ + b@);
        encode_utf8_decode_utf8(a@ + b@);
    }
    string_of_bytes(v)
}

/// A UTF-8 encoding has at least one byte per character, and exactly one
/// only when it is ASCII.
pub proof fn lemma_encode_len(s: Seq<char>)
    ensures
        encode_utf8(s).len() >= s.len(),
        encode_utf8(s).len() == s.len() ==> all_ascii(encode_utf8(s)),
        encode_utf8(s).len() == s.len() ==> is_ascii_chars(s),
    decreases s.len(),
{
    if s.len() > 0 {
        let v = s[0] as u32;
        let h = encode_scalar(v);
        let r = encode_utf8(s.drop_first());
        lemma_encode_len(s.drop_first());
        assert(encode_utf8(s) == h + r);
        assert(h.len() >= 1);
        if encode_utf8(s).len() == s.len() {
            assert(h.len() == 1);
            assert(has_width_1_encoding(v));
            assert((v & 0x7f) < 0x80) by (bit_vector);
            assert(h[0] < 0x80);
            assert forall|i: int| 0 <= i < (h + r).len() implies #[trigger] (h + r)[i] < 0x80 by {
                if i > 0 {
                    assert((h + r)[i] == r[i - 1]);
                }
            }
            assert forall|i: int| 0 <= i < s.len() implies '\0' <= #[trigger] s[i] <= '\u{7f}' by {
                if i > 0 {
                    assert(s[i] == s.drop_first()[i - 1]);
                } else {
                    vstd::utf8::char_u32_cast(s[0], v);
                    assert((s[0] as u32) <= 0x7f);
                }
            }
        }
    }
}

/// Number of characters of a string slice.
pub fn char_count(s: &str) -> (n: usize)
    ensures
        n as nat == s@.len(),
{
    s.unicode_len()
}

} // verus!
