//! The keyword-value notation (KVN) of CCSDS OMM messages: `KEY = VALUE`
//! lines, with blank lines, `COMMENT` lines and lines without `=` ignored.
//! Keys and values are trimmed; when a key repeats, its last value counts.

use vstd::prelude::*;
use vstd::string::StringSliceAdditionalSpecFns;
use vstd::utf8::{decode_utf8, valid_utf8, valid_utf8_concat, encode_utf8_valid_utf8};
use crate::decimal::{matches_word, matches_word_at};
use super::round_trip::{fill, lemma_trim_end_spaces, lemma_trim_start_spaces};
use crate::text::{
    is_ascii_ws, lemma_trim_fixed_ends, lemma_trim_no_ws, lemma_trim_valid, lemma_valid_utf8_range,
    string_of_range, trim, trim_at, trim_end, trim_start, ws_prefix_len, ws_suffix_len,
};

verus! {

broadcast use vstd::seq::group_seq_axioms;

/// Index of the first byte `c` in `s`, or the length of `s`.
pub open spec fn first_of(s: Seq<u8>, c: u8) -> int
    decreases s.len(),
{
    if s.len() == 0 {
        0
    } else if s[0] == c {
        0
    } else {
        1 + first_of(s.subrange(1, s.len() as int), c)
    }
}

/// `COMMENT`.
pub open spec fn comment_word() -> Seq<u8> {
    seq![0x43u8, 0x4f, 0x4d, 0x4d, 0x45, 0x4e, 0x54]
}

/// The key and value of one line, if it holds one.
pub open spec fn kvn_pair(line: Seq<u8>) -> Option<(Seq<u8>, Seq<u8>)> {
    let l = trim(line);
    if l.len() == 0 || comment_word().is_prefix_of(l) {
        None
    } else {
        let e = first_of(l, 0x3d);
        if e >= l.len() {
            None
        } else {
            Some((trim(l.subrange(0, e)), trim(l.subrange(e + 1, l.len() as int))))
        }
    }
}

/// The key/value pairs of a text, line by line, in order.
pub open spec fn kvn_pairs(s: Seq<u8>) -> Seq<(Seq<u8>, Seq<u8>)>
    decreases s.len(),
{
    let i = first_of(s, 0x0a);
    let rest = if 0 <= i < s.len() {
        kvn_pairs(s.subrange(i + 1, s.len() as int))
    } else {
        Seq::empty()
    };
    match kvn_pair(s.subrange(0, if 0 <= i <= s.len() { i } else { 0 })) {
        Some(p) => seq![p] + rest,
        None => rest,
    }
}

/// The pairs as character strings.
pub open spec fn decoded(ps: Seq<(Seq<u8>, Seq<u8>)>) -> Seq<(Seq<char>, Seq<char>)> {
    ps.map_values(|p: (Seq<u8>, Seq<u8>)| (decode_utf8(p.0), decode_utf8(p.1)))
}

/// The characters of a list of string pairs.
pub open spec fn fields_view(v: Seq<(String, String)>) -> Seq<(Seq<char>, Seq<char>)> {
    v.map_values(|p: (String, String)| (p.0@, p.1@))
}

/// The value of the last pair with key `k`.
pub open spec fn last_value(ps: Seq<(Seq<char>, Seq<char>)>, k: Seq<char>) -> Option<Seq<char>>
    decreases ps.len(),
{
    if ps.len() == 0 {
        None
    } else if ps.last().0 == k {
        Some(ps.last().1)
    } else {
        last_value(ps.drop_last(), k)
    }
}

pub(crate) proof fn lemma_first_of_bounds(s: Seq<u8>, c: u8)
    ensures
        0 <= first_of(s, c) <= s.len(),
        first_of(s, c) < s.len() ==> s[first_of(s, c)] == c,
        forall|j: int| 0 <= j < first_of(s, c) ==> s[j] != c,
    decreases s.len(),
{
    if s.len() > 0 && s[0] != c {
        let t = s.subrange(1, s.len() as int);
        lemma_first_of_bounds(t, c);
        assert forall|j: int| 0 <= j < first_of(s, c) implies s[j] != c by {
            if j > 0 {
                assert(s[j] == t[j - 1]);
            }
        }
    }
}

/// Index of the first `c` in `b[lo..hi]`, as an index into `b`.
pub(crate) fn first_of_at(b: &[u8], lo: usize, hi: usize, c: u8) -> (p: usize)
    requires
        lo <= hi <= b@.len(),
    ensures
        p - lo == first_of(b@.subrange(lo as int, hi as int), c),
        lo <= p <= hi,
{
    let mut i = lo;
    while i < hi
        invariant
            lo <= i <= hi <= b@.len(),
            first_of(b@.subrange(lo as int, hi as int), c) == (i - lo) + first_of(
                b@.subrange(i as int, hi as int),
                c,
            ),
        ensures
            lo <= i <= hi,
            first_of(b@.subrange(lo as int, hi as int), c) == (i - lo) + first_of(
                b@.subrange(i as int, hi as int),
                c,
            ),
            i < hi ==> b@[i as int] == c,
        decreases hi - i,
    {
        if b[i] == c {
            break ;
        }
        proof {
            let t = b@.subrange(i as int, hi as int);
            assert(t.subrange(1, t.len() as int) =~= b@.subrange(i + 1, hi as int));
        }
        i = i + 1;
    }
    proof {
        if i == hi {
            assert(b@.subrange(i as int, hi as int).len() == 0);
        }
    }
    i
}

/// `COMMENT` begins `b[lo..hi]`.
fn starts_with_comment(b: &[u8], lo: usize, hi: usize) -> (r: bool)
    requires
        lo <= hi <= b@.len(),
    ensures
        r == comment_word().is_prefix_of(b@.subrange(lo as int, hi as int)),
{
    let w: [u8; 7] = [0x43, 0x4f, 0x4d, 0x4d, 0x45, 0x4e, 0x54];
    if hi - lo < 7 {
        return false;
    }
    let mut i: usize = 0;
    while i < 7
        invariant
            hi - lo >= 7,
            lo <= hi <= b@.len(),
            i <= 7,
            w@ == comment_word(),
            forall|k: int| 0 <= k < i ==> b@[lo + k] == comment_word()[k],
        decreases 7 - i,
    {
        if b[lo + i] != w[i] {
            proof {
                let s = b@.subrange(lo as int, hi as int);
                assert(s[i as int] != comment_word()[i as int]);
            }
            return false;
        }
        i = i + 1;
    }
    proof {
        let s = b@.subrange(lo as int, hi as int);
        assert forall|k: int| 0 <= k < 7 implies comment_word()[k] == s[k] by {
            assert(s[k] == b@[lo + k]);
        }
    }
    true
}

/// The key and value held by the line `b[lo..hi]`, if any.
fn pair_of_line(b: &[u8], lo: usize, hi: usize) -> (r: Option<(String, String)>)
    requires
        lo <= hi <= b@.len(),
        valid_utf8(b@.subrange(lo as int, hi as int)),
    ensures
        match kvn_pair(b@.subrange(lo as int, hi as int)) {
            None => r is None,
            Some(p) => r matches Some(q) && q.0@ == decode_utf8(p.0) && q.1@ == decode_utf8(p.1),
        },
{
    let ghost seg = b@.subrange(lo as int, hi as int);
    let (i, j) = trim_at(b, lo, hi);
    let ghost l = b@.subrange(i as int, j as int);
    proof {
        lemma_trim_valid(seg);
    }
    if i == j || starts_with_comment(b, i, j) {
        return None;
    }
    let e = first_of_at(b, i, j, 0x3d);
    if e == j {
        return None;
    }
    proof {
        lemma_first_of_bounds(l, 0x3d);
        let k = e - i;
        assert(l[k as int] == 0x3d);
        assert(l.subrange(0, k as int) =~= b@.subrange(i as int, e as int));
        assert(l.subrange(k + 1, l.len() as int) =~= b@.subrange(e + 1, j as int));
        lemma_valid_utf8_range(l, 0, k as int);
        crate::tle::omm::lemma_valid_after_ascii(l, k as int);
        lemma_trim_valid(b@.subrange(i as int, e as int));
        lemma_trim_valid(b@.subrange(e + 1, j as int));
    }
    let (ki, kj) = trim_at(b, i, e);
    let (vi, vj) = trim_at(b, e + 1, j);
    let key = string_of_range(b, ki, kj);
    let value = string_of_range(b, vi, vj);
    Some((key, value))
}

/// The key/value pairs of a KVN text, in order, keys and values trimmed.
pub fn kvn_fields(input: &str) -> (r: Vec<(String, String)>)
    ensures
        fields_view(r@) == decoded(kvn_pairs(input.spec_bytes())),
{
    let b = input.as_bytes();
    let ghost all = b@;
    proof {
        encode_utf8_valid_utf8(input@);
        assert(b@.subrange(0, b@.len() as int) =~= b@);
    }
    let mut out: Vec<(String, String)> = Vec::new();
    let mut pos: usize = 0;
    loop
        invariant_except_break
            fields_view(out@) + decoded(kvn_pairs(b@.subrange(pos as int, b@.len() as int)))
                == decoded(kvn_pairs(all)),
        invariant
            pos <= b@.len(),
            b@ == all,
            valid_utf8(b@.subrange(pos as int, b@.len() as int)),
        ensures
            fields_view(out@) == decoded(kvn_pairs(all)),
        decreases b@.len() - pos,
    {
        let ghost s = b@.subrange(pos as int, b@.len() as int);
        let nl = first_of_at(b, pos, b.len(), 0x0a);
        proof {
            lemma_first_of_bounds(s, 0x0a);
            let i = nl - pos;
            assert(s.subrange(0, i as int) =~= b@.subrange(pos as int, nl as int));
            if nl < b.len() {
                assert(s[i as int] == 0x0a);
                lemma_valid_utf8_range(s, 0, i as int);
                crate::tle::omm::lemma_valid_after_ascii(s, i as int);
                assert(s.subrange(i + 1, s.len() as int) =~= b@.subrange(
                    nl + 1,
                    b@.len() as int,
                ));
            } else {
                assert(s.subrange(0, i as int) =~= s);
            }
        }
        let p = pair_of_line(b, pos, nl);
        let ghost before = out@;
        let ghost rest = if nl < b.len() {
            b@.subrange(nl + 1, b@.len() as int)
        } else {
            Seq::<u8>::empty()
        };
        let ghost tail = if nl < b.len() {
            kvn_pairs(rest)
        } else {
            Seq::<(Seq<u8>, Seq<u8>)>::empty()
        };
        match p {
            Some(q) => {
                out.push(q);
                proof {
                    let kp = kvn_pair(s.subrange(0, nl - pos)).unwrap();
                    assert(kvn_pairs(s) == seq![kp] + tail);
                    assert(decoded(seq![kp] + tail) =~= seq![(decode_utf8(kp.0), decode_utf8(kp.1))]
                        + decoded(tail));
                    assert(fields_view(out@) =~= fields_view(before) + seq![
                        (decode_utf8(kp.0), decode_utf8(kp.1)),
                    ]);
                }
            },
            None => {
                proof {
                    assert(kvn_pairs(s) == tail);
                }
            },
        }
        if nl >= b.len() {
            proof {
                assert(decoded(Seq::<(Seq<u8>, Seq<u8>)>::empty()) =~= Seq::<
                    (Seq<char>, Seq<char>),
                >::empty());
                assert(fields_view(out@) + decoded(tail) =~= fields_view(out@));
                assert(fields_view(out@) =~= fields_view(before) + decoded(kvn_pairs(s)));
            }
            break ;
        }
        proof {
            assert(fields_view(out@) + decoded(tail) =~= fields_view(before) + decoded(
                kvn_pairs(s),
            ));
        }
        pos = nl + 1;
    }
    out
}

/// Whether two strings have the same bytes.
pub(crate) fn same_text(a: &str, b: &str) -> (r: bool)
    ensures
        r == (a@ == b@),
{
    let x = a.as_bytes();
    let y = b.as_bytes();
    proof {
        vstd::utf8::encode_utf8_decode_utf8(a@);
        vstd::utf8::encode_utf8_decode_utf8(b@);
        assert(x@ == vstd::utf8::encode_utf8(a@));
        assert(y@ == vstd::utf8::encode_utf8(b@));
    }
    if x.len() != y.len() {
        return false;
    }
    let mut i: usize = 0;
    while i < x.len()
        invariant
            x@.len() == y@.len(),
            x@ == vstd::utf8::encode_utf8(a@),
            y@ == vstd::utf8::encode_utf8(b@),
            i <= x@.len(),
            forall|k: int| 0 <= k < i ==> x@[k] == y@[k],
        decreases x@.len() - i,
    {
        if x[i] != y[i] {
            proof {
                if a@ == b@ {
                    assert(x@ == y@);
                }
            }
            return false;
        }
        i = i + 1;
    }
    proof {
        assert(x@ =~= y@);
    }
    true
}

/// The value of `key`: that of its last occurrence, `None` when absent.
pub fn kvn_value(fields: &Vec<(String, String)>, key: &str) -> (r: Option<String>)
    ensures
        match last_value(fields_view(fields@), key@) {
            None => r is None,
            Some(v) => r matches Some(s) && s@ == v,
        },
{
    let mut i = fields.len();
    proof {
        assert(fields@.subrange(0, i as int) =~= fields@);
    }
    while i > 0
        invariant
            i <= fields@.len(),
            last_value(fields_view(fields@), key@) == last_value(
                fields_view(fields@.subrange(0, i as int)),
                key@,
            ),
        decreases i,
    {
        let ghost ps = fields_view(fields@.subrange(0, i as int));
        proof {
            assert(ps.last() == (fields@[i - 1].0@, fields@[i - 1].1@));
            assert(ps.drop_last() =~= fields_view(fields@.subrange(0, i - 1)));
        }
        if same_text(fields[i - 1].0.as_str(), key) {
            return Some(fields[i - 1].1.clone());
        }
        i = i - 1;
    }
    proof {
        assert(fields_view(fields@.subrange(0, 0)) =~= Seq::<(Seq<char>, Seq<char>)>::empty());
    }
    None
}

/// `sgp4`, the word a supported mean-element theory matches.
pub open spec fn sgp4_word() -> Seq<u8> {
    seq![0x73u8, 0x67, 0x70, 0x34]
}

/// Whether a `MEAN_ELEMENT_THEORY` names SGP4, ignoring ASCII case.
pub fn is_sgp4_theory(theory: &str) -> (r: bool)
    ensures
        r == matches_word(theory.spec_bytes(), sgp4_word()),
{
    let b = theory.as_bytes();
    let w: [u8; 4] = [0x73, 0x67, 0x70, 0x34];
    proof {
        assert(b@.subrange(0, b@.len() as int) =~= b@);
        assert(w@ =~= sgp4_word());
    }
    matches_word_at(b, 0, b.len(), &w)
}

/// The bytes of a KVN line `KEY = VALUE` and its line feed.
pub open spec fn kvn_line_bytes(key: Seq<u8>, value: Seq<u8>) -> Seq<u8> {
    key + seq![0x20u8, 0x3d, 0x20] + value + seq![0x0au8]
}

/// The bytes of consecutive KVN lines.
pub open spec fn kvn_text(entries: Seq<(Seq<u8>, Seq<u8>)>) -> Seq<u8>
    decreases entries.len(),
{
    if entries.len() == 0 {
        Seq::empty()
    } else {
        kvn_line_bytes(entries[0].0, entries[0].1) + kvn_text(entries.subrange(1, entries.len() as int))
    }
}

/// A key the notation can carry: non-empty ASCII, not a comment, without
/// `=`, line feeds or surrounding whitespace.
pub open spec fn kvn_key_ok(k: Seq<u8>) -> bool {
    &&& k.len() > 0
    &&& crate::text::all_ascii(k)
    &&& trim(k) == k
    &&& !comment_word().is_prefix_of(k)
    &&& forall|i: int| 0 <= i < k.len() ==> k[i] != 0x3d && k[i] != 0x0a
}

/// A value the notation can carry: ASCII without line feeds or
/// surrounding whitespace.
pub open spec fn kvn_value_ok(v: Seq<u8>) -> bool {
    &&& crate::text::all_ascii(v)
    &&& trim(v) == v
    &&& forall|i: int| 0 <= i < v.len() ==> v[i] != 0x0a
}

proof fn lemma_first_of_at(s: Seq<u8>, c: u8, k: int)
    requires
        0 <= k < s.len(),
        s[k] == c,
        forall|j: int| 0 <= j < k ==> s[j] != c,
    ensures
        first_of(s, c) == k,
    decreases k,
{
    if k > 0 {
        let t = s.subrange(1, s.len() as int);
        assert forall|j: int| 0 <= j < k - 1 implies t[j] != c by {
            assert(t[j] == s[j + 1]);
        }
        lemma_first_of_at(t, c, k - 1);
    }
}

proof fn lemma_first_of_none(s: Seq<u8>, c: u8)
    requires
        forall|j: int| 0 <= j < s.len() ==> s[j] != c,
    ensures
        first_of(s, c) == s.len(),
    decreases s.len(),
{
    if s.len() > 0 {
        let t = s.subrange(1, s.len() as int);
        assert forall|j: int| 0 <= j < t.len() implies t[j] != c by {
            assert(t[j] == s[j + 1]);
        }
        lemma_first_of_none(t, c);
    }
}

/// Spaces around text without surrounding whitespace trim away.
proof fn lemma_trim_spaced(k1: nat, x: Seq<u8>, k2: nat)
    requires
        trim(x) == x,
    ensures
        trim(fill(k1, 0x20) + x + fill(k2, 0x20)) == x,
{
    let b = fill(k2, 0x20);
    assert(fill(k1, 0x20) + x + b =~= fill(k1, 0x20) + (x + b));
    lemma_trim_start_spaces(k1, x + b);
    if x.len() > 0 {
        lemma_trim_fixed_ends(x);
        assert(ws_prefix_len(x + b) == 0) by {
            assert((x + b)[0] == x[0]);
            if x.len() >= 2 {
                assert((x + b)[1] == x[1]);
            } else if k2 > 0 {
                assert((x + b)[1] == 0x20);
            }
            if x.len() >= 3 {
                assert((x + b)[2] == x[2]);
            } else if x.len() == 2 && k2 > 0 {
                assert((x + b)[2] == 0x20);
            } else if x.len() == 1 && k2 > 1 {
                assert((x + b)[2] == 0x20);
            }
        }
        assert(trim_start(x + b) == x + b);
        lemma_trim_end_spaces(x, k2);
        assert(trim_end(x) == x);
    } else {
        assert(x + b =~= fill(k2, 0x20) + x);
        lemma_trim_start_spaces(k2, x);
        assert(trim_start(x) =~= x);
    }
}

/// One written line reads back as its key and value, followed by what the
/// following text holds.
proof fn lemma_kvn_line(k: Seq<u8>, v: Seq<u8>, rest: Seq<u8>)
    requires
        kvn_key_ok(k),
        kvn_value_ok(v),
    ensures
        kvn_pairs(kvn_line_bytes(k, v) + rest) == seq![(k, v)] + kvn_pairs(rest),
{
    let l = kvn_line_bytes(k, v);
    let s = l + rest;
    let n = l.len() as int;
    let seg = k + seq![0x20u8, 0x3d, 0x20] + v;
    assert(l =~= seg + seq![0x0au8]);
    assert forall|j: int| 0 <= j < n - 1 implies s[j] != 0x0a by {
        if j < k.len() {
            assert(s[j] == k[j]);
        } else if j >= k.len() + 3 {
            assert(s[j] == v[j - k.len() - 3]);
        }
    }
    assert(s[n - 1] == 0x0a);
    lemma_first_of_at(s, 0x0a, n - 1);
    assert(s.subrange(0, n - 1) =~= seg);
    assert(s.subrange(n, s.len() as int) =~= rest);
    lemma_trim_fixed_ends(k);
    assert(!is_ascii_ws(k[0]));
    assert(k[0] < 0x80);
    // the trimmed line is the key, ` =`, and the value after a space
    let t = if v.len() > 0 {
        seg
    } else {
        k + seq![0x20u8, 0x3d]
    };
    if v.len() > 0 {
        lemma_trim_fixed_ends(v);
        assert(!is_ascii_ws(v[v.len() - 1]));
        assert(v[v.len() - 1] < 0x80);
        assert(seg[seg.len() - 1] == v[v.len() - 1]);
        assert(seg[0] == k[0]);
        if seg.len() >= 2 {
            assert(seg[seg.len() - 2] < 0x80) by {
                if v.len() >= 2 {
                    assert(seg[seg.len() - 2] == v[v.len() - 2]);
                }
            }
        }
        if seg.len() >= 3 {
            assert(seg[seg.len() - 3] < 0x80) by {
                if v.len() >= 3 {
                    assert(seg[seg.len() - 3] == v[v.len() - 3]);
                }
            }
        }
        lemma_trim_no_ws(seg);
    } else {
        assert(seg =~= k + seq![0x20u8, 0x3d, 0x20]);
        assert(ws_prefix_len(seg) == 0);
        assert(trim_start(seg) == seg);
        assert(ws_suffix_len(seg) == 1);
        assert(seg.subrange(0, seg.len() - 1) =~= t);
        assert(ws_suffix_len(t) == 0);
        assert(trim_end(t) == t);
    }
    assert(trim(seg) == t);
    // no comment marker starts the line
    assert(!comment_word().is_prefix_of(t)) by {
        if comment_word().is_prefix_of(t) {
            if k.len() >= 7 {
                assert forall|j: int| 0 <= j < 7 implies comment_word()[j] == k[j] by {
                    assert(t[j] == k[j]);
                }
                assert(comment_word().is_prefix_of(k));
            } else {
                assert(t[k.len() as int] == 0x20);
                assert(comment_word()[k.len() as int] != 0x20);
            }
        }
    }
    // the first `=` follows the key and a space
    let e: int = k.len() as int + 1;
    assert forall|j: int| 0 <= j < e implies t[j] != 0x3d by {
        if j < k.len() {
            assert(t[j] == k[j]);
        }
    }
    lemma_first_of_at(t, 0x3d, e);
    assert(t.subrange(0, e) =~= fill(0, 0x20) + k + fill(1, 0x20));
    lemma_trim_spaced(0, k, 1);
    if v.len() > 0 {
        assert(t.subrange(e + 1, t.len() as int) =~= fill(1, 0x20) + v + fill(0, 0x20));
        lemma_trim_spaced(1, v, 0);
    } else {
        assert(t.subrange(e + 1, t.len() as int) =~= v);
    }
    assert(kvn_pair(seg) == Some((k, v)));
}

/// Reading back what the notation writes: lines `KEY = VALUE` written for
/// keys and values the notation can carry read back as the same pairs, in
/// the same order.
pub proof fn kvn_text_reads_back(entries: Seq<(Seq<u8>, Seq<u8>)>)
    requires
        forall|i: int|
            0 <= i < entries.len() ==> kvn_key_ok(#[trigger] entries[i].0) && kvn_value_ok(
                entries[i].1,
            ),
    ensures
        kvn_pairs(kvn_text(entries)) == entries,
    decreases entries.len(),
{
    if entries.len() == 0 {
        assert(kvn_pairs(Seq::<u8>::empty()) =~= Seq::<(Seq<u8>, Seq<u8>)>::empty());
    } else {
        let tail = entries.subrange(1, entries.len() as int);
        assert forall|i: int| 0 <= i < tail.len() implies kvn_key_ok(#[trigger] tail[i].0)
            && kvn_value_ok(tail[i].1) by {
            assert(tail[i] == entries[i + 1]);
        }
        kvn_text_reads_back(tail);
        assert(kvn_key_ok(entries[0].0) && kvn_value_ok(entries[0].1));
        lemma_kvn_line(entries[0].0, entries[0].1, kvn_text(tail));
        assert(seq![(entries[0].0, entries[0].1)] + tail =~= entries);
    }
}

/// Append the bytes of `s`.
fn push_str_bytes(out: &mut Vec<u8>, s: &str)
    ensures
        final(out)@ == old(out)@ + s.spec_bytes(),
{
    let b = s.as_bytes();
    let ghost start = old(out)@;
    let mut i: usize = 0;
    while i < b.len()
        invariant
            i <= b@.len(),
            b@ == s.spec_bytes(),
            out@ == start + b@.subrange(0, i as int),
        decreases b@.len() - i,
    {
        out.push(b[i]);
        proof {
            assert(out@ =~= start + b@.subrange(0, i + 1));
        }
        i = i + 1;
    }
    proof {
        assert(b@.subrange(0, b@.len() as int) =~= b@);
    }
}

/// The KVN line `KEY = VALUE` and its line feed.
pub fn kvn_line(key: &str, value: &str) -> (r: String)
    ensures
        r@ == decode_utf8(kvn_line_bytes(key.spec_bytes(), value.spec_bytes())),
{
    let mut out: Vec<u8> = Vec::new();
    push_str_bytes(&mut out, key);
    out.push(0x20);
    out.push(0x3d);
    out.push(0x20);
    push_str_bytes(&mut out, value);
    out.push(0x0a);
    proof {
        let kb = key.spec_bytes();
        let vb = value.spec_bytes();
        let sep = seq![0x20u8, 0x3d, 0x20];
        let nl = seq![0x0au8];
        assert(out@ =~= kvn_line_bytes(kb, vb));
        encode_utf8_valid_utf8(key@);
        encode_utf8_valid_utf8(value@);
        crate::text::lemma_ascii_valid_utf8(sep);
        crate::text::lemma_ascii_valid_utf8(nl);
        valid_utf8_concat(kb, sep);
        valid_utf8_concat(kb + sep, vb);
        valid_utf8_concat(kb + sep + vb, nl);
        assert(kb + sep + vb + nl =~= kvn_line_bytes(kb, vb));
    }
    crate::text::string_of_bytes(out)
}

} // verus!
