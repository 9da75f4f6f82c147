//! NAIF integer identifiers of the bodies covered by the JPL DE planetary
//! kernels (Sun, planets, system barycenters, Moon, SSB).

use vstd::prelude::*;
use vstd::string::StringSliceAdditionalSpecFns;
use crate::text::{trim, trim_at, trim_end, trim_start, ws_prefix_len, ws_suffix_len};

verus! {

/// `u8::to_ascii_uppercase`.
pub open spec fn upper_byte(b: u8) -> u8 {
    if 0x61 <= b <= 0x7a {
        (b - 0x20) as u8
    } else {
        b
    }
}

/// The lookup key of a name: its trimmed bytes, ASCII letters upper-cased,
/// each byte read as the character of the same number.
pub open spec fn lookup_key(name: Seq<u8>) -> Seq<char> {
    trim(name).map_values(|b: u8| upper_byte(b) as char)
}

/// The table of names and NAIF ids.
pub open spec fn naif_table(k: Seq<char>) -> Option<i32> {
    if k == seq!['S', 'S', 'B'] || k == seq![
        'S', 'O', 'L', 'A', 'R', ' ', 'S', 'Y', 'S', 'T', 'E', 'M', ' ', 'B', 'A', 'R', 'Y', 'C',
        'E', 'N', 'T', 'E', 'R',
    ] {
        Some(0)
    } else if k == seq![
        'M', 'E', 'R', 'C', 'U', 'R', 'Y', ' ', 'B', 'A', 'R', 'Y', 'C', 'E', 'N', 'T', 'E', 'R',
    ] {
        Some(1)
    } else if k == seq!['V', 'E', 'N', 'U', 'S', ' ', 'B', 'A', 'R', 'Y', 'C', 'E', 'N', 'T', 'E', 'R'] {
        Some(2)
    } else if k == seq!['E', 'M', 'B'] || k == seq![
        'E', 'A', 'R', 'T', 'H', ' ', 'B', 'A', 'R', 'Y', 'C', 'E', 'N', 'T', 'E', 'R',
    ] || k == seq![
        'E', 'A', 'R', 'T', 'H', ' ', 'M', 'O', 'O', 'N', ' ', 'B', 'A', 'R', 'Y', 'C', 'E', 'N',
        'T', 'E', 'R',
    ] {
        Some(3)
    } else if k == seq!['M', 'A', 'R', 'S', ' ', 'B', 'A', 'R', 'Y', 'C', 'E', 'N', 'T', 'E', 'R'] {
        Some(4)
    } else if k == seq![
        'J', 'U', 'P', 'I', 'T', 'E', 'R', ' ', 'B', 'A', 'R', 'Y', 'C', 'E', 'N', 'T', 'E', 'R',
    ] {
        Some(5)
    } else if k == seq![
        'S', 'A', 'T', 'U', 'R', 'N', ' ', 'B', 'A', 'R', 'Y', 'C', 'E', 'N', 'T', 'E', 'R',
    ] {
        Some(6)
    } else if k == seq![
        'U', 'R', 'A', 'N', 'U', 'S', ' ', 'B', 'A', 'R', 'Y', 'C', 'E', 'N', 'T', 'E', 'R',
    ] {
        Some(7)
    } else if k == seq![
        'N', 'E', 'P', 'T', 'U', 'N', 'E', ' ', 'B', 'A', 'R', 'Y', 'C', 'E', 'N', 'T', 'E', 'R',
    ] {
        Some(8)
    } else if k == seq![
        'P', 'L', 'U', 'T', 'O', ' ', 'B', 'A', 'R', 'Y', 'C', 'E', 'N', 'T', 'E', 'R',
    ] || k == seq!['P', 'L', 'U', 'T', 'O'] {
        Some(9)
    } else if k == seq!['S', 'U', 'N'] {
        Some(10)
    } else if k == seq!['M', 'E', 'R', 'C', 'U', 'R', 'Y'] {
        Some(199)
    } else if k == seq!['V', 'E', 'N', 'U', 'S'] {
        Some(299)
    } else if k == seq!['E', 'A', 'R', 'T', 'H'] {
        Some(399)
    } else if k == seq!['M', 'A', 'R', 'S'] {
        Some(499)
    } else if k == seq!['J', 'U', 'P', 'I', 'T', 'E', 'R'] {
        Some(599)
    } else if k == seq!['S', 'A', 'T', 'U', 'R', 'N'] {
        Some(699)
    } else if k == seq!['U', 'R', 'A', 'N', 'U', 'S'] {
        Some(799)
    } else if k == seq!['N', 'E', 'P', 'T', 'U', 'N', 'E'] {
        Some(899)
    } else if k == seq!['M', 'O', 'O', 'N'] {
        Some(301)
    } else {
        None
    }
}

/// Upper-case every ASCII letter of a byte sequence.
pub open spec fn upper_all(s: Seq<u8>) -> Seq<u8> {
    s.map_values(|b: u8| upper_byte(b))
}

proof fn lemma_upper_ws(s: Seq<u8>)
    ensures
        ws_prefix_len(upper_all(s)) == ws_prefix_len(s),
        ws_suffix_len(upper_all(s)) == ws_suffix_len(s),
{
}

proof fn lemma_upper_trim_start(s: Seq<u8>)
    ensures
        trim_start(upper_all(s)) == upper_all(trim_start(s)),
    decreases s.len(),
{
    lemma_upper_ws(s);
    let k = ws_prefix_len(s);
    if k > 0 {
        let t = s.subrange(k, s.len() as int);
        assert(upper_all(s).subrange(k, s.len() as int) =~= upper_all(t));
        lemma_upper_trim_start(t);
    }
}

proof fn lemma_upper_trim_end(s: Seq<u8>)
    ensures
        trim_end(upper_all(s)) == upper_all(trim_end(s)),
    decreases s.len(),
{
    lemma_upper_ws(s);
    let k = ws_suffix_len(s);
    if k > 0 {
        let t = s.subrange(0, s.len() - k);
        assert(upper_all(s).subrange(0, s.len() - k) =~= upper_all(t));
        lemma_upper_trim_end(t);
    }
}

/// The lookup ignores ASCII case: a name and its upper-cased form resolve
/// to the same id (or both to none).
pub proof fn lookup_ignores_case(name: Seq<u8>)
    ensures
        naif_table(lookup_key(upper_all(name))) == naif_table(lookup_key(name)),
{
    lemma_upper_trim_start(name);
    lemma_upper_trim_end(trim_start(name));
    assert(lookup_key(upper_all(name)) =~= lookup_key(name));
}

/// Whether the key equals the word.
fn key_is(k: &Vec<char>, w: &[char]) -> (r: bool)
    ensures
        r == (k@ == w@),
{
    if k.len() != w.len() {
        return false;
    }
    let mut i: usize = 0;
    while i < k.len()
        invariant
            k@.len() == w@.len(),
            i <= k@.len(),
            forall|q: int| 0 <= q < i ==> k@[q] == w@[q],
        decreases k@.len() - i,
    {
        if k[i] != w[i] {
            return false;
        }
        i = i + 1;
    }
    proof {
        assert(k@ =~= w@);
    }
    true
}

/// The lookup key of a name, computed.
fn key_of(name: &str) -> (k: Vec<char>)
    ensures
        k@ == lookup_key(name.spec_bytes()),
{
    let b = name.as_bytes();
    proof {
        assert(b@.subrange(0, b@.len() as int) =~= b@);
    }
    let (i, j) = trim_at(b, 0, b.len());
    let mut k: Vec<char> = Vec::new();
    let mut q = i;
    while q < j
        invariant
            i <= q <= j <= b@.len(),
            k@ == b@.subrange(i as int, q as int).map_values(|c: u8| upper_byte(c) as char),
        decreases j - q,
    {
        let c = b[q];
        let u: u8 = if 0x61 <= c && c <= 0x7a {
            c - 0x20
        } else {
            c
        };
        k.push(u as char);
        proof {
            assert(k@ =~= b@.subrange(i as int, q + 1).map_values(
                |c: u8| upper_byte(c) as char,
            ));
        }
        q = q + 1;
    }
    k
}

/// Resolve a textual body name, ignoring ASCII case and surrounding
/// whitespace, to its NAIF integer id; `None` for a name outside the table
/// of the bodies covered by the JPL DE planetary kernels.
pub fn naif_id_for_name(name: &str) -> (r: Option<i32>)
    ensures
        r == naif_table(lookup_key(name.spec_bytes())),
{
    let k = key_of(name);
    if key_is(&k, &['S', 'S', 'B']) || key_is(&k, &[
        'S', 'O', 'L', 'A', 'R', ' ', 'S', 'Y', 'S', 'T', 'E', 'M', ' ', 'B', 'A', 'R', 'Y', 'C',
        'E', 'N', 'T', 'E', 'R',
    ]) {
        Some(0)
    } else if key_is(&k, &[
        'M', 'E', 'R', 'C', 'U', 'R', 'Y', ' ', 'B', 'A', 'R', 'Y', 'C', 'E', 'N', 'T', 'E', 'R',
    ]) {
        Some(1)
    } else if key_is(&k, &['V', 'E', 'N', 'U', 'S', ' ', 'B', 'A', 'R', 'Y', 'C', 'E', 'N', 'T', 'E', 'R']) {
        Some(2)
    } else if key_is(&k, &['E', 'M', 'B']) || key_is(&k, &[
        'E', 'A', 'R', 'T', 'H', ' ', 'B', 'A', 'R', 'Y', 'C', 'E', 'N', 'T', 'E', 'R',
    ]) || key_is(&k, &[
        'E', 'A', 'R', 'T', 'H', ' ', 'M', 'O', 'O', 'N', ' ', 'B', 'A', 'R', 'Y', 'C', 'E', 'N',
        'T', 'E', 'R',
    ]) {
        Some(3)
    } else if key_is(&k, &['M', 'A', 'R', 'S', ' ', 'B', 'A', 'R', 'Y', 'C', 'E', 'N', 'T', 'E', 'R']) {
        Some(4)
    } else if key_is(&k, &[
        'J', 'U', 'P', 'I', 'T', 'E', 'R', ' ', 'B', 'A', 'R', 'Y', 'C', 'E', 'N', 'T', 'E', 'R',
    ]) {
        Some(5)
    } else if key_is(&k, &[
        'S', 'A', 'T', 'U', 'R', 'N', ' ', 'B', 'A', 'R', 'Y', 'C', 'E', 'N', 'T', 'E', 'R',
    ]) {
        Some(6)
    } else if key_is(&k, &[
        'U', 'R', 'A', 'N', 'U', 'S', ' ', 'B', 'A', 'R', 'Y', 'C', 'E', 'N', 'T', 'E', 'R',
    ]) {
        Some(7)
    } else if key_is(&k, &[
        'N', 'E', 'P', 'T', 'U', 'N', 'E', ' ', 'B', 'A', 'R', 'Y', 'C', 'E', 'N', 'T', 'E', 'R',
    ]) {
        Some(8)
    } else if key_is(&k, &[
        'P', 'L', 'U', 'T', 'O', ' ', 'B', 'A', 'R', 'Y', 'C', 'E', 'N', 'T', 'E', 'R',
    ]) || key_is(&k, &['P', 'L', 'U', 'T', 'O']) {
        Some(9)
    } else if key_is(&k, &['S', 'U', 'N']) {
        Some(10)
    } else if key_is(&k, &['M', 'E', 'R', 'C', 'U', 'R', 'Y']) {
        Some(199)
    } else if key_is(&k, &['V', 'E', 'N', 'U', 'S']) {
        Some(299)
    } else if key_is(&k, &['E', 'A', 'R', 'T', 'H']) {
        Some(399)
    } else if key_is(&k, &['M', 'A', 'R', 'S']) {
        Some(499)
    } else if key_is(&k, &['J', 'U', 'P', 'I', 'T', 'E', 'R']) {
        Some(599)
    } else if key_is(&k, &['S', 'A', 'T', 'U', 'R', 'N']) {
        Some(699)
    } else if key_is(&k, &['U', 'R', 'A', 'N', 'U', 'S']) {
        Some(799)
    } else if key_is(&k, &['N', 'E', 'P', 'T', 'U', 'N', 'E']) {
        Some(899)
    } else if key_is(&k, &['M', 'O', 'O', 'N']) {
        Some(301)
    } else {
        None
    }
}

} // verus!
