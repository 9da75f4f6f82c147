//! Orbit products: the settings of the SP3 and OEM writers and the header
//! block that opens an SP3 product.

use vstd::prelude::*;
use crate::text::{ascii_chars, decimal_text, lemma_decimal_text, lemma_digits_ascii, push_decimal, string_of_ascii};

verus! {

/// `k` spaces.
pub open spec fn spaces(k: nat) -> Seq<char> {
    Seq::new(k, |i: int| ' ')
}

/// Right-align `s` in `w` columns (`{:>w}`): longer text is kept whole.
pub open spec fn align_right(s: Seq<char>, w: nat) -> Seq<char> {
    if s.len() >= w {
        s
    } else {
        spaces((w - s.len()) as nat) + s
    }
}

/// Left-align `s` in `w` columns (`{:<w}`): longer text is kept whole.
pub open spec fn align_left(s: Seq<char>, w: nat) -> Seq<char> {
    if s.len() >= w {
        s
    } else {
        s + spaces((w - s.len()) as nat)
    }
}

/// The header lines of an SP3 product with `n` epochs of satellite `sat_id`.
pub open spec fn sp3_header(n: nat, sat_id: Seq<char>) -> Seq<Seq<char>> {
    seq![
        "#dP2024  1  1  0  0  0.00000000      "@ + align_right(ascii_chars(decimal_text(n)), 5)
            + " ORBIT IGS20 HLM  POD"@,
        "##  2295      0.00000000   900.00000000 60310 0.0000000000000"@,
        "+    1   "@ + align_left(sat_id, 3)
            + "                                                     "@,
        "++         5                                                                  "@,
        "%c L  cc GPS ccc cccc cccc cccc cccc ccccc ccccc ccccc ccccc"@,
        "%c cc cc ccc ccc cccc cccc cccc cccc ccccc ccccc ccccc ccccc"@,
        "%f  1.2500000  1.025000000  0.00000000000  0.000000000000000"@,
        "%f  0.0000000  0.000000000  0.00000000000  0.000000000000000"@,
        "%i    0    0    0    0      0      0      0      0         0"@,
        "%i    0    0    0    0      0      0      0      0         0"@,
        "/* siderust-pod orbit product"@,
    ]
}

/// Append `k` spaces.
fn push_spaces(s: &mut String, k: usize)
    ensures
        final(s)@ == old(s)@ + spaces(k as nat),
{
    let ghost start = old(s)@;
    let mut i: usize = 0;
    while i < k
        invariant
            i <= k,
            s@ == start + spaces(i as nat),
        decreases k - i,
    {
        proof {
            reveal_strlit(" ");
        }
        s.append(" ");
        proof {
            assert(s@ =~= start + spaces((i + 1) as nat));
        }
        i = i + 1;
    }
}

/// The second header line of an SP3 product states its time frame: it
/// opens with `##`, gives GPS week 2295, a start of 0 seconds into the
/// week, an epoch interval of 900 seconds and the start MJD 60310, and is
/// 61 characters long, whatever the epoch count and satellite.
pub proof fn sp3_time_line(n: nat, sat_id: Seq<char>)
    ensures
        sp3_header(n, sat_id)[1].len() == 61,
        sp3_header(n, sat_id)[1].subrange(0, 2) == "##"@,
        sp3_header(n, sat_id)[1].subrange(4, 8) == "2295"@,
        sp3_header(n, sat_id)[1].subrange(14, 24) == "0.00000000"@,
        sp3_header(n, sat_id)[1].subrange(27, 39) == "900.00000000"@,
        sp3_header(n, sat_id)[1].subrange(40, 45) == "60310"@,
{
    reveal_strlit("##  2295      0.00000000   900.00000000 60310 0.0000000000000");
    reveal_strlit("##");
    reveal_strlit("2295");
    reveal_strlit("0.00000000");
    reveal_strlit("900.00000000");
    reveal_strlit("60310");
    let l = sp3_header(n, sat_id)[1];
    assert(l.subrange(0, 2) =~= "##"@);
    assert(l.subrange(4, 8) =~= "2295"@);
    assert(l.subrange(14, 24) =~= "0.00000000"@);
    assert(l.subrange(27, 39) =~= "900.00000000"@);
    assert(l.subrange(40, 45) =~= "60310"@);
}

/// The first header line of an SP3 product opens a version-d position
/// product starting 2024-01-01 and gives the epoch count right-aligned in
/// five columns ending at column 42 (for fewer than 100000 epochs); the
/// third line lists one satellite, whose three-character identifier stands
/// in columns 10 to 12.
pub proof fn sp3_count_and_satellite_lines(n: nat, sat_id: Seq<char>)
    ensures
        sp3_header(n, sat_id)[0].subrange(0, 7) == "#dP2024"@,
        n < 100000 ==> ({
            let l = sp3_header(n, sat_id)[0];
            let d = ascii_chars(decimal_text(n));
            &&& l.len() == 63
            &&& l.subrange(42 - d.len(), 42) == d
            &&& forall|i: int| 37 <= i < 42 - d.len() ==> l[i] == ' '
            &&& l.subrange(43, 48) == "ORBIT"@
        }),
        sat_id.len() == 3 ==> sp3_header(n, sat_id)[2].subrange(9, 12) == sat_id,
        sp3_header(n, sat_id)[2].subrange(0, 6) == "+    1"@,
{
    reveal_strlit("#dP2024  1  1  0  0  0.00000000      ");
    reveal_strlit(" ORBIT IGS20 HLM  POD");
    reveal_strlit("#dP2024");
    reveal_strlit("ORBIT");
    reveal_strlit("+    1   ");
    reveal_strlit("+    1");
    reveal_strlit("                                                     ");
    let l = sp3_header(n, sat_id)[0];
    assert(l.subrange(0, 7) =~= "#dP2024"@);
    if n < 100000 {
        let d = ascii_chars(decimal_text(n));
        lemma_decimal_text(n);
        lemma_num_digits_le5(n);
        let a = align_right(d, 5);
        assert(a.len() == 5);
        assert(l.subrange(42 - d.len(), 42) =~= d);
        assert(l.subrange(43, 48) =~= "ORBIT"@);
    }
    let m = sp3_header(n, sat_id)[2];
    if sat_id.len() == 3 {
        assert(m.subrange(9, 12) =~= sat_id);
    }
    assert(m.subrange(0, 6) =~= "+    1"@);
}

/// A number below 100000 has at most five digits.
proof fn lemma_num_digits_le5(n: nat)
    requires
        n < 100000,
    ensures
        decimal_text(n).len() <= 5,
{
    reveal_with_fuel(decimal_text, 6);
}

/// The header block of an SP3 product: the version/epoch-count line, the
/// GPS-week line, the satellite list naming `sat_id` and the fixed
/// accuracy, descriptor and comment lines.
pub fn sp3_header_lines(n: usize, sat_id: &str) -> (r: Vec<String>)
    ensures
        r@.len() == 11,
        forall|i: int| 0 <= i < 11 ==> #[trigger] r@[i]@ == sp3_header(n as nat, sat_id@)[i],
        r@[1]@.subrange(27, 39) == "900.00000000"@,
        r@[1]@.subrange(40, 45) == "60310"@,
        r@[1]@.subrange(4, 8) == "2295"@,
{
    let mut digits: Vec<u8> = Vec::new();
    push_decimal(&mut digits, n as u64);
    proof {
        lemma_decimal_text(n as nat);
        lemma_digits_ascii(decimal_text(n as nat));
    }
    let count = string_of_ascii(digits);
    let mut first = String::from_str("#dP2024  1  1  0  0  0.00000000      ");
    let w = crate::text::char_count(count.as_str());
    if w < 5 {
        push_spaces(&mut first, 5 - w);
    }
    first.append(count.as_str());
    first.append(" ORBIT IGS20 HLM  POD");
    let mut third = String::from_str("+    1   ");
    third.append(sat_id);
    let m = crate::text::char_count(sat_id);
    if m < 3 {
        push_spaces(&mut third, 3 - m);
    }
    third.append("                                                     ");
    let mut r: Vec<String> = Vec::new();
    r.push(first);
    r.push(String::from_str("##  2295      0.00000000   900.00000000 60310 0.0000000000000"));
    r.push(third);
    r.push(
        String::from_str(
            "++         5                                                                  ",
        ),
    );
    r.push(String::from_str("%c L  cc GPS ccc cccc cccc cccc cccc ccccc ccccc ccccc ccccc"));
    r.push(String::from_str("%c cc cc ccc ccc cccc cccc cccc cccc ccccc ccccc ccccc ccccc"));
    r.push(String::from_str("%f  1.2500000  1.025000000  0.00000000000  0.000000000000000"));
    r.push(String::from_str("%f  0.0000000  0.000000000  0.00000000000  0.000000000000000"));
    r.push(String::from_str("%i    0    0    0    0      0      0      0      0         0"));
    r.push(String::from_str("%i    0    0    0    0      0      0      0      0         0"));
    r.push(String::from_str("/* siderust-pod orbit product"));
    proof {
        let h = sp3_header(n as nat, sat_id@);
        assert(r@[0]@ =~= h[0]);
        assert(r@[2]@ =~= h[2]);
        sp3_time_line(n as nat, sat_id@);
    }
    r
}

/// Settings of the SP3 writer: the satellite identifier written into the
/// product.
pub struct Sp3ProductWriter {
    sat_id: String,
}

impl Sp3ProductWriter {
    /// A writer for the given satellite identifier (e.g. `"L01"`).
    pub fn new(sat_id: &str) -> (w: Sp3ProductWriter)
        ensures
            w.sat_id()@ == sat_id@,
    {
        Sp3ProductWriter { sat_id: sat_id.to_string() }
    }

    /// The satellite identifier.
    pub closed spec fn sat_id(&self) -> String {
        self.sat_id
    }

    /// The satellite identifier.
    pub fn satellite(&self) -> (s: &str)
        ensures
            s@ == self.sat_id()@,
    {
        self.sat_id.as_str()
    }
}

/// Settings of the OEM writer: the CCSDS object identifier and name.
pub struct OemProductWriter {
    object_id: String,
    object_name: String,
}

impl OemProductWriter {
    /// A writer with the given CCSDS object identifier and name.
    pub fn new(object_id: &str, object_name: &str) -> (w: OemProductWriter)
        ensures
            w.object_id()@ == object_id@,
            w.object_name()@ == object_name@,
    {
        OemProductWriter { object_id: object_id.to_string(), object_name: object_name.to_string() }
    }

    /// The object identifier.
    pub closed spec fn object_id(&self) -> String {
        self.object_id
    }

    /// The object name.
    pub closed spec fn object_name(&self) -> String {
        self.object_name
    }

    /// The object identifier.
    pub fn id(&self) -> (s: &str)
        ensures
            s@ == self.object_id()@,
    {
        self.object_id.as_str()
    }

    /// The object name.
    pub fn name(&self) -> (s: &str)
        ensures
            s@ == self.object_name()@,
    {
        self.object_name.as_str()
    }
}

} // verus!
