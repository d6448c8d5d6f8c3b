//! Speakable coordinates: every byte value becomes a syllable built from
//! an onset (3 kinds), a vowel (5) and a coda (17), with zero spoken as
//! `om`; a coordinate is spoken value by value.
use vstd::prelude::*;

use crate::coordinate::Coordinate;
use crate::text::{
    chars_vec, dec_chars, parse_u32, parse_u32_spec, push_chars, push_dec_chars, slice_range_chars, split_chars,
    split_on, string_from_chars, trim_end, trim_start, trimmed_range,
};

verus! {

/// Zero is spoken as `om`, the silence between words.
pub const ZERO_SOUND: &'static str = "om";

/// The onset of a syllable: none, voiced `b` or unvoiced `p`.
pub open spec fn onset(x: nat) -> Seq<char> {
    if x == 0 {
        ""@
    } else if x == 1 {
        "b"@
    } else {
        "p"@
    }
}

/// The vowel of a syllable: `a`, `e`, `i`, `o` or `u`.
pub open spec fn vowel(y: nat) -> Seq<char> {
    if y == 0 {
        "a"@
    } else if y == 1 {
        "e"@
    } else if y == 2 {
        "i"@
    } else if y == 3 {
        "o"@
    } else {
        "u"@
    }
}

/// The coda of a syllable: open, six stops, two nasals and eight
/// continuants.
pub open spec fn coda(z: nat) -> Seq<char> {
    if z == 0 {
        ""@
    } else if z == 1 {
        "p"@
    } else if z == 2 {
        "t"@
    } else if z == 3 {
        "k"@
    } else if z == 4 {
        "b"@
    } else if z == 5 {
        "d"@
    } else if z == 6 {
        "g"@
    } else if z == 7 {
        "m"@
    } else if z == 8 {
        "n"@
    } else if z == 9 {
        "s"@
    } else if z == 10 {
        "f"@
    } else if z == 11 {
        "v"@
    } else if z == 12 {
        "l"@
    } else if z == 13 {
        "r"@
    } else if z == 14 {
        "ng"@
    } else if z == 15 {
        "sh"@
    } else {
        "zh"@
    }
}

/// The syllable of a byte: `om` for zero; otherwise, with
/// `value = 1 + x + 3y + 15z`, onset `x`, vowel `y` and coda `z` (so 115,
/// open `o` with the nasal `m`, sounds like the pause of zero).
pub open spec fn syllable(value: u8) -> Seq<char> {
    if value == 0 {
        "om"@
    } else {
        let w = (value - 1) as nat;
        onset(w % 3) + vowel((w / 3) % 5) + coda(w / 15)
    }
}

/// The onset a syllable begins with: 1 for `b`, 2 for `p`, otherwise 0.
pub open spec fn onset_code(s: Seq<char>) -> nat {
    if s[0] == 'b' {
        1
    } else if s[0] == 'p' {
        2
    } else {
        0
    }
}

/// The number of a vowel, or 5 for a character that is none.
pub open spec fn vowel_code(c: char) -> nat {
    if c == 'a' {
        0
    } else if c == 'e' {
        1
    } else if c == 'i' {
        2
    } else if c == 'o' {
        3
    } else if c == 'u' {
        4
    } else {
        5
    }
}

/// The number of a single-letter coda, or 17 for a letter that is none.
pub open spec fn short_coda_code(c: char) -> nat {
    if c == 'p' {
        1
    } else if c == 't' {
        2
    } else if c == 'k' {
        3
    } else if c == 'b' {
        4
    } else if c == 'd' {
        5
    } else if c == 'g' {
        6
    } else if c == 'm' {
        7
    } else if c == 'n' {
        8
    } else if c == 's' {
        9
    } else if c == 'f' {
        10
    } else if c == 'v' {
        11
    } else if c == 'l' {
        12
    } else if c == 'r' {
        13
    } else {
        17
    }
}

/// The number of a coda, or 17 for a text that is none.
pub open spec fn coda_code(s: Seq<char>) -> nat {
    if s.len() == 0 {
        0
    } else if s.len() == 1 {
        short_coda_code(s[0])
    } else if s.len() == 2 && s[1] == 'h' && s[0] == 's' {
        15
    } else if s.len() == 2 && s[1] == 'h' && s[0] == 'z' {
        16
    } else if s.len() == 2 && s[0] == 'n' && s[1] == 'g' {
        14
    } else {
        17
    }
}

/// The onset, vowel and coda numbers a syllable's text is read as.
pub open spec fn syllable_parts(s: Seq<char>) -> (nat, nat, nat) {
    let x = onset_code(s);
    let k: int = if x == 0 { 0 } else { 1 };
    (x, vowel_code(s[k]), coda_code(s.skip(k + 1)))
}

/// Each coda's text reads back as its number.
proof fn lemma_coda_code(z: nat)
    requires
        z < 17,
    ensures
        coda_code(coda(z)) == z,
{
    reveal_strlit("");
    reveal_strlit("p");
    reveal_strlit("t");
    reveal_strlit("k");
    reveal_strlit("b");
    reveal_strlit("d");
    reveal_strlit("g");
    reveal_strlit("m");
    reveal_strlit("n");
    reveal_strlit("s");
    reveal_strlit("f");
    reveal_strlit("v");
    reveal_strlit("l");
    reveal_strlit("r");
    reveal_strlit("ng");
    reveal_strlit("sh");
    reveal_strlit("zh");
    let c = coda(z);
    if z == 0 {
        assert(c.len() == 0);
    } else if z == 1 {
        assert(c =~= seq!['p']);
    } else if z == 2 {
        assert(c =~= seq!['t']);
    } else if z == 3 {
        assert(c =~= seq!['k']);
    } else if z == 4 {
        assert(c =~= seq!['b']);
    } else if z == 5 {
        assert(c =~= seq!['d']);
    } else if z == 6 {
        assert(c =~= seq!['g']);
    } else if z == 7 {
        assert(c =~= seq!['m']);
    } else if z == 8 {
        assert(c =~= seq!['n']);
    } else if z == 9 {
        assert(c =~= seq!['s']);
    } else if z == 10 {
        assert(c =~= seq!['f']);
    } else if z == 11 {
        assert(c =~= seq!['v']);
    } else if z == 12 {
        assert(c =~= seq!['l']);
    } else if z == 13 {
        assert(c =~= seq!['r']);
    } else if z == 14 {
        assert(c =~= seq!['n', 'g']);
    } else if z == 15 {
        assert(c =~= seq!['s', 'h']);
    } else {
        assert(c =~= seq!['z', 'h']);
    }
}

/// A syllable built from an onset, a vowel and a coda reads back as their
/// numbers.
proof fn lemma_syllable_parts(x: nat, y: nat, z: nat)
    requires
        x < 3,
        y < 5,
        z < 17,
    ensures
        syllable_parts(onset(x) + vowel(y) + coda(z)) == (x, y, z),
{
    reveal_strlit("");
    reveal_strlit("b");
    reveal_strlit("p");
    reveal_strlit("a");
    reveal_strlit("e");
    reveal_strlit("i");
    reveal_strlit("o");
    reveal_strlit("u");
    lemma_coda_code(z);
    let o = onset(x);
    let v = vowel(y);
    let s = o + v + coda(z);
    let k: int = if x == 0 { 0 } else { 1 };
    assert(o.len() == k);
    assert(v.len() == 1);
    assert(s[k] == v[0]);
    if x > 0 {
        assert(s[0] == o[0]);
    } else {
        assert(s[0] == v[0]);
    }
    assert(s.skip(k + 1) =~= coda(z));
}

/// Every byte from 1 to 255 has a sound of its own: two different such
/// bytes never sound alike.
pub proof fn lemma_syllables_distinct(a: u8, b: u8)
    requires
        a != 0,
        b != 0,
        a != b,
    ensures
        syllable(a) != syllable(b),
{
    let wa = (a - 1) as nat;
    let wb = (b - 1) as nat;
    lemma_syllable_parts(wa % 3, (wa / 3) % 5, wa / 15);
    lemma_syllable_parts(wb % 3, (wb / 3) % 5, wb / 15);
    assert(wa == 15 * (wa / 15) + 3 * ((wa / 3) % 5) + wa % 3) by (nonlinear_arith)
        requires
            wa < 255,
    ;
    assert(wb == 15 * (wb / 15) + 3 * ((wb / 3) % 5) + wb % 3) by (nonlinear_arith)
        requires
            wb < 255,
    ;
}

fn onset_str(x: usize) -> (r: &'static str)
    requires
        x < 3,
    ensures
        r@ == onset(x as nat),
{
    if x == 0 {
        ""
    } else if x == 1 {
        "b"
    } else {
        "p"
    }
}

fn vowel_str(y: usize) -> (r: &'static str)
    requires
        y < 5,
    ensures
        r@ == vowel(y as nat),
{
    if y == 0 {
        "a"
    } else if y == 1 {
        "e"
    } else if y == 2 {
        "i"
    } else if y == 3 {
        "o"
    } else {
        "u"
    }
}

fn coda_str(z: usize) -> (r: &'static str)
    requires
        z < 17,
    ensures
        r@ == coda(z as nat),
{
    if z == 0 {
        ""
    } else if z == 1 {
        "p"
    } else if z == 2 {
        "t"
    } else if z == 3 {
        "k"
    } else if z == 4 {
        "b"
    } else if z == 5 {
        "d"
    } else if z == 6 {
        "g"
    } else if z == 7 {
        "m"
    } else if z == 8 {
        "n"
    } else if z == 9 {
        "s"
    } else if z == 10 {
        "f"
    } else if z == 11 {
        "v"
    } else if z == 12 {
        "l"
    } else if z == 13 {
        "r"
    } else if z == 14 {
        "ng"
    } else if z == 15 {
        "sh"
    } else {
        "zh"
    }
}

/// Appends the syllable of a byte.
fn push_syllable(v: &mut Vec<char>, value: u8)
    ensures
        final(v)@ == old(v)@ + syllable(value),
{
    if value == 0 {
        push_chars(v, "om");
        return;
    }
    let w = (value - 1) as usize;
    let ghost start = v@;
    push_chars(v, onset_str(w % 3));
    push_chars(v, vowel_str((w / 3) % 5));
    push_chars(v, coda_str(w / 15));
    assert(v@ =~= start + syllable(value));
}

/// The syllable of a byte value.
pub fn byte_to_syllable(value: u8) -> (r: String)
    ensures
        r@ == syllable(value),
{
    let mut v: Vec<char> = Vec::new();
    push_syllable(&mut v, value);
    assert(v@ =~= syllable(value));
    string_from_chars(v.as_slice())
}

/// The four bytes of a value, most significant first.
pub open spec fn be_bytes(v: u32) -> Seq<u8> {
    seq![(v / 0x100_0000) as u8, ((v / 0x1_0000) % 256) as u8, ((v / 256) % 256) as u8, (v % 256) as u8]
}

/// `b` without its leading zero bytes.
pub open spec fn skip_zeros(b: Seq<u8>) -> Seq<u8>
    decreases b.len(),
{
    if b.len() > 0 && b[0] == 0 {
        skip_zeros(b.drop_first())
    } else {
        b
    }
}

/// The syllables of some bytes joined with `-`.
pub open spec fn joined_syllables(b: Seq<u8>) -> Seq<char>
    decreases b.len(),
{
    if b.len() == 0 {
        seq![]
    } else if b.len() == 1 {
        syllable(b[0])
    } else {
        joined_syllables(b.drop_last()) + "-"@ + syllable(b.last())
    }
}

/// How a coordinate value is spoken: `om` for zero, one syllable up to
/// 255, and above that the syllables of its bytes from the first non-zero
/// one, joined with `-`.
pub open spec fn value_syllables(value: u32) -> Seq<char> {
    if value == 0 {
        "om"@
    } else if value <= 255 {
        syllable(value as u8)
    } else {
        joined_syllables(skip_zeros(be_bytes(value)))
    }
}

/// A value whose three high bytes are zero is at most 255.
proof fn lemma_small_value(value: u32)
    requires
        value / 0x100_0000 == 0,
        (value / 0x1_0000) % 256 == 0,
        (value / 256) % 256 == 0,
    ensures
        value <= 255,
{
    let v = value as int;
    assert(v / 0x1_0000 == (v / 256) / 256) by {
        vstd::arithmetic::div_mod::lemma_div_denominator(v, 256, 256);
    }
    assert(v / 0x100_0000 == (v / 0x1_0000) / 256) by {
        vstd::arithmetic::div_mod::lemma_div_denominator(v, 0x1_0000, 256);
    }
    let a = v / 0x1_0000;
    assert(a == 256 * (a / 256) + a % 256) by {
        vstd::arithmetic::div_mod::lemma_fundamental_div_mod(a, 256);
    }
    assert(a == 0);
    let b = v / 256;
    assert(b == 256 * (b / 256) + b % 256) by {
        vstd::arithmetic::div_mod::lemma_fundamental_div_mod(b, 256);
    }
    assert(b == 0);
    assert(v == 256 * (v / 256) + v % 256) by {
        vstd::arithmetic::div_mod::lemma_fundamental_div_mod(v, 256);
    }
}

/// Appends how a coordinate value is spoken.
fn push_value(v: &mut Vec<char>, value: u32)
    ensures
        final(v)@ == old(v)@ + value_syllables(value),
{
    if value == 0 {
        push_chars(v, "om");
        return;
    }
    if value <= 255 {
        push_syllable(v, value as u8);
        return;
    }
    let bytes: [u8; 4] = [
        (value / 0x100_0000) as u8,
        ((value / 0x1_0000) % 256) as u8,
        ((value / 256) % 256) as u8,
        (value % 256) as u8,
    ];
    let ghost b = be_bytes(value);
    assert(bytes@ =~= b);
    let mut s: usize = 0;
    assert(b.skip(0) =~= b);
    while s < 4 && bytes[s] == 0
        invariant
            0 <= s <= 4,
            bytes@ == b,
            skip_zeros(b) == skip_zeros(b.skip(s as int)),
            forall|i: int| 0 <= i < s ==> bytes@[i] == 0,
        decreases 4 - s,
    {
        assert(b.skip(s as int).drop_first() =~= b.skip(s + 1));
        s = s + 1;
    }
    assert(s < 4) by {
        if s == 4 {
            assert(bytes@[0] == 0 && bytes@[1] == 0 && bytes@[2] == 0);
            let q1 = value / 0x100_0000;
            let q2 = (value / 0x1_0000) % 256;
            let q3 = (value / 256) % 256;
            assert(q1 < 256 && q2 < 256 && q3 < 256);
            assert(q1 == 0 && q2 == 0 && q3 == 0);
            lemma_small_value(value);
        }
    }
    assert(skip_zeros(b) == b.skip(s as int));
    let ghost t = b.skip(s as int);
    let ghost start = v@;
    let mut k = s;
    while k < 4
        invariant
            s <= k <= 4,
            s < 4,
            bytes@ == b,
            t == b.skip(s as int),
            v@ == start + joined_syllables(t.take(k - s)),
        decreases 4 - k,
    {
        assert(t.take(k - s + 1).drop_last() =~= t.take(k - s));
        assert(t.take(k - s + 1).last() == bytes[k as int]);
        if k > s {
            push_chars(v, "-");
        } else {
            assert(t.take(0) =~= Seq::<u8>::empty());
        }
        push_syllable(v, bytes[k]);
        assert(v@ =~= start + joined_syllables(t.take(k - s + 1)));
        k = k + 1;
    }
    assert(t.take(4 - s) =~= t);
}

/// How a coordinate value is spoken.
pub fn dim_to_syllables(value: u32) -> (r: String)
    ensures
        r@ == value_syllables(value),
{
    let mut v: Vec<char> = Vec::new();
    push_value(&mut v, value);
    assert(v@ =~= value_syllables(value));
    string_from_chars(v.as_slice())
}

/// Three values of one arm of a coordinate.
#[derive(Debug, Clone, Copy, PartialEq, Eq, Structural)]
pub struct SubCoord {
    pub a: u32,
    pub b: u32,
    pub c: u32,
}

/// An arm spoken with the given separator between its values.
pub open spec fn arm_text(s: SubCoord, sep: Seq<char>) -> Seq<char> {
    value_syllables(s.a) + sep + value_syllables(s.b) + sep + value_syllables(s.c)
}

impl SubCoord {
    pub fn new(a: u32, b: u32, c: u32) -> (r: SubCoord)
        ensures
            r == (SubCoord { a, b, c }),
    {
        SubCoord { a, b, c }
    }

    /// Appends the arm spoken with `sep` between values.
    fn push_spoken(&self, v: &mut Vec<char>, sep: &str)
        ensures
            final(v)@ == old(v)@ + arm_text(*self, sep@),
    {
        let ghost start = v@;
        push_value(v, self.a);
        push_chars(v, sep);
        push_value(v, self.b);
        push_chars(v, sep);
        push_value(v, self.c);
        assert(v@ =~= start + arm_text(*self, sep@));
    }

    /// The arm spoken with spaces between values.
    pub fn pronounce(&self) -> (r: String)
        ensures
            r@ == arm_text(*self, " "@),
    {
        let mut v: Vec<char> = Vec::new();
        self.push_spoken(&mut v, " ");
        assert(v@ =~= arm_text(*self, " "@));
        string_from_chars(v.as_slice())
    }

    /// The arm spoken with ` · ` between values.
    pub fn pronounce_verbose(&self) -> (r: String)
        ensures
            r@ == arm_text(*self, " · "@),
    {
        let mut v: Vec<char> = Vec::new();
        self.push_spoken(&mut v, " · ");
        assert(v@ =~= arm_text(*self, " · "@));
        string_from_chars(v.as_slice())
    }
}

} // verus!

verus! {

/// A coordinate's three arms, ready to be spoken.
#[derive(Debug, Clone, Copy, PartialEq, Eq, Structural)]
pub struct CoordPronunciation {
    /// The Z arm: library, shelf, series.
    pub library: SubCoord,
    /// The Y arm: collection, volume, book.
    pub volume: SubCoord,
    /// The X arm: chapter, section, scroll.
    pub scroll: SubCoord,
}

/// An arm read from text like `1.5.2`: exactly three pieces between dots,
/// each a numeral that fits in a `u32`.
pub open spec fn parse_arm_spec(s: Seq<char>) -> Option<SubCoord> {
    let parts = split_on(s, '.');
    if parts.len() != 3 {
        None
    } else {
        match (parse_u32_spec(parts[0]), parse_u32_spec(parts[1]), parse_u32_spec(parts[2])) {
            (Some(a), Some(b), Some(c)) => Some(SubCoord { a, b, c }),
            _ => None,
        }
    }
}

/// A coordinate read from text like `1.1.1/1.5.2/3.3.3`: exactly three
/// arms between slashes.
#[verifier::opaque]
pub open spec fn parse_spec(s: Seq<char>) -> Option<CoordPronunciation> {
    let parts = split_on(s, '/');
    if parts.len() != 3 {
        None
    } else {
        match (parse_arm_spec(parts[0]), parse_arm_spec(parts[1]), parse_arm_spec(parts[2])) {
            (Some(l), Some(v), Some(c)) => Some(CoordPronunciation { library: l, volume: v, scroll: c }),
            _ => None,
        }
    }
}

/// A coordinate spoken with `om` between arms.
pub open spec fn spoken(p: CoordPronunciation) -> Seq<char> {
    arm_text(p.library, " "@) + " om "@ + arm_text(p.volume, " "@) + " om "@ + arm_text(p.scroll, " "@)
}

/// `s` with every occurrence of `pat` replaced by `rep`, scanning from the
/// left without overlaps.
pub open spec fn replace_all(s: Seq<char>, pat: Seq<char>, rep: Seq<char>) -> Seq<char>
    decreases s.len(),
{
    if pat.len() == 0 || s.len() < pat.len() {
        s
    } else if s.take(pat.len() as int) == pat {
        rep + replace_all(s.skip(pat.len() as int), pat, rep)
    } else {
        seq![s[0]] + replace_all(s.drop_first(), pat, rep)
    }
}

/// Reads an arm.
fn parse_arm(s: &[char]) -> (r: Option<SubCoord>)
    ensures
        r == parse_arm_spec(s@),
{
    let parts = split_chars(s, '.');
    if parts.len() != 3 {
        return None;
    }
    let a = parse_u32(parts[0].as_slice());
    let b = parse_u32(parts[1].as_slice());
    let c = parse_u32(parts[2].as_slice());
    match (a, b, c) {
        (Some(a), Some(b), Some(c)) => Some(SubCoord::new(a, b, c)),
        _ => None,
    }
}

/// Reads a coordinate from characters.
fn parse_chars(s: &[char]) -> (r: Option<CoordPronunciation>)
    ensures
        r == parse_spec(s@),
{
    reveal(parse_spec);
    let parts = split_chars(s, '/');
    if parts.len() != 3 {
        return None;
    }
    let l = parse_arm(parts[0].as_slice());
    let v = parse_arm(parts[1].as_slice());
    let c = parse_arm(parts[2].as_slice());
    match (l, v, c) {
        (Some(l), Some(v), Some(c)) => Some(CoordPronunciation { library: l, volume: v, scroll: c }),
        _ => None,
    }
}

/// Appends `s` with `pat` replaced by `rep`.
fn push_replaced(out: &mut Vec<char>, s: &[char], pat: &str, rep: &str)
    requires
        pat@.len() > 0,
    ensures
        final(out)@ == old(out)@ + replace_all(s@, pat@, rep@),
{
    let p = chars_vec(pat);
    let m = p.len();
    let n = s.len();
    let ghost start = out@;
    let mut i: usize = 0;
    assert(s@.skip(0) =~= s@);
    while i < n
        invariant
            0 <= i <= n,
            n == s@.len(),
            m == p@.len(),
            p@ == pat@,
            m > 0,
            start + replace_all(s@, pat@, rep@) == out@ + replace_all(s@.skip(i as int), pat@, rep@),
        decreases n - i,
    {
        let ghost t = s@.skip(i as int);
        let mut matched = m <= n - i;
        let mut j: usize = 0;
        while matched && j < m
            invariant
                0 <= j <= m,
                m == p@.len(),
                n == s@.len(),
                i <= n,
                matched ==> i + m <= n,
                matched ==> forall|q: int| 0 <= q < j ==> s@[i + q] == p@[q],
                !matched ==> (i + m > n || exists|q: int| 0 <= q < j && s@[i + q] != p@[q]),
            decreases m - j,
        {
            if s[i + j] != p[j] {
                matched = false;
            }
            j = j + 1;
        }
        if matched {
            assert(t.take(m as int) =~= p@);
            assert(t.skip(m as int) =~= s@.skip(i + m));
            push_chars(out, rep);
            i = i + m;
        } else {
            proof {
                if t.len() >= m {
                    if t.take(m as int) == p@ {
                        assert forall|q: int| 0 <= q < m implies s@[i + q] == p@[q] by {
                            assert(t.take(m as int)[q] == t[q]);
                        }
                    }
                }
            }
            assert(t.drop_first() =~= s@.skip(i + 1));
            assert(t[0] == s@[i as int]);
            out.push(s[i]);
            i = i + 1;
        }
    }
    assert(s@.skip(n as int) =~= Seq::<char>::empty());
}

impl CoordPronunciation {
    /// The arms of a coordinate (each value taken modulo 2^32).
    pub fn from_coordinate(coord: &Coordinate) -> (r: CoordPronunciation)
        ensures
            r.library == (SubCoord { a: coord.z.library as u32, b: coord.z.shelf as u32, c: coord.z.series as u32 }),
            r.volume == (SubCoord { a: coord.y.collection as u32, b: coord.y.volume as u32, c: coord.y.book as u32 }),
            r.scroll == (SubCoord { a: coord.x.chapter as u32, b: coord.x.section as u32, c: coord.x.scroll as u32 }),
    {
        CoordPronunciation {
            library: SubCoord::new(
                coord.z.library as u32,
                coord.z.shelf as u32,
                coord.z.series as u32,
            ),
            volume: SubCoord::new(coord.y.collection as u32, coord.y.volume as u32, coord.y.book as u32),
            scroll: SubCoord::new(coord.x.chapter as u32, coord.x.section as u32, coord.x.scroll as u32),
        }
    }

    /// Reads a coordinate like `1.1.1/1.5.2/3.3.3`.
    pub fn parse(s: &str) -> (r: Option<CoordPronunciation>)
        ensures
            r == parse_spec(s@),
    {
        let cs = chars_vec(s);
        parse_chars(cs.as_slice())
    }

    /// Appends the three arms with `arm_sep` between values and `between`
    /// between arms.
    fn push_arms(&self, v: &mut Vec<char>, arm_sep: &str, between: &str)
        ensures
            final(v)@ == old(v)@ + arm_text(self.library, arm_sep@) + between@ + arm_text(self.volume, arm_sep@)
                + between@ + arm_text(self.scroll, arm_sep@),
    {
        let ghost start = v@;
        self.library.push_spoken(v, arm_sep);
        push_chars(v, between);
        self.volume.push_spoken(v, arm_sep);
        push_chars(v, between);
        self.scroll.push_spoken(v, arm_sep);
        assert(v@ =~= start + arm_text(self.library, arm_sep@) + between@ + arm_text(self.volume, arm_sep@)
            + between@ + arm_text(self.scroll, arm_sep@));
    }

    /// The coordinate spoken with `om` between arms.
    pub fn pronounce(&self) -> (r: String)
        ensures
            r@ == spoken(*self),
    {
        let mut v: Vec<char> = Vec::new();
        self.push_arms(&mut v, " ", " om ");
        assert(v@ =~= spoken(*self));
        string_from_chars(v.as_slice())
    }

    /// The coordinate spoken with ` / ` between arms.
    pub fn pronounce_compact(&self) -> (r: String)
        ensures
            r@ == arm_text(self.library, " "@) + " / "@ + arm_text(self.volume, " "@) + " / "@ + arm_text(
                self.scroll,
                " "@,
            ),
    {
        let mut v: Vec<char> = Vec::new();
        self.push_arms(&mut v, " ", " / ");
        assert(v@ =~= arm_text(self.library, " "@) + " / "@ + arm_text(self.volume, " "@) + " / "@ + arm_text(
            self.scroll,
            " "@,
        ));
        string_from_chars(v.as_slice())
    }

    /// The coordinate spoken with the arms named.
    pub fn pronounce_verbose(&self) -> (r: String)
        ensures
            r@ == "Library: "@ + arm_text(self.library, " · "@) + " om Volume: "@ + arm_text(
                self.volume,
                " · "@,
            ) + " om Scroll: "@ + arm_text(self.scroll, " · "@),
    {
        let mut v: Vec<char> = Vec::new();
        push_chars(&mut v, "Library: ");
        self.library.push_spoken(&mut v, " · ");
        push_chars(&mut v, " om Volume: ");
        self.volume.push_spoken(&mut v, " · ");
        push_chars(&mut v, " om Scroll: ");
        self.scroll.push_spoken(&mut v, " · ");
        assert(v@ =~= "Library: "@ + arm_text(self.library, " · "@) + " om Volume: "@ + arm_text(
            self.volume,
            " · "@,
        ) + " om Scroll: "@ + arm_text(self.scroll, " · "@));
        string_from_chars(v.as_slice())
    }

    /// A phonetic hint: the spoken form with `sh`, `zh` and `ng` written
    /// `ʃ`, `ʒ` and `ŋ`.
    pub fn ipa_hint(&self) -> (r: String)
        ensures
            r@ == replace_all(replace_all(replace_all(spoken(*self), "sh"@, "ʃ"@), "zh"@, "ʒ"@), "ng"@, "ŋ"@),
    {
        let mut v: Vec<char> = Vec::new();
        self.push_arms(&mut v, " ", " om ");
        assert(v@ =~= spoken(*self));
        proof {
            reveal_strlit("sh");
            reveal_strlit("zh");
            reveal_strlit("ng");
        }
        let mut a: Vec<char> = Vec::new();
        push_replaced(&mut a, v.as_slice(), "sh", "ʃ");
        assert(a@ =~= replace_all(spoken(*self), "sh"@, "ʃ"@));
        let mut b: Vec<char> = Vec::new();
        push_replaced(&mut b, a.as_slice(), "zh", "ʒ");
        assert(b@ =~= replace_all(a@, "zh"@, "ʒ"@));
        let mut c: Vec<char> = Vec::new();
        push_replaced(&mut c, b.as_slice(), "ng", "ŋ");
        assert(c@ =~= replace_all(b@, "ng"@, "ŋ"@));
        string_from_chars(c.as_slice())
    }
}

} // verus!

verus! {

/// The SSML document that speaks coordinate text `coord` at `rate`, or a
/// message when it is not a coordinate.
pub open spec fn ssml_text(coord: Seq<char>, rate: Seq<char>) -> Seq<char> {
    match parse_spec(coord) {
        None => "<speak>Invalid coordinate: "@ + coord + "</speak>"@,
        Some(p) => "<speak>\n  <prosody rate=\""@ + rate + "\">\n    <say-as interpret-as=\"spell-out\">"@ + coord
            + "</say-as>\n    <break time=\"200ms\"/>\n    "@ + spoken(p) + "\n  </prosody>\n</speak>"@,
    }
}

/// SSML for text-to-speech engines: the coordinate spelled out, a pause,
/// then its syllables.
#[verifier::rlimit(40)]
pub fn to_ssml(coord: &str, rate: &str) -> (r: String)
    ensures
        r@ == ssml_text(coord@, rate@),
{
    let mut v: Vec<char> = Vec::new();
    match CoordPronunciation::parse(coord) {
        None => {
            push_chars(&mut v, "<speak>Invalid coordinate: ");
            push_chars(&mut v, coord);
            push_chars(&mut v, "</speak>");
        },
        Some(p) => {
            push_chars(&mut v, "<speak>\n  <prosody rate=\"");
            push_chars(&mut v, rate);
            push_chars(&mut v, "\">\n    <say-as interpret-as=\"spell-out\">");
            push_chars(&mut v, coord);
            push_chars(&mut v, "</say-as>\n    <break time=\"200ms\"/>\n    ");
            p.push_arms(&mut v, " ", " om ");
            push_chars(&mut v, "\n  </prosody>\n</speak>");
        },
    }
    assert(v@ =~= ssml_text(coord@, rate@));
    string_from_chars(v.as_slice())
}

/// The row of the syllable table for value `v`.
pub open spec fn table_row(v: u8) -> Seq<char> {
    let w = (v - 1) as nat;
    "| "@ + dec_chars(v as nat) + " | "@ + syllable(v) + " | "@ + (if v == 0 {
        "silence"@
    } else {
        "1 + "@ + dec_chars(w % 3) + " + 3×"@ + dec_chars((w / 3) % 5) + " + 15×"@ + dec_chars(w / 15)
    }) + " |\n"@
}

/// The rows of the syllable table for values below `n`.
pub open spec fn table_rows(n: nat) -> Seq<char>
    decreases n,
{
    if n == 0 {
        seq![]
    } else {
        table_rows((n - 1) as nat) + table_row((n - 1) as u8)
    }
}

/// The coordinate rows: one per coordinate that parses, with its spoken
/// form.
pub open spec fn coordinate_rows(cs: Seq<Seq<char>>) -> Seq<char>
    decreases cs.len(),
{
    if cs.len() == 0 {
        seq![]
    } else {
        coordinate_rows(cs.drop_last()) + coordinate_row(cs.last())
    }
}

/// The header of the pronunciation guide.
pub open spec fn guide_header() -> Seq<char> {
    "# Phext Coordinate Pronunciation Guide\n\n"@ + "## The 3×5×17+1 System\n\n"@
        + "Each coordinate component maps to a speakable syllable.\n"@
        + "Zero = \"om\" (silence). Values 1-255 encode mouth position:\n\n"@
        + "| Value | Syllable | Formula |\n"@ + "|-------|----------|--------|\n"@
}

/// The heading of the coordinate table of the guide.
pub open spec fn coordinates_header() -> Seq<char> {
    "\n## Coordinates\n\n"@ + "| Coordinate | Pronunciation |\n"@ + "|------------|---------------|\n"@
}

/// The pronunciation guide: how values 0 to 15 are spoken, then the given
/// coordinates that parse, spoken.
pub open spec fn guide_text(cs: Seq<Seq<char>>) -> Seq<char> {
    guide_header() + table_rows(16) + coordinates_header() + coordinate_rows(cs)
}

/// Appends the syllable table row for value `v`.
fn push_table_row(out: &mut Vec<char>, v: u8)
    ensures
        final(out)@ == old(out)@ + table_row(v),
{
    let ghost start = out@;
    push_chars(out, "| ");
    push_dec_chars(out, v as usize);
    push_chars(out, " | ");
    push_syllable(out, v);
    push_chars(out, " | ");
    if v == 0 {
        push_chars(out, "silence");
    } else {
        let w = (v - 1) as usize;
        push_chars(out, "1 + ");
        push_dec_chars(out, w % 3);
        push_chars(out, " + 3×");
        push_dec_chars(out, (w / 3) % 5);
        push_chars(out, " + 15×");
        push_dec_chars(out, w / 15);
    }
    push_chars(out, " |\n");
    assert(out@ =~= start + table_row(v));
}

/// The row of the coordinate table for coordinate text `c`.
pub open spec fn coordinate_row(c: Seq<char>) -> Seq<char> {
    match parse_spec(c) {
        Some(p) => "| "@ + c + " | "@ + spoken(p) + " |\n"@,
        None => seq![],
    }
}

/// Appends the coordinate table row of `coord`.
#[verifier::rlimit(40)]
fn push_coordinate_row(out: &mut Vec<char>, coord: &str)
    ensures
        final(out)@ == old(out)@ + coordinate_row(coord@),
{
    let ghost start = out@;
    match CoordPronunciation::parse(coord) {
        Some(p) => {
            push_chars(out, "| ");
            push_chars(out, coord);
            push_chars(out, " | ");
            p.push_arms(out, " ", " om ");
            push_chars(out, " |\n");
        },
        None => {},
    }
    assert(out@ =~= start + coordinate_row(coord@));
}


/// A pronunciation guide in Markdown for the given coordinates.
pub fn generate_pronunciation_doc(coordinates: &[&str]) -> (r: String)
    ensures
        r@ == guide_text(coordinates@.map_values(|s: &str| s@)),
{
    let ghost cs = coordinates@.map_values(|s: &str| s@);
    let mut out: Vec<char> = Vec::new();
    push_chars(&mut out, "# Phext Coordinate Pronunciation Guide\n\n");
    push_chars(&mut out, "## The 3×5×17+1 System\n\n");
    push_chars(&mut out, "Each coordinate component maps to a speakable syllable.\n");
    push_chars(&mut out, "Zero = \"om\" (silence). Values 1-255 encode mouth position:\n\n");
    push_chars(&mut out, "| Value | Syllable | Formula |\n");
    push_chars(&mut out, "|-------|----------|--------|\n");
    assert(out@ =~= guide_header());
    let mut v: u8 = 0;
    while v <= 15
        invariant
            0 <= v <= 16,
            out@ == guide_header() + table_rows(v as nat),
        decreases 16 - v,
    {
        push_table_row(&mut out, v);
        assert(out@ =~= guide_header() + table_rows((v + 1) as nat));
        v = v + 1;
    }
    push_chars(&mut out, "\n## Coordinates\n\n");
    push_chars(&mut out, "| Coordinate | Pronunciation |\n");
    push_chars(&mut out, "|------------|---------------|\n");
    let ghost head = guide_header() + table_rows(16) + coordinates_header();
    assert(out@ =~= head);
    let mut k: usize = 0;
    while k < coordinates.len()
        invariant
            0 <= k <= coordinates@.len(),
            cs == coordinates@.map_values(|s: &str| s@),
            out@ == head + coordinate_rows(cs.take(k as int)),
        decreases coordinates@.len() - k,
    {
        let coord = coordinates[k];
        assert(cs.take(k + 1).drop_last() =~= cs.take(k as int));
        assert(cs.take(k + 1).last() == coord@);
        push_coordinate_row(&mut out, coord);
        assert(out@ =~= head + coordinate_rows(cs.take(k + 1)));
        k = k + 1;
    }
    assert(cs.take(k as int) =~= cs);
    string_from_chars(out.as_slice())
}

/// A pronunciation whose arms hold the given values.
fn arms(a: [u32; 9]) -> (r: CoordPronunciation)
    ensures
        r == (CoordPronunciation {
            library: SubCoord { a: a[0], b: a[1], c: a[2] },
            volume: SubCoord { a: a[3], b: a[4], c: a[5] },
            scroll: SubCoord { a: a[6], b: a[7], c: a[8] },
        }),
{
    CoordPronunciation {
        library: SubCoord::new(a[0], a[1], a[2]),
        volume: SubCoord::new(a[3], a[4], a[5]),
        scroll: SubCoord::new(a[6], a[7], a[8]),
    }
}

/// The spoken form of the coordinate with the given nine values.
pub open spec fn spoken_values(a: Seq<u32>) -> Seq<char> {
    spoken(
        CoordPronunciation {
            library: SubCoord { a: a[0], b: a[1], c: a[2] },
            volume: SubCoord { a: a[3], b: a[4], c: a[5] },
            scroll: SubCoord { a: a[6], b: a[7], c: a[8] },
        },
    )
}

/// Coordinates with a meaning: each with its text, its meaning and its
/// spoken form.
pub fn special_coords() -> (r: Vec<(&'static str, &'static str, String)>)
    ensures
        r@.len() == 6,
        r@[0].0@ == "1.1.1/1.1.1/1.1.1"@ && r@[0].1@ == "Origin"@ && r@[0].2@ == spoken_values(
            seq![1, 1, 1, 1, 1, 1, 1, 1, 1],
        ),
        r@[1].0@ == "3.1.4/1.5.9/2.6.5"@ && r@[1].1@ == "Pi / Ringworld Alpha / Verse"@ && r@[1].2@
            == spoken_values(seq![3, 1, 4, 1, 5, 9, 2, 6, 5]),
        r@[2].0@ == "9.9.9/9.9.9/9.9.9"@ && r@[2].1@ == "Boundary / Beauty"@ && r@[2].2@ == spoken_values(
            seq![9, 9, 9, 9, 9, 9, 9, 9, 9],
        ),
        r@[3].0@ == "2.3.5/7.2.4/8.1.5"@ && r@[3].1@ == "Lux (mod 9+1 primes)"@ && r@[3].2@ == spoken_values(
            seq![2, 3, 5, 7, 2, 4, 8, 1, 5],
        ),
        r@[4].0@ == "1.5.2/3.7.3/9.1.1"@ && r@[4].1@ == "Phex"@ && r@[4].2@ == spoken_values(
            seq![1, 5, 2, 3, 7, 3, 9, 1, 1],
        ),
        r@[5].0@ == "1.1.1/10.10.10/1.5.2"@ && r@[5].1@ == "Emi's Resurrection"@ && r@[5].2@ == spoken_values(
            seq![1, 1, 1, 10, 10, 10, 1, 5, 2],
        ),
{
    let mut r: Vec<(&'static str, &'static str, String)> = Vec::new();
    let a0 = [1u32, 1, 1, 1, 1, 1, 1, 1, 1];
    assert(a0@ =~= seq![1u32, 1, 1, 1, 1, 1, 1, 1, 1]);
    r.push(("1.1.1/1.1.1/1.1.1", "Origin", arms(a0).pronounce()));
    let a1 = [3u32, 1, 4, 1, 5, 9, 2, 6, 5];
    assert(a1@ =~= seq![3u32, 1, 4, 1, 5, 9, 2, 6, 5]);
    r.push(("3.1.4/1.5.9/2.6.5", "Pi / Ringworld Alpha / Verse", arms(a1).pronounce()));
    let a2 = [9u32, 9, 9, 9, 9, 9, 9, 9, 9];
    assert(a2@ =~= seq![9u32, 9, 9, 9, 9, 9, 9, 9, 9]);
    r.push(("9.9.9/9.9.9/9.9.9", "Boundary / Beauty", arms(a2).pronounce()));
    let a3 = [2u32, 3, 5, 7, 2, 4, 8, 1, 5];
    assert(a3@ =~= seq![2u32, 3, 5, 7, 2, 4, 8, 1, 5]);
    r.push(("2.3.5/7.2.4/8.1.5", "Lux (mod 9+1 primes)", arms(a3).pronounce()));
    let a4 = [1u32, 5, 2, 3, 7, 3, 9, 1, 1];
    assert(a4@ =~= seq![1u32, 5, 2, 3, 7, 3, 9, 1, 1]);
    r.push(("1.5.2/3.7.3/9.1.1", "Phex", arms(a4).pronounce()));
    let a5 = [1u32, 1, 1, 10, 10, 10, 1, 5, 2];
    assert(a5@ =~= seq![1u32, 1, 1, 10, 10, 10, 1, 5, 2]);
    r.push(("1.1.1/10.10.10/1.5.2", "Emi's Resurrection", arms(a5).pronounce()));
    r
}

} // verus!

verus! {

/// What a syllable from 1 to 15 stands for: the onset (open, voiced,
/// unvoiced) and the element of the vowel.
pub open spec fn meaning_of(v: u8) -> Seq<char> {
    if v == 1 {
        "Open Earth (a)"@
    } else if v == 2 {
        "Voiced Earth (ba)"@
    } else if v == 3 {
        "Unvoiced Earth (pa)"@
    } else if v == 4 {
        "Open Water (e)"@
    } else if v == 5 {
        "Voiced Water (be)"@
    } else if v == 6 {
        "Unvoiced Water (pe)"@
    } else if v == 7 {
        "Open Fire (i)"@
    } else if v == 8 {
        "Voiced Fire (bi)"@
    } else if v == 9 {
        "Unvoiced Fire (pi)"@
    } else if v == 10 {
        "Open Air (o)"@
    } else if v == 11 {
        "Voiced Air (bo)"@
    } else if v == 12 {
        "Unvoiced Air (po)"@
    } else if v == 13 {
        "Open Space (u)"@
    } else if v == 14 {
        "Voiced Space (bu)"@
    } else if v == 15 {
        "Unvoiced Space (pu)"@
    } else {
        ""@
    }
}

/// What the syllable of a value from 1 to 15 stands for (empty otherwise).
pub fn syllable_meaning(v: u8) -> (r: &'static str)
    ensures
        r@ == meaning_of(v),
{
    match v {
        1 => "Open Earth (a)",
        2 => "Voiced Earth (ba)",
        3 => "Unvoiced Earth (pa)",
        4 => "Open Water (e)",
        5 => "Voiced Water (be)",
        6 => "Unvoiced Water (pe)",
        7 => "Open Fire (i)",
        8 => "Voiced Fire (bi)",
        9 => "Unvoiced Fire (pi)",
        10 => "Open Air (o)",
        11 => "Voiced Air (bo)",
        12 => "Unvoiced Air (po)",
        13 => "Open Space (u)",
        14 => "Voiced Space (bu)",
        15 => "Unvoiced Space (pu)",
        _ => "",
    }
}

/// A character that can be part of coordinate text: a digit, `.` or `/`.
pub open spec fn coord_char(c: char) -> bool {
    ('0' <= c <= '9') || c == '.' || c == '/'
}

/// The length of the run of coordinate characters at `start`.
pub open spec fn run_len(cs: Seq<char>, start: int) -> nat
    decreases cs.len() - start,
{
    if start < 0 || start >= cs.len() || !coord_char(cs[start]) {
        0
    } else {
        1 + run_len(cs, start + 1)
    }
}

/// How many times `c` occurs in `s`.
pub open spec fn char_count(s: Seq<char>, c: char) -> nat
    decreases s.len(),
{
    if s.len() == 0 {
        0
    } else {
        char_count(s.drop_last(), c) + if s.last() == c {
            1nat
        } else {
            0nat
        }
    }
}

/// Whether a run of coordinate characters is shaped like a coordinate:
/// three arms between two slashes, each of three values between two dots.
pub open spec fn coordinate_shaped(run: Seq<char>) -> bool {
    let parts = split_on(run, '/');
    &&& parts.len() == 3
    &&& forall|i: int| 0 <= i < 3 ==> #[trigger] split_on(parts[i], '.').len() == 3
}

/// The coordinate text starting at `start`, and where it ends, when the
/// run of coordinate characters there is shaped like a coordinate.
pub open spec fn coordinate_at(cs: Seq<char>, start: int) -> Option<(Seq<char>, int)> {
    let run = cs.subrange(start, start + run_len(cs, start));
    if coordinate_shaped(run) {
        Some((run, start + run_len(cs, start)))
    } else {
        None
    }
}

/// A run never passes the end.
proof fn lemma_run_len(cs: Seq<char>, start: int)
    requires
        0 <= start <= cs.len(),
    ensures
        start + run_len(cs, start) <= cs.len(),
    decreases cs.len() - start,
{
    if start < cs.len() && coord_char(cs[start]) {
        lemma_run_len(cs, start + 1);
    }
}

/// Reads the coordinate text that starts at `start`, if the run of digits,
/// dots and slashes there is shaped like a coordinate; gives it with the
/// position after it.
pub fn try_parse_coord(chars: &[char], start: usize) -> (r: Option<(String, usize)>)
    requires
        start <= chars@.len(),
    ensures
        match r {
            Some((s, end)) => coordinate_at(chars@, start as int) == Some((s@, end as int)),
            None => coordinate_at(chars@, start as int) is None,
        },
{
    let n = chars.len();
    let mut i = start;
    while i < n && (('0' <= chars[i] && chars[i] <= '9') || chars[i] == '.' || chars[i] == '/')
        invariant
            start <= i <= n,
            n == chars@.len(),
            run_len(chars@, start as int) == (i - start) + run_len(chars@, i as int),
        decreases n - i,
    {
        i = i + 1;
    }
    proof {
        lemma_run_len(chars@, start as int);
        assert(run_len(chars@, i as int) == 0);
    }
    let run = crate::text::slice_range_chars(chars, start, i);
    assert(run@ == chars@.subrange(start as int, start + run_len(chars@, start as int)));
    let parts = split_chars(run, '/');
    if parts.len() != 3 {
        return None;
    }
    let mut k: usize = 0;
    while k < 3
        invariant
            0 <= k <= 3,
            parts@.len() == 3,
            run@ == chars@.subrange(start as int, start + run_len(chars@, start as int)),
            i == start + run_len(chars@, start as int),
            parts@.len() == split_on(run@, '/').len(),
            forall|j: int| 0 <= j < parts@.len() ==> (#[trigger] parts@[j])@ == split_on(run@, '/')[j],
            forall|j: int| 0 <= j < k ==> #[trigger] split_on(split_on(run@, '/')[j], '.').len() == 3,
        decreases 3 - k,
    {
        let arms = split_chars(parts[k].as_slice(), '.');
        if arms.len() != 3 {
            assert(split_on(split_on(run@, '/')[k as int], '.').len() != 3);
            assert(!coordinate_shaped(run@));
            return None;
        }
        k = k + 1;
    }
    Some((string_from_chars(run), i))
}

/// Strict order on character sequences: by the first differing character,
/// a proper prefix first (the order of strings).
pub open spec fn text_lt(a: Seq<char>, b: Seq<char>) -> bool
    decreases a.len(),
{
    if a.len() == 0 {
        b.len() > 0
    } else if b.len() == 0 {
        false
    } else if a[0] != b[0] {
        a[0] < b[0]
    } else {
        text_lt(a.drop_first(), b.drop_first())
    }
}

/// Whether `a` comes before `b` in string order.
pub fn chars_before(a: &[char], b: &[char]) -> (r: bool)
    ensures
        r == text_lt(a@, b@),
{
    let mut i: usize = 0;
    assert(a@.skip(0) =~= a@);
    assert(b@.skip(0) =~= b@);
    while i < a.len() && i < b.len() && a[i] == b[i]
        invariant
            0 <= i <= a@.len(),
            i <= b@.len(),
            text_lt(a@, b@) == text_lt(a@.skip(i as int), b@.skip(i as int)),
        decreases a@.len() - i,
    {
        assert(a@.skip(i as int).drop_first() =~= a@.skip(i + 1));
        assert(b@.skip(i as int).drop_first() =~= b@.skip(i + 1));
        i = i + 1;
    }
    if i == a.len() {
        i < b.len()
    } else if i == b.len() {
        false
    } else {
        assert(a@.skip(i as int)[0] == a@[i as int]);
        assert(b@.skip(i as int)[0] == b@[i as int]);
        a[i] < b[i]
    }
}

/// The coordinate texts found by scanning from position `i`: at each digit
/// where a coordinate starts, it is taken and the scan goes on after it;
/// otherwise the scan moves one character on.
pub open spec fn found_from(cs: Seq<char>, i: int) -> Seq<Seq<char>>
    decreases cs.len() - i,
{
    if i < 0 || i >= cs.len() {
        seq![]
    } else if '0' <= cs[i] <= '9' && coordinate_at(cs, i) is Some {
        let (t, end) = coordinate_at(cs, i)->0;
        if i < end <= cs.len() {
            seq![t] + found_from(cs, end)
        } else {
            found_from(cs, i + 1)
        }
    } else {
        found_from(cs, i + 1)
    }
}

/// Whether a list of texts is strictly increasing in string order.
pub open spec fn texts_sorted(s: Seq<Seq<char>>) -> bool {
    forall|i: int, j: int| 0 <= i < j < s.len() ==> text_lt(#[trigger] s[i], #[trigger] s[j])
}

} // verus!

verus! {

/// The texts of a list of character vectors.
pub open spec fn texts_of(v: Seq<Vec<char>>) -> Seq<Seq<char>> {
    v.map_values(|y: Vec<char>| y@)
}

/// The texts of a list of strings.
pub open spec fn strings_of(v: Seq<String>) -> Seq<Seq<char>> {
    v.map_values(|s: String| s@)
}

/// Adds text `t` to a strictly increasing list unless it is there.
fn insert_text(v: &mut Vec<Vec<char>>, t: Vec<char>)
    requires
        texts_sorted(texts_of(old(v)@)),
    ensures
        texts_sorted(texts_of(final(v)@)),
        forall|x: Seq<char>|
            #[trigger] texts_of(final(v)@).contains(x) <==> (texts_of(old(v)@).contains(x)
                || x == t@),
{
    let ghost tv = t@;
    let ghost old_s = texts_of(v@);
    let mut p: usize = 0;
    while p < v.len() && chars_before(v[p].as_slice(), t.as_slice())
        invariant
            0 <= p <= v@.len(),
            old_s == texts_of(v@),
            t@ == tv,
            forall|i: int| 0 <= i < p ==> text_lt(#[trigger] old_s[i], tv),
        decreases v@.len() - p,
    {
        assert(old_s[p as int] == v@[p as int]@);
        p = p + 1;
    }
    if p < v.len() && !chars_before(t.as_slice(), v[p].as_slice()) {
        proof {
            assert(old_s[p as int] == v@[p as int]@);
            lemma_text_lt_total(old_s[p as int], tv);
        }
        return;
    }
    proof {
        if p < v@.len() {
            assert(old_s[p as int] == v@[p as int]@);
        }
    }
    v.insert(p, t);
    let ghost new_s = texts_of(v@);
    assert(new_s =~= old_s.insert(p as int, tv));
    proof {
        assert forall|i: int, j: int| 0 <= i < j < new_s.len() implies text_lt(#[trigger] new_s[i], #[trigger] new_s[j]) by {
            if i < p && j == p {
            } else if i < p && j > p {
                assert(new_s[j] == old_s[j - 1]);
                if j - 1 > i {
                }
                if p < old_s.len() {
                    lemma_text_lt_trans(old_s[i], tv, old_s[p as int]);
                    if p < j - 1 {
                        lemma_text_lt_trans(old_s[i], old_s[p as int], old_s[j - 1]);
                    }
                }
            } else if i == p {
                assert(new_s[j] == old_s[j - 1]);
                if p < j - 1 {
                    lemma_text_lt_trans(tv, old_s[p as int], old_s[j - 1]);
                }
            } else if i > p {
                assert(new_s[i] == old_s[i - 1]);
                assert(new_s[j] == old_s[j - 1]);
            } else {
                assert(new_s[i] == old_s[i] && new_s[j] == old_s[j]);
            }
        }
        assert forall|x: Seq<char>| #[trigger] new_s.contains(x) <==> (old_s.contains(x) || x == tv) by {
            if new_s.contains(x) {
                let i = choose|i: int| 0 <= i < new_s.len() && new_s[i] == x;
                if i < p {
                    assert(old_s[i] == x);
                } else if i > p {
                    assert(old_s[i - 1] == x);
                }
            }
            if old_s.contains(x) {
                let i = choose|i: int| 0 <= i < old_s.len() && old_s[i] == x;
                if i < p {
                    assert(new_s[i] == x);
                } else {
                    assert(new_s[i + 1] == x);
                }
            }
            if x == tv {
                assert(new_s[p as int] == tv);
            }
        }
    }
}

/// String order is total.
pub proof fn lemma_text_lt_total(a: Seq<char>, b: Seq<char>)
    ensures
        text_lt(a, b) || text_lt(b, a) || a == b,
    decreases a.len(),
{
    if a.len() > 0 && b.len() > 0 && a[0] == b[0] {
        lemma_text_lt_total(a.drop_first(), b.drop_first());
        if a.drop_first() == b.drop_first() {
            assert(a =~= seq![a[0]] + a.drop_first());
            assert(b =~= seq![b[0]] + b.drop_first());
        }
    } else if a.len() == 0 && b.len() == 0 {
        assert(a =~= b);
    }
}

/// String order is transitive.
pub proof fn lemma_text_lt_trans(a: Seq<char>, b: Seq<char>, c: Seq<char>)
    requires
        text_lt(a, b),
        text_lt(b, c),
    ensures
        text_lt(a, c),
    decreases a.len(),
{
    if a.len() > 0 && b.len() > 0 && c.len() > 0 && a[0] == b[0] && b[0] == c[0] {
        lemma_text_lt_trans(a.drop_first(), b.drop_first(), c.drop_first());
    }
}

/// The row a line of a coordinate list gives: the line without surrounding
/// white space and its pronunciation, when that text holds a slash and
/// reads as a coordinate.
pub fn batch_row(line: &str) -> (r: Option<(String, String)>)
    ensures
        ({
            let t = trim_end(trim_start(line@));
            &&& r is Some <==> (t.len() > 0 && t.contains('/') && parse_spec(t) is Some)
            &&& r matches Some(row) ==> row.0@ == t && row.1@ == spoken(parse_spec(t).unwrap())
        }),
{
    let cs = chars_vec(line);
    let (a, b) = trimmed_range(cs.as_slice());
    let t = slice_range_chars(cs.as_slice(), a, b);
    if t.len() == 0 {
        return None;
    }
    let mut k: usize = 0;
    let mut slash = false;
    while k < t.len()
        invariant
            0 <= k <= t@.len(),
            slash == t@.take(k as int).contains('/'),
        decreases t@.len() - k,
    {
        proof {
            let prev = t@.take(k as int);
            let next = t@.take(k + 1);
            assert(next =~= prev.push(t@[k as int]));
            if prev.contains('/') {
                let j = choose|j: int| 0 <= j < prev.len() && #[trigger] prev[j] == '/';
                assert(next[j] == '/');
            }
            if t@[k as int] == '/' {
                assert(next[k as int] == '/');
            }
            if next.contains('/') {
                let j = choose|j: int| 0 <= j < next.len() && #[trigger] next[j] == '/';
                if j < k {
                    assert(prev[j] == '/');
                }
            }
        }
        if t[k] == '/' {
            slash = true;
        }
        k = k + 1;
    }
    assert(t@.take(k as int) =~= t@);
    if !slash {
        return None;
    }
    let text = string_from_chars(t);
    match CoordPronunciation::parse(text.as_str()) {
        Some(p) => Some((text, p.pronounce())),
        None => None,
    }
}

/// The coordinate texts found in `text`, each once, in string order.
pub fn extract_coordinates(text: &str) -> (r: Vec<String>)
    ensures
        texts_sorted(strings_of(r@)),
        forall|x: Seq<char>| #[trigger] strings_of(r@).contains(x) <==> found_from(text@, 0).contains(x),
{
    let chars = chars_vec(text);
    let ghost cs = chars@;
    let n = chars.len();
    let mut found: Vec<Vec<char>> = Vec::new();
    let mut i: usize = 0;
    while i < n
        invariant
            0 <= i <= n,
            n == cs.len(),
            chars@ == cs,
            texts_sorted(texts_of(found@)),
            forall|x: Seq<char>|
                #[trigger] found_from(cs, 0).contains(x) <==> (texts_of(found@).contains(x)
                    || found_from(cs, i as int).contains(x)),
        decreases n - i,
    {
        let c = chars[i];
        if '0' <= c && c <= '9' {
            match try_parse_coord(chars.as_slice(), i) {
                Some((_, end)) => {
                    proof {
                        lemma_run_len(cs, i as int);
                        assert(run_len(cs, i as int) >= 1);
                    }
                    let piece = vstd::slice::slice_to_vec(crate::text::slice_range_chars(chars.as_slice(), i, end));
                    let ghost pv = piece@;
                    let ghost before = texts_of(found@);
                    insert_text(&mut found, piece);
                    proof {
                        let tail = found_from(cs, end as int);
                        assert(found_from(cs, i as int) == seq![pv] + tail);
                        assert forall|x: Seq<char>| #[trigger] found_from(cs, 0).contains(x) <==> (texts_of(found@).contains(x)
                            || tail.contains(x)) by {
                            if (seq![pv] + tail).contains(x) {
                                let j = choose|j: int| 0 <= j < (seq![pv] + tail).len() && (seq![pv] + tail)[j] == x;
                                if j > 0 {
                                    assert(tail[j - 1] == x);
                                }
                            }
                            if tail.contains(x) {
                                let j = choose|j: int| 0 <= j < tail.len() && tail[j] == x;
                                assert((seq![pv] + tail)[j + 1] == x);
                            }
                            if x == pv {
                                assert((seq![pv] + tail)[0] == x);
                            }
                        }
                    }
                    i = end;
                    continue;
                },
                None => {},
            }
        }
        i = i + 1;
    }
    let mut out: Vec<String> = Vec::new();
    let mut k: usize = 0;
    let ghost fs = texts_of(found@);
    while k < found.len()
        invariant
            0 <= k <= found@.len(),
            fs == texts_of(found@),
            strings_of(out@) == fs.take(k as int),
        decreases found@.len() - k,
    {
        let s = string_from_chars(found[k].as_slice());
        assert(s@ == fs[k as int]);
        let ghost before = out@;
        out.push(s);
        assert(strings_of(out@) =~= strings_of(before).push(fs[k as int]));
        assert(fs.take(k + 1) =~= fs.take(k as int).push(fs[k as int]));
        k = k + 1;
    }
    assert(fs.take(k as int) =~= fs);
    out
}

} // verus!
