//! Reading back the text of a coordinate gives the coordinate: the
//! characters the screens and zoom tiers write, and the bytes `display`
//! writes.
use vstd::prelude::*;

use crate::coordinate::{coordinate_text, decimal, Coordinate};
use vstd::utf8::{encode_scalar, encode_utf8};
use crate::server::{arm_label, arm_values, coordinate_chars, coordinate_from_text, tier_key, usize_values};
use crate::text::{
    all_digit_chars, char_digits_value, dec_chars, digit_char, parse_u32_spec, parse_usize_chars_spec, split_on,
};
use crate::tts::{parse_arm_spec, parse_spec, CoordPronunciation, SubCoord};

verus! {

/// Splitting text that holds no separator gives the text as one piece.
proof fn lemma_split_plain(s: Seq<char>, sep: char)
    requires
        !s.contains(sep),
    ensures
        split_on(s, sep) == seq![s],
    decreases s.len(),
{
    if s.len() > 0 {
        let p = s.drop_last();
        assert(!p.contains(sep)) by {
            if p.contains(sep) {
                let i = choose|i: int| 0 <= i < p.len() && p[i] == sep;
                assert(s[i] == sep);
            }
        }
        lemma_split_plain(p, sep);
        assert(s[s.len() - 1] != sep);
        assert(p.push(s.last()) =~= s);
        assert(split_on(s, sep) =~= seq![s]);
    } else {
        assert(s =~= Seq::<char>::empty());
    }
}

/// Splitting `a`, a separator and `b` gives the pieces of `a` followed by
/// those of `b`.
proof fn lemma_split_join(a: Seq<char>, b: Seq<char>, sep: char)
    ensures
        split_on(a + seq![sep] + b, sep) == split_on(a, sep) + split_on(b, sep),
    decreases b.len(),
{
    let s = a + seq![sep] + b;
    crate::text::lemma_split_nonempty(a, sep);
    if b.len() == 0 {
        assert(s.drop_last() =~= a);
        assert(split_on(b, sep) =~= seq![Seq::<char>::empty()]);
        assert(split_on(s, sep) =~= split_on(a, sep) + split_on(b, sep));
    } else {
        let b2 = b.drop_last();
        lemma_split_join(a, b2, sep);
        assert(s.drop_last() =~= a + seq![sep] + b2);
        assert(s.last() == b.last());
        let pa = split_on(a, sep);
        let pb = split_on(b2, sep);
        crate::text::lemma_split_nonempty(b2, sep);
        if b.last() == sep {
            assert(split_on(s, sep) =~= (pa + pb).push(seq![]));
            assert(split_on(b, sep) =~= pb.push(seq![]));
            assert((pa + pb).push(seq![]) =~= pa + pb.push(seq![]));
        } else {
            let q = pa + pb;
            assert(q.last() == pb.last());
            assert(split_on(b, sep) =~= pb.update(pb.len() - 1, pb.last().push(b.last())));
            assert(q.update(q.len() - 1, q.last().push(b.last())) =~= pa + pb.update(
                pb.len() - 1,
                pb.last().push(b.last()),
            ));
        }
    }
}

/// The digits of a number are digits and read back as the number.
proof fn lemma_dec_chars(n: nat)
    ensures
        dec_chars(n).len() > 0,
        all_digit_chars(dec_chars(n)),
        char_digits_value(dec_chars(n)) == n,
        dec_chars(n)[0] != '+',
    decreases n,
{
    if n >= 10 {
        lemma_dec_chars(n / 10);
        let p = dec_chars(n / 10);
        let d = dec_chars(n);
        assert(d.drop_last() =~= p);
        assert(d.last() == digit_char(n % 10));
        assert(d[0] == p[0]);
        assert(d.last() as nat == 48 + n % 10);
        assert(n == (n / 10) * 10 + n % 10) by (nonlinear_arith);
        assert(char_digits_value(d) == char_digits_value(p) * 10 + (n % 10));
    } else {
        let d = dec_chars(n);
        assert(digit_char(n) as nat == 48 + n);
        assert(d.drop_last() =~= Seq::<char>::empty());
        assert(char_digits_value(Seq::<char>::empty()) == 0);
        assert(char_digits_value(d) == char_digits_value(d.drop_last()) * 10 + (d.last() as nat - 48) as nat);
    }
}

/// The digits of a number hold no `.` and no `/`.
proof fn lemma_dec_plain(n: nat)
    ensures
        !dec_chars(n).contains('.'),
        !dec_chars(n).contains('/'),
{
    lemma_dec_chars(n);
    let d = dec_chars(n);
    assert(forall|i: int| 0 <= i < d.len() ==> '0' <= #[trigger] d[i] <= '9');
}

/// An arm's text reads back as its three values, and holds no `/`.
proof fn lemma_arm_roundtrip(k: (usize, usize, usize))
    ensures
        arm_values(arm_label(k)) == Some(k),
        !arm_label(k).contains('/'),
{
    let a = dec_chars(k.0 as nat);
    let b = dec_chars(k.1 as nat);
    let c = dec_chars(k.2 as nat);
    lemma_dec_plain(k.0 as nat);
    lemma_dec_plain(k.1 as nat);
    lemma_dec_plain(k.2 as nat);
    lemma_dec_chars(k.0 as nat);
    lemma_dec_chars(k.1 as nat);
    lemma_dec_chars(k.2 as nat);
    assert(arm_label(k) == (a + seq!['.'] + b) + seq!['.'] + c);
    lemma_split_join(a + seq!['.'] + b, c, '.');
    lemma_split_join(a, b, '.');
    lemma_split_plain(a, '.');
    lemma_split_plain(b, '.');
    lemma_split_plain(c, '.');
    let parts = split_on(arm_label(k), '.');
    assert(parts =~= seq![a, b, c]);
    assert(parse_usize_chars_spec(a) == Some(k.0));
    assert(parse_usize_chars_spec(b) == Some(k.1));
    assert(parse_usize_chars_spec(c) == Some(k.2));
    assert(parts.drop_last() =~= seq![a, b]);
    assert(parts.drop_last().drop_last() =~= seq![a]);
    assert(parts.drop_last().drop_last().drop_last() =~= Seq::<Seq<char>>::empty());
    assert(usize_values(seq![a]) =~= seq![k.0]) by {
        assert(seq![a].drop_last() =~= Seq::<Seq<char>>::empty());
        assert(usize_values(Seq::<Seq<char>>::empty()) =~= Seq::<usize>::empty());
        assert(seq![a].last() == a);
    }
    assert(usize_values(seq![a, b]) =~= seq![k.0, k.1]) by {
        assert(seq![a, b].drop_last() =~= seq![a]);
    }
    assert(usize_values(seq![a, b, c]) =~= seq![k.0, k.1, k.2]) by {
        assert(seq![a, b, c].drop_last() =~= seq![a, b]);
    }
    let l = arm_label(k);
    assert(!l.contains('/')) by {
        if l.contains('/') {
            let i = choose|i: int| 0 <= i < l.len() && l[i] == '/';
            if i < a.len() {
                assert(a[i] == '/');
            } else if i == a.len() {
            } else if i < a.len() + 1 + b.len() {
                assert(b[i - a.len() - 1] == '/');
            } else if i == a.len() + 1 + b.len() {
            } else {
                assert(c[i - a.len() - 2 - b.len()] == '/');
            }
        }
    }
}

/// A coordinate written as text, `a.b.c/d.e.f/g.h.i`, reads back as the
/// same coordinate.
pub proof fn lemma_coordinate_text_roundtrip(c: Coordinate)
    ensures
        coordinate_from_text(coordinate_chars(c)) == Some(c),
{
    let z = arm_label(tier_key(0, c));
    let y = arm_label(tier_key(1, c));
    let x = arm_label(tier_key(2, c));
    lemma_arm_roundtrip(tier_key(0, c));
    lemma_arm_roundtrip(tier_key(1, c));
    lemma_arm_roundtrip(tier_key(2, c));
    lemma_split_join(z + seq!['/'] + y, x, '/');
    lemma_split_join(z, y, '/');
    lemma_split_plain(z, '/');
    lemma_split_plain(y, '/');
    lemma_split_plain(x, '/');
    let parts = split_on(coordinate_chars(c), '/');
    assert(parts =~= seq![z, y, x]);
}

/// Encoding text piece by piece gives the same bytes as encoding it whole.
proof fn lemma_encode_concat(a: Seq<char>, b: Seq<char>)
    ensures
        encode_utf8(a + b) == encode_utf8(a) + encode_utf8(b),
    decreases a.len(),
{
    if a.len() == 0 {
        assert(a + b =~= b);
        assert(encode_utf8(a) =~= Seq::<u8>::empty());
        assert(encode_utf8(a) + encode_utf8(b) =~= encode_utf8(b));
    } else {
        lemma_encode_concat(a.drop_first(), b);
        assert((a + b).drop_first() =~= a.drop_first() + b);
        assert((a + b)[0] == a[0]);
        assert(encode_utf8(a + b) =~= encode_scalar(a[0] as u32) + encode_utf8(a.drop_first() + b));
    }
}

/// An ASCII character is encoded as its own code.
proof fn lemma_encode_ascii(ch: char, v: u32)
    requires
        ch as u32 == v,
        v < 128,
    ensures
        encode_utf8(seq![ch]) == seq![v as u8],
{
    assert(seq![ch].drop_first() =~= Seq::<char>::empty());
    assert((v & 0x7F) as u8 == v as u8) by (bit_vector)
        requires
            v < 128,
    ;
    assert(seq![ch][0] == ch);
    assert(encode_utf8(Seq::<char>::empty()) =~= Seq::<u8>::empty());
    assert(encode_scalar(v) =~= seq![(v & 0x7F) as u8]);
    assert(encode_utf8(seq![ch]) == encode_scalar(seq![ch][0] as u32) + encode_utf8(seq![ch].drop_first()));
    assert(encode_utf8(seq![ch]) =~= seq![v as u8]);
}

/// The digits of a number, as characters, encode to its decimal bytes.
proof fn lemma_encode_decimal(n: nat)
    ensures
        encode_utf8(dec_chars(n)) == decimal(n),
    decreases n,
{
    if n < 10 {
        lemma_encode_ascii(digit_char(n), (48 + n) as u32);
    } else {
        lemma_encode_decimal(n / 10);
        lemma_encode_concat(dec_chars(n / 10), seq![digit_char(n % 10)]);
        assert(dec_chars(n) =~= dec_chars(n / 10) + seq![digit_char(n % 10)]);
        lemma_encode_ascii(digit_char(n % 10), (48 + n % 10) as u32);
        assert(decimal(n) =~= decimal(n / 10) + seq![((n % 10) + 48) as u8]);
    }
}

/// Text `a`, a separator and `b` encode piece by piece.
proof fn lemma_encode_join(a: Seq<char>, ch: char, v: u32, b: Seq<char>)
    requires
        ch as u32 == v,
        v < 128,
    ensures
        encode_utf8(a + seq![ch] + b) == encode_utf8(a) + seq![v as u8] + encode_utf8(b),
{
    lemma_encode_concat(a + seq![ch], b);
    lemma_encode_concat(a, seq![ch]);
    lemma_encode_ascii(ch, v);
}

/// The characters of a coordinate's text encode to its canonical bytes.
proof fn lemma_coordinate_chars_bytes(c: Coordinate)
    ensures
        encode_utf8(coordinate_chars(c)) == coordinate_text(c),
{
    let z = tier_key(0, c);
    let y = tier_key(1, c);
    let x = tier_key(2, c);
    assert forall|k: (usize, usize, usize)| #[trigger] encode_utf8(arm_label(k)) == decimal(k.0 as nat) + seq![46u8]
        + decimal(k.1 as nat) + seq![46u8] + decimal(k.2 as nat) by {
        let a = dec_chars(k.0 as nat);
        let b = dec_chars(k.1 as nat);
        let d = dec_chars(k.2 as nat);
        lemma_encode_decimal(k.0 as nat);
        lemma_encode_decimal(k.1 as nat);
        lemma_encode_decimal(k.2 as nat);
        lemma_encode_join(a + seq!['.'] + b, '.', 46, d);
        lemma_encode_join(a, '.', 46, b);
    }
    lemma_encode_join(arm_label(z) + seq!['/'] + arm_label(y), '/', 47, arm_label(x));
    lemma_encode_join(arm_label(z), '/', 47, arm_label(y));
    assert(encode_utf8(arm_label(z)) == decimal(z.0 as nat) + seq![46u8] + decimal(z.1 as nat) + seq![46u8] + decimal(z.2 as nat));
    assert(encode_utf8(arm_label(y)) == decimal(y.0 as nat) + seq![46u8] + decimal(y.1 as nat) + seq![46u8] + decimal(y.2 as nat));
    assert(encode_utf8(arm_label(x)) == decimal(x.0 as nat) + seq![46u8] + decimal(x.1 as nat) + seq![46u8] + decimal(x.2 as nat));
    assert(encode_utf8(coordinate_chars(c)) =~= coordinate_text(c));
}

/// Text whose bytes are a coordinate's canonical text (as `display`
/// writes it) reads back as that coordinate.
pub proof fn lemma_display_reads_back(c: Coordinate, s: Seq<char>)
    requires
        encode_utf8(s) == coordinate_text(c),
    ensures
        coordinate_from_text(s) == Some(c),
{
    lemma_coordinate_chars_bytes(c);
    vstd::utf8::encode_utf8_decode_utf8(s);
    vstd::utf8::encode_utf8_decode_utf8(coordinate_chars(c));
    lemma_coordinate_text_roundtrip(c);
}

/// An arm's text reads back, for pronunciation, as its three values when
/// each fits in a `u32`.
proof fn lemma_arm_spoken(k: (usize, usize, usize))
    requires
        k.0 <= u32::MAX,
        k.1 <= u32::MAX,
        k.2 <= u32::MAX,
    ensures
        parse_arm_spec(arm_label(k)) == Some(SubCoord { a: k.0 as u32, b: k.1 as u32, c: k.2 as u32 }),
{
    let a = dec_chars(k.0 as nat);
    let b = dec_chars(k.1 as nat);
    let c = dec_chars(k.2 as nat);
    lemma_dec_plain(k.0 as nat);
    lemma_dec_plain(k.1 as nat);
    lemma_dec_plain(k.2 as nat);
    lemma_dec_chars(k.0 as nat);
    lemma_dec_chars(k.1 as nat);
    lemma_dec_chars(k.2 as nat);
    assert(arm_label(k) == (a + seq!['.'] + b) + seq!['.'] + c);
    lemma_split_join(a + seq!['.'] + b, c, '.');
    lemma_split_join(a, b, '.');
    lemma_split_plain(a, '.');
    lemma_split_plain(b, '.');
    lemma_split_plain(c, '.');
    let parts = split_on(arm_label(k), '.');
    assert(parts =~= seq![a, b, c]);
    assert(parse_u32_spec(a) == Some(k.0 as u32));
    assert(parse_u32_spec(b) == Some(k.1 as u32));
    assert(parse_u32_spec(c) == Some(k.2 as u32));
}

/// The text of a coordinate whose values fit in a `u32` reads, for
/// pronunciation, as that coordinate's arms.
pub proof fn lemma_pronounce_text(c: Coordinate)
    requires
        c.z.library <= u32::MAX,
        c.z.shelf <= u32::MAX,
        c.z.series <= u32::MAX,
        c.y.collection <= u32::MAX,
        c.y.volume <= u32::MAX,
        c.y.book <= u32::MAX,
        c.x.chapter <= u32::MAX,
        c.x.section <= u32::MAX,
        c.x.scroll <= u32::MAX,
    ensures
        parse_spec(coordinate_chars(c)) == Some(
            CoordPronunciation {
                library: SubCoord { a: c.z.library as u32, b: c.z.shelf as u32, c: c.z.series as u32 },
                volume: SubCoord { a: c.y.collection as u32, b: c.y.volume as u32, c: c.y.book as u32 },
                scroll: SubCoord { a: c.x.chapter as u32, b: c.x.section as u32, c: c.x.scroll as u32 },
            },
        ),
{
    reveal(parse_spec);
    let z = arm_label(tier_key(0, c));
    let y = arm_label(tier_key(1, c));
    let x = arm_label(tier_key(2, c));
    lemma_arm_roundtrip(tier_key(0, c));
    lemma_arm_roundtrip(tier_key(1, c));
    lemma_arm_roundtrip(tier_key(2, c));
    lemma_arm_spoken(tier_key(0, c));
    lemma_arm_spoken(tier_key(1, c));
    lemma_arm_spoken(tier_key(2, c));
    lemma_split_join(z + seq!['/'] + y, x, '/');
    lemma_split_join(z, y, '/');
    lemma_split_plain(z, '/');
    lemma_split_plain(y, '/');
    lemma_split_plain(x, '/');
    let parts = split_on(coordinate_chars(c), '/');
    assert(parts =~= seq![z, y, x]);
}

} // verus!
