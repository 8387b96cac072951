//! UTF-16 little-endian transcoding: each Unicode scalar value becomes one
//! or two 16-bit code units (a surrogate pair outside the basic plane),
//! each code unit written low byte first. The decoder exists as a
//! specification only, to state that encoding loses nothing.

use vstd::prelude::*;
use vstd::arithmetic::div_mod::lemma_fundamental_div_mod;
use vstd::utf8::char_is_scalar;
use vstd::utf8::char_u32_cast;

verus! {

/// The two little-endian bytes of one code unit.
pub open spec fn unit_bytes(u: u16) -> Seq<u8> {
    seq![(u % 256) as u8, (u / 256) as u8]
}

/// The high surrogate of a scalar value beyond the basic plane.
pub open spec fn high_surrogate(v: u32) -> u16 {
    (0xD800 + ((v - 0x10000) / 0x400)) as u16
}

/// The low surrogate of a scalar value beyond the basic plane.
pub open spec fn low_surrogate(v: u32) -> u16 {
    (0xDC00 + ((v - 0x10000) % 0x400)) as u16
}

/// The encoded bytes of one character: one code unit inside the basic
/// plane, a surrogate pair outside it.
pub open spec fn char_bytes(c: char) -> Seq<u8> {
    let v = c as u32;
    if v < 0x10000 {
        unit_bytes(v as u16)
    } else {
        unit_bytes(high_surrogate(v)) + unit_bytes(low_surrogate(v))
    }
}

/// The UTF-16LE encoding of a character sequence.
pub open spec fn utf16le(s: Seq<char>) -> Seq<u8>
    decreases s.len(),
{
    if s.len() == 0 {
        Seq::empty()
    } else {
        char_bytes(s[0]) + utf16le(s.skip(1))
    }
}

/// Reads a byte sequence as little-endian code units; an odd byte count
/// has no reading.
pub open spec fn decode_units(bs: Seq<u8>) -> Option<Seq<u16>>
    decreases bs.len(),
{
    if bs.len() == 0 {
        Some(Seq::empty())
    } else if bs.len() == 1 {
        None
    } else {
        match decode_units(bs.skip(2)) {
            Option::None => Option::None,
            Option::Some(rest) => Option::Some(
                seq![((bs[1] as int) * 256 + (bs[0] as int)) as u16] + rest,
            ),
        }
    }
}

/// Whether a code unit is a high (leading) surrogate.
pub open spec fn is_high_surrogate(u: u16) -> bool {
    0xD800 <= u <= 0xDBFF
}

/// Whether a code unit is a low (trailing) surrogate.
pub open spec fn is_low_surrogate(u: u16) -> bool {
    0xDC00 <= u <= 0xDFFF
}

/// The scalar value of a surrogate pair.
pub open spec fn combine_surrogates(hi: u16, lo: u16) -> u32 {
    (0x10000 + (hi - 0xD800) * 0x400 + (lo - 0xDC00)) as u32
}

/// Reads code units as characters; an unpaired surrogate has no reading.
pub open spec fn decode_code_units(us: Seq<u16>) -> Option<Seq<char>>
    decreases us.len(),
{
    if us.len() == 0 {
        Some(Seq::empty())
    } else if !is_high_surrogate(us[0]) && !is_low_surrogate(us[0]) {
        match decode_code_units(us.skip(1)) {
            Option::None => Option::None,
            Option::Some(rest) => Option::Some(seq![(us[0] as u32) as char] + rest),
        }
    } else if is_high_surrogate(us[0]) && us.len() >= 2 && is_low_surrogate(us[1]) {
        match decode_code_units(us.skip(2)) {
            Option::None => Option::None,
            Option::Some(rest) => Option::Some(
                seq![combine_surrogates(us[0], us[1]) as char] + rest,
            ),
        }
    } else {
        Option::None
    }
}

/// Reads a UTF-16LE byte sequence back as characters.
pub open spec fn decode_utf16le(bs: Seq<u8>) -> Option<Seq<char>> {
    match decode_units(bs) {
        Option::None => Option::None,
        Option::Some(us) => decode_code_units(us),
    }
}

/// Two prepended bytes decode to one prepended code unit.
proof fn lemma_decode_units_prepend(b0: u8, b1: u8, t: Seq<u8>)
    ensures
        decode_units(seq![b0, b1] + t) == match decode_units(t) {
            Option::None => Option::<Seq<u16>>::None,
            Option::Some(r) => Option::Some(seq![((b1 as int) * 256 + (b0 as int)) as u16] + r),
        },
{
    let bs = seq![b0, b1] + t;
    assert(bs.len() == t.len() + 2);
    assert(bs[0] == b0 && bs[1] == b1);
    assert(bs.skip(2) =~= t);
}

/// A character outside the basic plane encodes as four bytes, two code
/// units; one inside it as two bytes, one code unit.
pub proof fn lemma_char_bytes_len(c: char)
    ensures
        (c as u32) >= 0x10000 ==> char_bytes(c).len() == 4,
        (c as u32) < 0x10000 ==> char_bytes(c).len() == 2,
{
}

/// Appending a character appends its encoded bytes.
pub proof fn lemma_utf16le_push(s: Seq<char>, c: char)
    ensures
        utf16le(s.push(c)) == utf16le(s) + char_bytes(c),
    decreases s.len(),
{
    if s.len() == 0 {
        let p = s.push(c);
        assert(p.len() == 1);
        assert(p[0] == c);
        assert(p.skip(1) =~= Seq::<char>::empty());
        assert(utf16le(p.skip(1)) =~= Seq::<u8>::empty());
        assert(utf16le(p) =~= char_bytes(c) + utf16le(p.skip(1)));
        assert(utf16le(s) =~= Seq::<u8>::empty());
        assert(utf16le(p) =~= utf16le(s) + char_bytes(c));
    } else {
        assert(s.push(c)[0] == s[0]);
        assert(s.push(c).skip(1) =~= s.skip(1).push(c));
        lemma_utf16le_push(s.skip(1), c);
        assert(char_bytes(s[0]) + (utf16le(s.skip(1)) + char_bytes(c)) =~= (char_bytes(s[0])
            + utf16le(s.skip(1))) + char_bytes(c));
    }
}

/// Decoding the encoding of any character sequence gives the sequence
/// back: the transcoder loses nothing.
pub proof fn lemma_utf16_round_trip(s: Seq<char>)
    ensures
        decode_utf16le(utf16le(s)) == Some(s),
    decreases s.len(),
{
    if s.len() == 0 {
        assert(utf16le(s) =~= Seq::<u8>::empty());
        assert(decode_code_units(Seq::<u16>::empty()) == Some(Seq::<char>::empty()));
        assert(s =~= Seq::<char>::empty());
    } else {
        let c = s[0];
        let v = c as u32;
        char_is_scalar(c);
        char_u32_cast(c, v);
        let tail_bytes = utf16le(s.skip(1));
        lemma_utf16_round_trip(s.skip(1));
        let tail_units = decode_units(tail_bytes)->Some_0;
        if v < 0x10000 {
            let u = v as u16;
            let bytes = unit_bytes(u);
            assert(utf16le(s) =~= seq![bytes[0], bytes[1]] + tail_bytes);
            lemma_decode_units_prepend(bytes[0], bytes[1], tail_bytes);
            assert((u / 256) * 256 + (u % 256) == u) by {
                lemma_fundamental_div_mod(u as int, 256);
            }
            assert(((bytes[1] as int) * 256 + (bytes[0] as int)) as u16 == u);
            let us = seq![u] + tail_units;
            assert(decode_units(utf16le(s)) == Some(us));
            assert(!is_high_surrogate(u) && !is_low_surrogate(u));
            assert(us.skip(1) =~= tail_units);
            assert((us[0] as u32) as char == c);
            assert(seq![c] + s.skip(1) =~= s);
        } else {
            let w = v - 0x10000;
            let hi = high_surrogate(v);
            let lo = low_surrogate(v);
            assert(w / 0x400 <= 0x3FF && w % 0x400 <= 0x3FF) by {
                lemma_fundamental_div_mod(w as int, 0x400);
            }
            let hb = unit_bytes(hi);
            let lb = unit_bytes(lo);
            assert(utf16le(s) =~= seq![hb[0], hb[1]] + (seq![lb[0], lb[1]] + tail_bytes));
            lemma_decode_units_prepend(lb[0], lb[1], tail_bytes);
            lemma_decode_units_prepend(hb[0], hb[1], seq![lb[0], lb[1]] + tail_bytes);
            assert((hi / 256) * 256 + (hi % 256) == hi) by {
                lemma_fundamental_div_mod(hi as int, 256);
            }
            assert((lo / 256) * 256 + (lo % 256) == lo) by {
                lemma_fundamental_div_mod(lo as int, 256);
            }
            assert(((hb[1] as int) * 256 + (hb[0] as int)) as u16 == hi);
            assert(((lb[1] as int) * 256 + (lb[0] as int)) as u16 == lo);
            let us = seq![hi] + (seq![lo] + tail_units);
            assert(decode_units(utf16le(s)) == Some(us));
            assert(us[0] == hi && us[1] == lo);
            assert(is_high_surrogate(hi) && is_low_surrogate(lo));
            assert(combine_surrogates(hi, lo) == v) by {
                lemma_fundamental_div_mod(w as int, 0x400);
            }
            assert(us.skip(2) =~= tail_units);
            assert(combine_surrogates(us[0], us[1]) as char == c);
            assert(seq![c] + s.skip(1) =~= s);
        }
    }
}

/// Appends the UTF-16LE encoding of a text to a byte sink.
pub fn write_as_utf16(w: &mut Vec<u8>, text: &str)
    ensures
        final(w)@ == old(w)@ + utf16le(text@),
{
    let ghost base = old(w)@;
    let n = text.unicode_len();
    let mut i: usize = 0;
    assert(text@.take(0) =~= Seq::<char>::empty());
    assert(base + utf16le(text@.take(0)) =~= base);
    while i < n
        invariant
            i <= n,
            n == text@.len(),
            w@ == base + utf16le(text@.take(i as int)),
        decreases n - i,
    {
        let c = text.get_char(i);
        let v = c as u32;
        proof {
            char_is_scalar(c);
        }
        if v < 0x10000 {
            let u = v as u16;
            w.push((u % 256) as u8);
            w.push((u / 256) as u8);
            proof {
                assert(w@ =~= base + utf16le(text@.take(i as int)) + char_bytes(c));
            }
        } else {
            let rest = v - 0x10000;
            let hi = (0xD800 + rest / 0x400) as u16;
            let lo = (0xDC00 + rest % 0x400) as u16;
            proof {
                lemma_fundamental_div_mod(rest as int, 0x400);
                assert(hi == high_surrogate(v));
                assert(lo == low_surrogate(v));
            }
            w.push((hi % 256) as u8);
            w.push((hi / 256) as u8);
            w.push((lo % 256) as u8);
            w.push((lo / 256) as u8);
            proof {
                assert(w@ =~= base + utf16le(text@.take(i as int)) + char_bytes(c));
            }
        }
        proof {
            assert(text@.take(i + 1) =~= text@.take(i as int).push(c));
            lemma_utf16le_push(text@.take(i as int), c);
            assert(base + utf16le(text@.take(i as int)) + char_bytes(c) =~= base + utf16le(
                text@.take(i + 1),
            ));
        }
        i = i + 1;
    }
    assert(text@.take(n as int) =~= text@);
}

} // verus!
