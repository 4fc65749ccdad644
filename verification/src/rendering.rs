//! Border colors as the compositor takes them.

use vstd::prelude::*;
use vstd::utf8::encode_utf8;
use crate::config::{hex_value, lead_hashes, lemma_hex_small, lemma_hex_value_bound, lemma_lead_hashes, parse_hex, parse_hex_u32, pow16};

verus! {

/// The value of the two hex digits of `t` at `i`, or `dflt` when they do
/// not parse (as `u8::from_str_radix(.., 16)`).
pub open spec fn hex_pair(t: Seq<u8>, i: int, dflt: int) -> int {
    match parse_hex_u32(t.subrange(i, i + 2)) {
        Some(v) => v as int,
        None => dflt,
    }
}

/// The 8-bit (red, green, blue, alpha) of a color without its leading `#`:
/// six digits are opaque, eight carry alpha last, anything else is opaque
/// gray (80, 80, 80).
pub open spec fn rgba8(t: Seq<u8>) -> (int, int, int, int) {
    if t.len() == 6 {
        (hex_pair(t, 0, 0), hex_pair(t, 2, 0), hex_pair(t, 4, 0), 255)
    } else if t.len() == 8 {
        (hex_pair(t, 0, 0), hex_pair(t, 2, 0), hex_pair(t, 4, 0), hex_pair(t, 6, 255))
    } else {
        (80, 80, 80, 255)
    }
}

/// A channel scaled to 32 bits.
pub open spec fn wide(c: int) -> u32 {
    (c * 0x01010101) as u32
}

/// The 32-bit (red, green, blue, alpha) of a color string's bytes, with
/// the color channels multiplied by alpha.
pub open spec fn premultiplied(s: Seq<u8>) -> (u32, u32, u32, u32) {
    let t = s.subrange(lead_hashes(s) as int, s.len() as int);
    let (r, g, b, a) = rgba8(t);
    (wide(r * a / 255), wide(g * a / 255), wide(b * a / 255), wide(a))
}

/// Byte `i` of `t` is inside a multi-byte character, so the text cannot be
/// cut there.
pub open spec fn inside_char(t: Seq<u8>, i: int) -> bool {
    0 <= i < t.len() && 0x80 <= t[i] < 0xC0
}

/// The color's digit pairs start on character boundaries.
pub open spec fn pairs_cut_cleanly(s: Seq<u8>) -> bool {
    let t = s.subrange(lead_hashes(s) as int, s.len() as int);
    (t.len() == 6 || t.len() == 8) ==> !inside_char(t, 2) && !inside_char(t, 4) && (t.len() == 8 ==> !inside_char(t, 6))
}

fn pair_value(t: &Vec<u8>, i: usize, dflt: u32) -> (r: u32)
    requires
        i + 2 <= t@.len(),
        i <= 6,
        dflt <= 255,
    ensures
        r == hex_pair(t@, i as int, dflt as int),
        r <= 255,
{
    let mut p: Vec<u8> = Vec::new();
    p.push(t[i]);
    p.push(t[i + 1]);
    proof {
        assert(p@ =~= t@.subrange(i as int, i + 2));
    }
    match parse_hex(p.as_slice()) {
        Some(v) => {
            proof {
                let d = if p@.len() > 1 && p@[0] == 43 { p@.drop_first() } else { p@ };
                lemma_hex_small(d);
                lemma_hex_value_bound(d);
                reveal_with_fuel(pow16, 3);
                assert(pow16(2) == 256);
                assert(pow16(1) == 16);
                assert(d.len() <= 2);
                assert(hex_value(d) == Some(v as int));
            }
            v
        },
        None => dflt,
    }
}

/// Parse `#RRGGBB` or `#RRGGBBAA` (any number of leading `#`) into 32-bit
/// channels with the color pre-multiplied by alpha, as the compositor
/// expects; other lengths give opaque gray.
pub fn parse_hex_color(hex: &str) -> (r: (u32, u32, u32, u32))
    requires
        pairs_cut_cleanly(encode_utf8(hex@)),
    ensures
        r == premultiplied(encode_utf8(hex@)),
{
    let b = hex.as_bytes();
    let mut lo: usize = 0;
    while lo < b.len() && b[lo] == 35
        invariant
            lo <= b@.len(),
            forall|j: int| 0 <= j < lo ==> #[trigger] b@[j] == 35,
        decreases b@.len() - lo,
    {
        lo += 1;
    }
    proof {
        lemma_lead_hashes(b@, lo as int);
    }
    let mut t: Vec<u8> = Vec::new();
    let mut i = lo;
    while i < b.len()
        invariant
            lo <= i <= b@.len(),
            t@ == b@.subrange(lo as int, i as int),
        decreases b@.len() - i,
    {
        t.push(b[i]);
        proof {
            assert(t@ =~= b@.subrange(lo as int, i + 1));
        }
        i += 1;
    }
    let n = t.len();
    let (r, g, bl, a): (u32, u32, u32, u32) = if n == 6 {
        (pair_value(&t, 0, 0), pair_value(&t, 2, 0), pair_value(&t, 4, 0), 255)
    } else if n == 8 {
        (pair_value(&t, 0, 0), pair_value(&t, 2, 0), pair_value(&t, 4, 0), pair_value(&t, 6, 255))
    } else {
        (80, 80, 80, 255)
    };
    proof {
        assert(r * a <= 255 * 255) by (nonlinear_arith)
            requires r <= 255, a <= 255;
        assert(g * a <= 255 * 255) by (nonlinear_arith)
            requires g <= 255, a <= 255;
        assert(bl * a <= 255 * 255) by (nonlinear_arith)
            requires bl <= 255, a <= 255;
    }
    let a32 = a * 0x01010101;
    let r32 = (r * a / 255) * 0x01010101;
    let g32 = (g * a / 255) * 0x01010101;
    let b32 = (bl * a / 255) * 0x01010101;
    (r32, g32, b32, a32)
}

} // verus!
