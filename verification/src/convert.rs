//! Packing of quantised colours into the integers that a blurhash stores.

use vstd::prelude::*;

verus! {

/// An sRGB colour: red, green and blue, 8 bits each.
pub type Rgb = [u8; 3];

/// The quantised red, green and blue parts of one AC component, each a level
/// from 0 to 18, where 9 stands for zero.
pub type Levels = [u8; 3];

/// The number of levels that one channel of an AC component is quantised to.
pub const AC_LEVELS: u32 = 19;

/// The colour `col` as the number `0xRRGGBB`.
pub open spec fn packed_rgb(col: Seq<u8>) -> nat {
    (col[0] as nat) * 0x1_0000 + (col[1] as nat) * 0x100 + (col[2] as nat)
}

/// The colour whose number `0xRRGGBB` is `n`, taken modulo 2^24.
pub open spec fn unpacked_rgb(n: nat) -> Seq<u8> {
    seq![((n / 0x1_0000) % 0x100) as u8, ((n / 0x100) % 0x100) as u8, (n % 0x100) as u8]
}

/// Whether every level is at most 18.
pub open spec fn levels_in_range(levels: Seq<u8>) -> bool {
    levels.len() == 3 && levels[0] <= 18 && levels[1] <= 18 && levels[2] <= 18
}

/// The levels of an AC component as one number, red most significant, in base 19.
pub open spec fn packed_levels(levels: Seq<u8>) -> nat {
    (levels[0] as nat) * 361 + (levels[1] as nat) * 19 + (levels[2] as nat)
}

/// The three lowest base-19 digits of `n`, red most significant.
pub open spec fn unpacked_levels(n: nat) -> Seq<u8> {
    seq![((n / 361) % 19) as u8, ((n / 19) % 19) as u8, (n % 19) as u8]
}

/// Packs an sRGB colour as `0xRRGGBB`.
pub fn to_rgb(col: Rgb) -> (n: u32)
    ensures
        n == packed_rgb(col@),
        n <= 0xFF_FFFF,
{
    let r: u32 = col[0] as u32;
    let g: u32 = col[1] as u32;
    let b: u32 = col[2] as u32;
    assert((r << 16) | (g << 8) | b == r * 0x1_0000 + g * 0x100 + b) by (bit_vector)
        requires
            r <= 0xFF,
            g <= 0xFF,
            b <= 0xFF,
    ;
    (r << 16) | (g << 8) | b
}

/// Packs an sRGB colour as `0xAARRGGBB`, with an alpha of 255.
pub fn to_rgba(col: Rgb) -> (n: u32)
    ensures
        n == 0xFF00_0000 + packed_rgb(col@),
{
    let r: u32 = col[0] as u32;
    let g: u32 = col[1] as u32;
    let b: u32 = col[2] as u32;
    assert(b | (g << 8) | (r << 16) | (255u32 << 24) == 0xFF00_0000 + r * 0x1_0000 + g * 0x100 + b)
        by (bit_vector)
        requires
            r <= 0xFF,
            g <= 0xFF,
            b <= 0xFF,
    ;
    b | (g << 8) | (r << 16) | (255u32 << 24)
}

/// Unpacks the sRGB colour of `0xRRGGBB`. Bits above the 24th are ignored.
pub fn decode_dc(n: u32) -> (col: Rgb)
    ensures
        col@ == unpacked_rgb(n as nat),
{
    assert(((n >> 16) & 0xFF) == (n / 0x1_0000) % 0x100) by (bit_vector);
    assert(((n >> 8) & 0xFF) == (n / 0x100) % 0x100) by (bit_vector);
    assert((n & 0xFF) == n % 0x100) by (bit_vector);
    let r: u8 = ((n >> 16) & 0xFF) as u8;
    let g: u8 = ((n >> 8) & 0xFF) as u8;
    let b: u8 = (n & 0xFF) as u8;
    let col: Rgb = [r, g, b];
    assert(col@ =~= unpacked_rgb(n as nat));
    col
}

/// Packs the levels of an AC component into one number below 19^3.
pub fn encode_ac(levels: Levels) -> (n: u32)
    requires
        levels_in_range(levels@),
    ensures
        n == packed_levels(levels@),
        n <= 6858,
{
    let r: u32 = levels[0] as u32;
    let g: u32 = levels[1] as u32;
    let b: u32 = levels[2] as u32;
    r * AC_LEVELS * AC_LEVELS + g * AC_LEVELS + b
}

/// Unpacks the levels of an AC component: the three lowest base-19 digits of
/// `n`.
pub fn decode_ac(n: u32) -> (levels: Levels)
    ensures
        levels@ == unpacked_levels(n as nat),
        levels_in_range(levels@),
{
    let r: u8 = ((n / (AC_LEVELS * AC_LEVELS)) % AC_LEVELS) as u8;
    let g: u8 = ((n / AC_LEVELS) % AC_LEVELS) as u8;
    let b: u8 = (n % AC_LEVELS) as u8;
    let levels: Levels = [r, g, b];
    assert(levels@ =~= unpacked_levels(n as nat));
    levels
}

/// Unpacking a packed colour gives the colour back.
pub proof fn lemma_unpack_pack_rgb(col: Seq<u8>)
    requires
        col.len() == 3,
    ensures
        unpacked_rgb(packed_rgb(col)) == col,
{
    let n = packed_rgb(col);
    let (r, g, b) = (col[0] as nat, col[1] as nat, col[2] as nat);
    assert(n / 0x1_0000 == r && (n / 0x100) == r * 0x100 + g && n % 0x100 == b
        && (r * 0x100 + g) % 0x100 == g && r % 0x100 == r) by (nonlinear_arith)
        requires
            n == r * 0x1_0000 + g * 0x100 + b,
            r <= 0xFF,
            g <= 0xFF,
            b <= 0xFF,
    ;
    assert(unpacked_rgb(n) =~= col);
}

/// Packing an unpacked number gives the number back, where it is below 2^24.
pub proof fn lemma_pack_unpack_rgb(n: nat)
    requires
        n <= 0xFF_FFFF,
    ensures
        packed_rgb(unpacked_rgb(n)) == n,
{
    assert(((n / 0x1_0000) % 0x100) * 0x1_0000 + ((n / 0x100) % 0x100) * 0x100 + n % 0x100 == n)
        by (nonlinear_arith)
        requires
            n <= 0xFF_FFFF,
    ;
}

/// Unpacking packed levels gives the levels back, where each is at most 18.
pub proof fn lemma_unpack_pack_levels(levels: Seq<u8>)
    requires
        levels_in_range(levels),
    ensures
        unpacked_levels(packed_levels(levels)) == levels,
{
    let n = packed_levels(levels);
    let (r, g, b) = (levels[0] as nat, levels[1] as nat, levels[2] as nat);
    assert(n / 361 == r && (n / 19) == r * 19 + g && n % 19 == b && (r * 19 + g) % 19 == g && r
        % 19 == r) by (nonlinear_arith)
        requires
            n == r * 361 + g * 19 + b,
            r <= 18,
            g <= 18,
            b <= 18,
    ;
    assert(unpacked_levels(n) =~= levels);
}

/// Packing unpacked levels gives the number back, where it is below 19^3.
pub proof fn lemma_pack_unpack_levels(n: nat)
    requires
        n <= 6858,
    ensures
        packed_levels(unpacked_levels(n)) == n,
{
    assert(((n / 361) % 19) * 361 + ((n / 19) % 19) * 19 + n % 19 == n) by (nonlinear_arith)
        requires
            n <= 6858,
    ;
}

} // verus!
