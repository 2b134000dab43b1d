//! Packing and unpacking of 32-bit RGBA pixels.
//!
//! A 32 bpp pixel holds red in the most significant byte, then green,
//! blue, and alpha in the least significant byte.

use vstd::prelude::*;

verus! {

/// The word holding the four channel values `r`, `g`, `b`, `a`.
pub open spec fn rgba_word(r: u8, g: u8, b: u8, a: u8) -> u32 {
    (r as int * 0x1000000 + g as int * 0x10000 + b as int * 0x100 + a as int) as u32
}

/// Red channel of a pixel word.
pub open spec fn red_of(p: u32) -> u8 {
    (p / 0x1000000) as u8
}

/// Green channel of a pixel word.
pub open spec fn green_of(p: u32) -> u8 {
    ((p / 0x10000) % 0x100) as u8
}

/// Blue channel of a pixel word.
pub open spec fn blue_of(p: u32) -> u8 {
    ((p / 0x100) % 0x100) as u8
}

/// Alpha channel of a pixel word.
pub open spec fn alpha_of(p: u32) -> u8 {
    (p % 0x100) as u8
}

/// Shifts and masks of a pixel word agree with its base-256 digits.
proof fn lemma_channel_bits(p: u32)
    ensures
        (p >> 24) == p / 0x1000000,
        ((p >> 16) & 0xff) == (p / 0x10000) % 0x100,
        ((p >> 8) & 0xff) == (p / 0x100) % 0x100,
        (p & 0xff) == p % 0x100,
{
    assert({
        &&& (p >> 24) == p / 0x1000000
        &&& ((p >> 16) & 0xff) == (p / 0x10000) % 0x100
        &&& ((p >> 8) & 0xff) == (p / 0x100) % 0x100
        &&& (p & 0xff) == p % 0x100
    }) by (bit_vector);
}

/// Packs red, green and blue into a pixel word; the alpha byte is 0.
pub fn compose_rgb(r: u8, g: u8, b: u8) -> (p: u32)
    ensures
        p == rgba_word(r, g, b, 0),
{
    compose_rgba(r, g, b, 0)
}

/// Packs all four channels into a pixel word.
pub fn compose_rgba(r: u8, g: u8, b: u8, a: u8) -> (p: u32)
    ensures
        p == rgba_word(r, g, b, a),
{
    let p = ((r as u32) << 24) | ((g as u32) << 16) | ((b as u32) << 8) | (a as u32);
    proof {
        let (r32, g32, b32, a32) = (r as u32, g as u32, b as u32, a as u32);
        assert(((r32 << 24) | (g32 << 16) | (b32 << 8) | a32) == r32 * 0x1000000 + g32 * 0x10000
            + b32 * 0x100 + a32) by (bit_vector)
            requires
                r32 < 256,
                g32 < 256,
                b32 < 256,
                a32 < 256,
        ;
    }
    p
}

/// Red channel of a pixel.
pub fn red(p: u32) -> (r: u8)
    ensures
        r == red_of(p),
{
    proof {
        lemma_channel_bits(p);
    }
    (p >> 24) as u8
}

/// Green channel of a pixel.
pub fn green(p: u32) -> (g: u8)
    ensures
        g == green_of(p),
{
    proof {
        lemma_channel_bits(p);
    }
    ((p >> 16) & 0xff) as u8
}

/// Blue channel of a pixel.
pub fn blue(p: u32) -> (b: u8)
    ensures
        b == blue_of(p),
{
    proof {
        lemma_channel_bits(p);
    }
    ((p >> 8) & 0xff) as u8
}

/// Alpha channel of a pixel.
pub fn alpha(p: u32) -> (a: u8)
    ensures
        a == alpha_of(p),
{
    proof {
        lemma_channel_bits(p);
    }
    (p & 0xff) as u8
}

/// Splits a pixel into its red, green and blue channels.
pub fn extract_rgb(p: u32) -> (c: (u8, u8, u8))
    ensures
        c == (red_of(p), green_of(p), blue_of(p)),
{
    (red(p), green(p), blue(p))
}

/// Splits a pixel into its four channels.
pub fn extract_rgba(p: u32) -> (c: (u8, u8, u8, u8))
    ensures
        c == (red_of(p), green_of(p), blue_of(p), alpha_of(p)),
{
    (red(p), green(p), blue(p), alpha(p))
}

/// Unpacking a packed pixel gives back its channels, and packing the
/// channels of a pixel gives back the pixel.
pub proof fn lemma_rgba_roundtrip(r: u8, g: u8, b: u8, a: u8, p: u32)
    ensures
        red_of(rgba_word(r, g, b, a)) == r,
        green_of(rgba_word(r, g, b, a)) == g,
        blue_of(rgba_word(r, g, b, a)) == b,
        alpha_of(rgba_word(r, g, b, a)) == a,
        rgba_word(red_of(p), green_of(p), blue_of(p), alpha_of(p)) == p,
{
}

} // verus!
