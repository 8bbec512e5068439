use vstd::prelude::*;

use crate::render::channel;

verus! {

/// Renderer that favours looks over speed.
pub struct RenderSettingsPretty {}

/// Channel `t` of the text laid over channel `b` of the background with
/// coverage `a` out of 255, rounded down.
pub open spec fn blend_channel(t: int, b: int, a: int) -> int {
    (t * a + b * (255 - a)) / 255
}

/// The pixel `bg` with the colour `color` laid over it at coverage `alpha`,
/// each of the four bytes blended on its own.
pub open spec fn blended(bg: u32, color: u32, alpha: u8) -> int {
    blend_channel(channel(color, 24), channel(bg, 24), alpha as int) * 16777216 + blend_channel(
        channel(color, 16),
        channel(bg, 16),
        alpha as int,
    ) * 65536 + blend_channel(channel(color, 8), channel(bg, 8), alpha as int) * 256 + blend_channel(
        channel(color, 0),
        channel(bg, 0),
        alpha as int,
    )
}

proof fn lemma_channels4(c: u32)
    ensures
        (c >> 24u32) & 0xFFu32 == channel(c, 24),
        (c >> 16u32) & 0xFFu32 == channel(c, 16),
        (c >> 8u32) & 0xFFu32 == channel(c, 8),
        c & 0xFFu32 == channel(c, 0),
{
    vstd::arithmetic::power2::lemma2_to64();
    assert((c >> 24u32) & 0xFFu32 == (c / 16777216) % 256) by (bit_vector);
    assert((c >> 16u32) & 0xFFu32 == (c / 65536) % 256) by (bit_vector);
    assert((c >> 8u32) & 0xFFu32 == (c / 256) % 256) by (bit_vector);
    assert(c & 0xFFu32 == (c / 1) % 256) by (bit_vector);
}

fn blend_byte(t: u32, b: u32, alpha: u8) -> (r: u32)
    requires
        t < 256,
        b < 256,
    ensures
        r == blend_channel(t as int, b as int, alpha as int),
        r < 256,
{
    let inv_alpha: u8 = 255 - alpha;
    assert(t * alpha <= 255 * alpha) by (nonlinear_arith)
        requires
            t < 256,
    ;
    assert(b * inv_alpha <= 255 * inv_alpha) by (nonlinear_arith)
        requires
            b < 256,
    ;
    let mixed = (t as u16 * alpha as u16 + b as u16 * inv_alpha as u16) / 255;
    mixed as u32
}

impl RenderSettingsPretty {
    pub fn new() -> (r: Self) {
        RenderSettingsPretty {}
    }

    /// The pixel `bg` with the text colour `color` laid over it at coverage
    /// `alpha` out of 255: each of the four bytes becomes
    /// `(text * alpha + background * (255 - alpha)) / 255`.
    pub fn blend_pixel(&self, bg: u32, color: u32, alpha: u8) -> (r: u32)
        ensures
            r == blended(bg, color, alpha),
    {
        proof {
            lemma_channels4(bg);
            lemma_channels4(color);
        }
        let nr = blend_byte((color >> 24) & 0xFF, (bg >> 24) & 0xFF, alpha);
        let ng = blend_byte((color >> 16) & 0xFF, (bg >> 16) & 0xFF, alpha);
        let nb = blend_byte((color >> 8) & 0xFF, (bg >> 8) & 0xFF, alpha);
        let na = blend_byte(color & 0xFF, bg & 0xFF, alpha);
        assert((nr << 24u32) | (ng << 16u32) | (nb << 8u32) | na == nr * 16777216 + ng * 65536 + nb * 256 + na)
            by (bit_vector)
            requires
                nr < 256,
                ng < 256,
                nb < 256,
                na < 256,
        ;
        (nr << 24) | (ng << 16) | (nb << 8) | na
    }
}

/// Laying a colour over a pixel at full coverage gives the colour, and at no
/// coverage leaves the pixel as it was.
pub proof fn lemma_blend_extremes(bg: u32, color: u32)
    ensures
        blended(bg, color, 255) == color,
        blended(bg, color, 0) == bg,
{
    vstd::arithmetic::power2::lemma2_to64();
    assert(channel(color, 24) == (color / 16777216) % 256);
    assert(channel(color, 16) == (color / 65536) % 256);
    assert(channel(color, 8) == (color / 256) % 256);
    assert(channel(color, 0) == color % 256);
    assert(channel(bg, 24) == (bg / 16777216) % 256);
    assert(channel(bg, 16) == (bg / 65536) % 256);
    assert(channel(bg, 8) == (bg / 256) % 256);
    assert(channel(bg, 0) == bg % 256);
    assert forall|t: int, b: int| 0 <= t < 256 && 0 <= b < 256 implies blend_channel(t, b, 255) == t && blend_channel(t, b, 0) == b by {
        assert(t * 255 + b * 0 == t * 255) by (nonlinear_arith);
        assert(t * 0 + b * 255 == b * 255) by (nonlinear_arith);
    }
    assert((color / 16777216) % 256 * 16777216 + (color / 65536) % 256 * 65536 + (color / 256) % 256 * 256 + color % 256 == color) by (bit_vector);
    assert((bg / 16777216) % 256 * 16777216 + (bg / 65536) % 256 * 65536 + (bg / 256) % 256 * 256 + bg % 256 == bg) by (bit_vector);
}

} // verus!
