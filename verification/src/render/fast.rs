use vstd::prelude::*;

use crate::render::{brightened, channel, clamp_channel};

verus! {

/// Renderer that favours speed over looks.
pub struct RenderSettingsFast {}

fn clamp_i32(v: i32) -> (r: u32)
    ensures
        r == clamp_channel(v as int),
{
    if v < 0 {
        0
    } else if v > 255 {
        255
    } else {
        v as u32
    }
}

proof fn lemma_channels(color: u32)
    ensures
        (color >> 16u32) & 0xFFu32 == channel(color, 16),
        (color >> 8u32) & 0xFFu32 == channel(color, 8),
        color & 0xFFu32 == channel(color, 0),
{
    vstd::arithmetic::power2::lemma2_to64();
    assert((color >> 16u32) & 0xFFu32 == (color / 65536) % 256) by (bit_vector);
    assert((color >> 8u32) & 0xFFu32 == (color / 256) % 256) by (bit_vector);
    assert(color & 0xFFu32 == (color / 1) % 256) by (bit_vector);
}

impl RenderSettingsFast {
    pub fn new() -> (r: Self) {
        RenderSettingsFast {}
    }

    /// Adds `x` to the red, green and blue channels of `color`, holding each
    /// within 0 and 255; the alpha byte is dropped.
    pub fn adjust_brightness(&self, color: u32, x: i32) -> (r: u32)
        requires
            channel(color, 16) + x <= i32::MAX,
            channel(color, 8) + x <= i32::MAX,
            channel(color, 0) + x <= i32::MAX,
        ensures
            r == brightened(color, x),
    {
        proof {
            lemma_channels(color);
        }
        let r = ((color >> 16) & 0xFF) as i32;
        let g = ((color >> 8) & 0xFF) as i32;
        let b = (color & 0xFF) as i32;
        let r_new = clamp_i32(r + x);
        let g_new = clamp_i32(g + x);
        let b_new = clamp_i32(b + x);
        assert((r_new << 16u32) | (g_new << 8u32) | b_new == r_new * 65536 + g_new * 256 + b_new) by (bit_vector)
            requires
                r_new <= 255,
                g_new <= 255,
                b_new <= 255,
        ;
        (r_new << 16) | (g_new << 8) | b_new
    }
}

} // verus!
