//! Colour helpers for effects.

use vstd::prelude::*;

verus! {

/// Grayscale colour: the same value for red, green and blue.
pub fn gray(v: u8) -> (c: (u8, u8, u8))
    ensures
        c == (v, v, v),
{
    (v, v, v)
}

/// A colour channel ramp given in hundredths: `0` at or below zero, `255` from `255`
/// up, and the whole part of `hundredths / 100` in between.
pub open spec fn ramp_channel(hundredths: int) -> u8 {
    if hundredths <= 0 {
        0
    } else if hundredths >= 25500 {
        255
    } else {
        (hundredths / 100) as u8
    }
}

/// Entry `i` of the fire palette (black -> red -> orange -> yellow -> white): with
/// `t = i / 255`, red is `255 * min(3t, 1)`, green `255 * clamp(3(t - 0.33), 0, 1)` and
/// blue `255 * clamp(3(t - 0.66), 0, 1)`, each cut to its whole part.
pub open spec fn fire_color(i: int) -> (u8, u8, u8) {
    (ramp_channel(300 * i), ramp_channel(300 * i - 25245), ramp_channel(300 * i - 50490))
}

fn ramp(hundredths: i32) -> (c: u8)
    requires
        -60000 <= hundredths <= 80000,
    ensures
        c == ramp_channel(hundredths as int),
{
    if hundredths <= 0 {
        0
    } else if hundredths >= 25500 {
        255
    } else {
        (hundredths / 100) as u8
    }
}

/// The 256-entry fire palette (black -> red -> orange -> yellow -> white).
pub fn fire_palette() -> (p: Vec<(u8, u8, u8)>)
    ensures
        p@.len() == 256,
        forall|i: int| 0 <= i < 256 ==> #[trigger] p@[i] == fire_color(i),
{
    let mut palette: Vec<(u8, u8, u8)> = Vec::new();
    let mut i: i32 = 0;
    while i < 256
        invariant
            0 <= i <= 256,
            palette@.len() == i,
            forall|k: int| 0 <= k < i ==> #[trigger] palette@[k] == fire_color(k),
        decreases 256 - i,
    {
        let r = ramp(300 * i);
        let g = ramp(300 * i - 25245);
        let b = ramp(300 * i - 50490);
        palette.push((r, g, b));
        i = i + 1;
    }
    palette
}

} // verus!
