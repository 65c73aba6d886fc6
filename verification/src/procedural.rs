//! Procedural textures and palettes used by the tunnel and raycaster effects.

use vstd::prelude::*;
use crate::texture::{Texture, Texel};

verus! {

/// Side of the raycaster's brick texture.
pub const BRICK_TEX_SIZE: u32 = 64;
/// Side of the tunnel's wall texture.
pub const WALL_TEX_SIZE: u32 = 256;

/// Texel `(x, y)` of the raycaster brick texture: 16x8 bricks with alternate rows shifted by
/// half a brick and 1-texel mortar lines; bricks are warm-tinted with red `v`, green
/// `3v/4` and blue `11v/20` (rounded down), `v = 130 + (id & 0x3F)` for the brick number `id`.
pub open spec fn brick_texel(x: int, y: int) -> Texel {
    let row = y / 8;
    let offset: int = if row % 2 == 0 { 0 } else { 8 };
    let bx = (x + offset) % 16;
    let by = y % 8;
    if bx < 1 || by < 1 {
        (40u8, 38u8, 35u8, 255u8)
    } else {
        let brick_id = ((y / 8) * 13 + ((x + offset) / 16) * 29) % 256;
        let v = 130 + brick_id % 64;
        (v as u8, (v * 3 / 4) as u8, (v * 11 / 20) as u8, 255u8)
    }
}

/// Grey level of texel `(x, y)` of the tunnel wall texture: 64x32 bricks with alternate rows
/// shifted by half a brick, 4-texel mortar (grey 40), and bricks of base level
/// `130 + (id & 0x3F)` darkened toward their edges by `|bx - 32| / 8 + |by - 16| / 4`.
pub open spec fn wall_level(x: int, y: int) -> u8 {
    let row = y / 32;
    let offset: int = if row % 2 == 0 { 0 } else { 32 };
    let bx = (x + offset) % 64;
    let by = y % 32;
    if bx < 4 || by < 4 {
        40u8
    } else {
        let brick_id = ((y / 32) * 17 + ((x + offset) / 64) * 31) % 256;
        let base = 130 + brick_id % 64;
        let cx = if bx >= 32 { bx - 32 } else { 32 - bx };
        let cy = if by >= 16 { by - 16 } else { 16 - by };
        let edge = cx / 8 + cy / 4;
        (base - if edge < base { edge } else { base }) as u8
    }
}

/// Procedural brick wall texture with warm colour tint (64x64).
pub fn build_brick_texture() -> (t: Texture)
    ensures
        t.wf(),
        t.spec_width() == BRICK_TEX_SIZE,
        t.spec_height() == BRICK_TEX_SIZE,
        forall|x: int, y: int| t.contains(x, y) ==> #[trigger] t.texel(x, y) == brick_texel(x, y),
{
    let size = BRICK_TEX_SIZE;
    let mut tex = Texture::new(size, size);
    let brick_w = 16u32;
    let brick_h = 8u32;
    let mut y: u32 = 0;
    while y < size
        invariant
            tex.wf(),
            tex.spec_width() == size,
            tex.spec_height() == size,
            size == 64,
            brick_w == 16,
            brick_h == 8,
            y <= size,
            forall|xx: int, yy: int|
                tex.contains(xx, yy) ==> #[trigger] tex.texel(xx, yy) == if yy < y {
                    brick_texel(xx, yy)
                } else {
                    (0u8, 0u8, 0u8, 0u8)
                },
        decreases size - y,
    {
        let mut x: u32 = 0;
        while x < size
            invariant
                tex.wf(),
                tex.spec_width() == size,
                tex.spec_height() == size,
                size == 64,
                brick_w == 16,
                brick_h == 8,
                y < size,
                x <= size,
                forall|xx: int, yy: int|
                    tex.contains(xx, yy) ==> #[trigger] tex.texel(xx, yy) == if yy < y || (yy == y
                        && xx < x) {
                        brick_texel(xx, yy)
                    } else {
                        (0u8, 0u8, 0u8, 0u8)
                    },
            decreases size - x,
        {
            let row = y / brick_h;
            let offset = if row % 2 == 0 { 0 } else { brick_w / 2 };
            let bx = (x + offset) % brick_w;
            let by = y % brick_h;
            let mortar = bx < 1 || by < 1;
            if mortar {
                tex.set_pixel(x, y, 40, 38, 35, 255);
            } else {
                let pre: u32 = (y / brick_h) * 13 + ((x + offset) / brick_w) * 29;
                let brick_id = pre & 0xFF;
                assert(brick_id == pre % 256) by (bit_vector)
                    requires
                        brick_id == pre & 0xFF,
                ;
                let low = brick_id & 0x3F;
                assert(low == brick_id % 64) by (bit_vector)
                    requires
                        low == brick_id & 0x3F,
                ;
                let base = 130 + low as u16;
                let v: u8 = if base < 255 { base as u8 } else { 255 };
                let r = v;
                let g = ((v as u16 * 3) / 4) as u8;
                let b = ((v as u16 * 11) / 20) as u8;
                tex.set_pixel(x, y, r, g, b, 255);
            }
            x = x + 1;
        }
        y = y + 1;
    }
    tex
}

/// Brick wall texture of the tunnel: offset mortar rows with per-brick variation (256x256, grey).
pub fn build_wall_texture() -> (t: Texture)
    ensures
        t.wf(),
        t.spec_width() == WALL_TEX_SIZE,
        t.spec_height() == WALL_TEX_SIZE,
        forall|x: int, y: int|
            t.contains(x, y) ==> #[trigger] t.texel(x, y) == (
                wall_level(x, y),
                wall_level(x, y),
                wall_level(x, y),
                255u8,
            ),
{
    let size = WALL_TEX_SIZE;
    let mut tex = Texture::new(size, size);
    let brick_w = 64u32;
    let brick_h = 32u32;
    let mut y: u32 = 0;
    while y < size
        invariant
            tex.wf(),
            tex.spec_width() == size,
            tex.spec_height() == size,
            size == 256,
            brick_w == 64,
            brick_h == 32,
            y <= size,
            forall|xx: int, yy: int|
                tex.contains(xx, yy) ==> #[trigger] tex.texel(xx, yy) == if yy < y {
                    (wall_level(xx, yy), wall_level(xx, yy), wall_level(xx, yy), 255u8)
                } else {
                    (0u8, 0u8, 0u8, 0u8)
                },
        decreases size - y,
    {
        let mut x: u32 = 0;
        while x < size
            invariant
                tex.wf(),
                tex.spec_width() == size,
                tex.spec_height() == size,
                size == 256,
                brick_w == 64,
                brick_h == 32,
                y < size,
                x <= size,
                forall|xx: int, yy: int|
                    tex.contains(xx, yy) ==> #[trigger] tex.texel(xx, yy) == if yy < y || (yy == y
                        && xx < x) {
                        (wall_level(xx, yy), wall_level(xx, yy), wall_level(xx, yy), 255u8)
                    } else {
                        (0u8, 0u8, 0u8, 0u8)
                    },
            decreases size - x,
        {
            let row = y / brick_h;
            let offset = if row % 2 == 0 { 0 } else { brick_w / 2 };
            let bx = (x + offset) % brick_w;
            let by = y % brick_h;
            let mortar = bx < 4 || by < 4;
            let v = if mortar {
                40u8
            } else {
                let pre: u32 = (y / brick_h) * 17 + ((x + offset) / brick_w) * 31;
                let brick_id = pre & 0xFF;
                assert(brick_id == pre % 256) by (bit_vector)
                    requires
                        brick_id == pre & 0xFF,
                ;
                let low = brick_id & 0x3F;
                assert(low == brick_id % 64) by (bit_vector)
                    requires
                        low == brick_id & 0x3F,
                ;
                let base = 130u16 + low as u16;
                let cxi = bx as i32 - (brick_w / 2) as i32;
                let cx0: u32 = if cxi >= 0 { cxi as u32 } else { (-cxi) as u32 };
                let cx = if cx0 < brick_w { cx0 } else { brick_w };
                let cyi = by as i32 - (brick_h / 2) as i32;
                let cy0: u32 = if cyi >= 0 { cyi as u32 } else { (-cyi) as u32 };
                let cy = if cy0 < brick_h { cy0 } else { brick_h };
                let edge_dim = (cx / 8 + cy / 4) as u16;
                let dim = if edge_dim < base { edge_dim } else { base };
                let lvl = base - dim;
                if lvl < 255 { lvl as u8 } else { 255u8 }
            };
            tex.set_pixel(x, y, v, v, v, 255);
            x = x + 1;
        }
        y = y + 1;
    }
    tex
}

/// Entry `h * 256 + l` of the 2D palette: base colour `h` scaled by luminance `l / 256`.
pub open spec fn palette_2d_entry(base: (u8, u8, u8), l: int) -> (u8, u8, u8) {
    ((l * base.0 / 256) as u8, (l * base.1 / 256) as u8, (l * base.2 / 256) as u8)
}

/// Build the 2D palette: for each base colour (hue) a ramp of 256 luminance levels,
/// `palette[h * 256 + l] == base[h] * l >> 8` channel-wise.
pub fn build_palette_2d(bases: &[(u8, u8, u8)]) -> (p: Vec<(u8, u8, u8)>)
    requires
        bases@.len() * 256 <= usize::MAX,
    ensures
        p@.len() == bases@.len() * 256,
        forall|h: int, l: int|
            0 <= h < bases@.len() && 0 <= l < 256 ==> #[trigger] p@[h * 256 + l] == palette_2d_entry(
                bases@[h],
                l,
            ),
{
    let mut palette: Vec<(u8, u8, u8)> = Vec::new();
    let n = bases.len();
    let mut h: usize = 0;
    while h < n
        invariant
            n == bases@.len(),
            n * 256 <= usize::MAX,
            h <= n,
            palette@.len() == h * 256,
            forall|hh: int, l: int|
                0 <= hh < h && 0 <= l < 256 ==> #[trigger] palette@[hh * 256 + l] == palette_2d_entry(
                    bases@[hh],
                    l,
                ),
        decreases n - h,
    {
        let (pr, pg, pb) = bases[h];
        let mut l: u16 = 0;
        while l < 256
            invariant
                n == bases@.len(),
                n * 256 <= usize::MAX,
                h < n,
                l <= 256,
                (pr, pg, pb) == bases@[h as int],
                palette@.len() == h * 256 + l,
                forall|hh: int, ll: int|
                    (0 <= hh < h && 0 <= ll < 256) || (hh == h && 0 <= ll < l) ==> #[trigger] palette@[hh
                        * 256 + ll] == palette_2d_entry(bases@[hh], ll),
            decreases 256 - l,
        {
            assert(l * pr as u16 <= 255 * 255) by (nonlinear_arith)
                requires
                    l <= 255,
                    pr <= 255,
            ;
            assert(l * pg as u16 <= 255 * 255) by (nonlinear_arith)
                requires
                    l <= 255,
                    pg <= 255,
            ;
            assert(l * pb as u16 <= 255 * 255) by (nonlinear_arith)
                requires
                    l <= 255,
                    pb <= 255,
            ;
            let a: u16 = l * pr as u16;
            let b: u16 = l * pg as u16;
            let c: u16 = l * pb as u16;
            let ra: u16 = a >> 8u16;
            let rb: u16 = b >> 8u16;
            let rc: u16 = c >> 8u16;
            assert(ra == a / 256 && rb == b / 256 && rc == c / 256) by (bit_vector)
                requires
                    ra == a >> 8u16,
                    rb == b >> 8u16,
                    rc == c >> 8u16,
            ;
            proof {
                assert((h + 1) * 256 <= n * 256) by (nonlinear_arith)
                    requires
                        h + 1 <= n,
                ;
            }
            palette.push((ra as u8, rb as u8, rc as u8));
            proof {
                assert(h * 256 + l == palette@.len() - 1);
            }
            l = l + 1;
        }
        proof {
            assert((h + 1) * 256 == h * 256 + 256) by (nonlinear_arith);
        }
        h = h + 1;
    }
    palette
}

} // verus!
