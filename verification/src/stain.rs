//! Afterglow stains: a grid of brightness values that light deposits into and that fades
//! a little every frame.

use vstd::prelude::*;
use crate::pixel_buffer::{PixelBuffer, additive_px, lemma_lin_bounds, lemma_lin_injective};

verus! {

/// Saturating addition of two brightness values.
pub open spec fn sat_add_u8(a: u8, b: u8) -> u8 {
    if a + b > 255 { 255 } else { (a + b) as u8 }
}

/// A brightness faded by `factor / 256`, rounded down.
pub open spec fn faded(v: u8, factor: u16) -> u8 {
    (v * factor / 256) as u8
}

/// The glow a stain of brightness `v` adds to a colour channel: `v * num / den`.
pub open spec fn glow(v: u8, tint: (u16, u16)) -> u8 {
    ((v as int) * (tint.0 as int) / (tint.1 as int)) as u8
}

/// A glow tint is a fraction of the brightness between zero and one.
pub open spec fn tint_ok(tint: (u16, u16)) -> bool {
    0 < tint.1 && tint.0 <= tint.1
}

/// A `width` by `height` grid of brightness values (row-major).
pub struct StainMap {
    cells: Vec<u8>,
    width: u32,
    height: u32,
}

impl StainMap {
    /// The cells, row-major.
    pub closed spec fn cells(&self) -> Seq<u8> {
        self.cells@
    }

    /// Width in cells.
    pub closed spec fn spec_width(&self) -> u32 {
        self.width
    }

    /// Height in cells.
    pub closed spec fn spec_height(&self) -> u32 {
        self.height
    }

    /// One cell per position, with indices that fit the integer types.
    pub open spec fn wf(&self) -> bool {
        &&& self.cells().len() == self.spec_width() * self.spec_height()
        &&& self.spec_width() * self.spec_height() <= u32::MAX
        &&& self.spec_width() <= i32::MAX
        &&& self.spec_height() <= i32::MAX
    }

    /// The brightness at `(x, y)`.
    pub open spec fn at(&self, x: int, y: int) -> u8 {
        self.cells()[y * self.spec_width() + x]
    }

    /// Whether `(x, y)` is a cell of the map.
    pub open spec fn contains(&self, x: int, y: int) -> bool {
        0 <= x < self.spec_width() && 0 <= y < self.spec_height()
    }

    /// A dark map of `width` by `height` cells.
    pub fn new(width: u32, height: u32) -> (m: Self)
        requires
            width * height <= u32::MAX,
            width <= i32::MAX,
            height <= i32::MAX,
        ensures
            m.wf(),
            m.spec_width() == width,
            m.spec_height() == height,
            forall|i: int| 0 <= i < width * height ==> #[trigger] m.cells()[i] == 0,
    {
        assert(0 <= width * height) by (nonlinear_arith);
        StainMap { cells: vec![0u8; (width * height) as usize], width, height }
    }

    /// Width in cells.
    pub fn width(&self) -> (w: u32)
        ensures
            w == self.spec_width(),
    {
        self.width
    }

    /// Height in cells.
    pub fn height(&self) -> (h: u32)
        ensures
            h == self.spec_height(),
    {
        self.height
    }

    /// The brightness at `(x, y)`, or `0` outside the map.
    pub fn get(&self, x: i32, y: i32) -> (v: u8)
        requires
            self.wf(),
        ensures
            v == if self.contains(x as int, y as int) { self.at(x as int, y as int) } else { 0 },
    {
        if x >= 0 && y >= 0 && (x as u32) < self.width && (y as u32) < self.height {
            proof {
                lemma_lin_bounds(self.width as int, self.height as int, x as int, y as int);
            }
            self.cells[(y as u32 * self.width + x as u32) as usize]
        } else {
            0
        }
    }

    /// Add `amount` (saturating) to the cell at `(x, y)`; positions outside the map are ignored.
    pub fn deposit(&mut self, x: i32, y: i32, amount: u8)
        requires
            old(self).wf(),
        ensures
            final(self).wf(),
            final(self).spec_width() == old(self).spec_width(),
            final(self).spec_height() == old(self).spec_height(),
            forall|xx: int, yy: int|
                final(self).contains(xx, yy) ==> #[trigger] final(self).at(xx, yy) == if xx == x && yy == y {
                    sat_add_u8(old(self).at(xx, yy), amount)
                } else {
                    old(self).at(xx, yy)
                },
    {
        if x >= 0 && y >= 0 && (x as u32) < self.width && (y as u32) < self.height {
            proof {
                lemma_lin_bounds(self.width as int, self.height as int, x as int, y as int);
            }
            let i = (y as u32 * self.width + x as u32) as usize;
            let old_v = self.cells[i];
            let v = old_v.saturating_add(amount);
            self.cells.set(i, v);
            proof {
                assert forall|xx: int, yy: int| self.contains(xx, yy) && !(xx == x && yy == y) implies #[trigger] self.at(
                    xx,
                    yy,
                ) == old(self).at(xx, yy) by {
                    lemma_lin_bounds(self.width as int, self.height as int, xx, yy);
                    if yy * self.width + xx == y * self.width + x {
                        lemma_lin_injective(self.width as int, xx, yy, x as int, y as int);
                    }
                }
            }
        }
    }

    /// Add `amount` (saturating) to the 3x3 block of cells centred on `(x, y)`, clipped to
    /// the map.
    pub fn deposit_3x3(&mut self, x: i32, y: i32, amount: u8)
        requires
            old(self).wf(),
            i32::MIN < x < i32::MAX,
            i32::MIN < y < i32::MAX,
        ensures
            final(self).wf(),
            final(self).spec_width() == old(self).spec_width(),
            final(self).spec_height() == old(self).spec_height(),
            forall|xx: int, yy: int|
                final(self).contains(xx, yy) ==> #[trigger] final(self).at(xx, yy) == if x - 1 <= xx <= x + 1 && y
                    - 1 <= yy <= y + 1 {
                    sat_add_u8(old(self).at(xx, yy), amount)
                } else {
                    old(self).at(xx, yy)
                },
    {
        let mut dy: i32 = -1;
        while dy <= 1
            invariant
                self.wf(),
                self.spec_width() == old(self).spec_width(),
                self.spec_height() == old(self).spec_height(),
                -1 <= dy <= 2,
                i32::MIN < x < i32::MAX,
                i32::MIN < y < i32::MAX,
                forall|xx: int, yy: int|
                    self.contains(xx, yy) ==> #[trigger] self.at(xx, yy) == if x - 1 <= xx <= x + 1 && y - 1 <= yy
                        < y + dy {
                        sat_add_u8(old(self).at(xx, yy), amount)
                    } else {
                        old(self).at(xx, yy)
                    },
            decreases 2 - dy,
        {
            let mut dx: i32 = -1;
            while dx <= 1
                invariant
                    self.wf(),
                    self.spec_width() == old(self).spec_width(),
                    self.spec_height() == old(self).spec_height(),
                    -1 <= dy <= 1,
                    -1 <= dx <= 2,
                    i32::MIN < x < i32::MAX,
                    i32::MIN < y < i32::MAX,
                    forall|xx: int, yy: int|
                        self.contains(xx, yy) ==> #[trigger] self.at(xx, yy) == if (x - 1 <= xx <= x + 1 && y - 1
                            <= yy < y + dy) || (x - 1 <= xx < x + dx && yy == y + dy) {
                            sat_add_u8(old(self).at(xx, yy), amount)
                        } else {
                            old(self).at(xx, yy)
                        },
                decreases 2 - dx,
            {
                self.deposit(x + dx, y + dy, amount);
                dx = dx + 1;
            }
            dy = dy + 1;
        }
    }

    /// Add the stains as a glow onto a buffer of the same size: every pixel whose stain is
    /// brighter than `2` gains `glow` of it per channel (saturating; alpha kept). A buffer
    /// of another size is left as it is.
    pub fn add_glow(&self, buffer: &mut PixelBuffer, r: (u16, u16), g: (u16, u16), b: (u16, u16))
        requires
            self.wf(),
            old(buffer).wf(),
            tint_ok(r),
            tint_ok(g),
            tint_ok(b),
        ensures
            final(buffer).wf(),
            final(buffer).same_size(old(buffer)),
            forall|x: int, y: int|
                final(buffer).contains(x, y) ==> #[trigger] final(buffer).rgba(x, y) == if self.spec_width()
                    == old(buffer).spec_width() && self.spec_height() == old(buffer).spec_height() && self.at(x, y)
                    > 2 {
                    additive_px(old(buffer).rgba(x, y), glow(self.at(x, y), r), glow(self.at(x, y), g), glow(self.at(x, y), b))
                } else {
                    old(buffer).rgba(x, y)
                },
    {
        if self.width != buffer.width() || self.height != buffer.height() {
            return;
        }
        let w = self.width;
        let h = self.height;
        let mut y: u32 = 0;
        while y < h
            invariant
                self.wf(),
                buffer.wf(),
                buffer.same_size(old(buffer)),
                w == self.spec_width(),
                h == self.spec_height(),
                w == buffer.spec_width(),
                h == buffer.spec_height(),
                tint_ok(r),
                tint_ok(g),
                tint_ok(b),
                y <= h,
                forall|xx: int, yy: int|
                    buffer.contains(xx, yy) ==> #[trigger] buffer.rgba(xx, yy) == if yy < y && self.at(xx, yy) > 2 {
                        additive_px(
                            old(buffer).rgba(xx, yy),
                            glow(self.at(xx, yy), r),
                            glow(self.at(xx, yy), g),
                            glow(self.at(xx, yy), b),
                        )
                    } else {
                        old(buffer).rgba(xx, yy)
                    },
            decreases h - y,
        {
            let mut x: u32 = 0;
            while x < w
                invariant
                    self.wf(),
                    buffer.wf(),
                    buffer.same_size(old(buffer)),
                    w == self.spec_width(),
                    h == self.spec_height(),
                    w == buffer.spec_width(),
                    h == buffer.spec_height(),
                    tint_ok(r),
                    tint_ok(g),
                    tint_ok(b),
                    y < h,
                    x <= w,
                    forall|xx: int, yy: int|
                        buffer.contains(xx, yy) ==> #[trigger] buffer.rgba(xx, yy) == if (yy < y || (yy == y && xx
                            < x)) && self.at(xx, yy) > 2 {
                            additive_px(
                                old(buffer).rgba(xx, yy),
                                glow(self.at(xx, yy), r),
                                glow(self.at(xx, yy), g),
                                glow(self.at(xx, yy), b),
                            )
                        } else {
                            old(buffer).rgba(xx, yy)
                        },
                decreases w - x,
            {
                proof {
                    lemma_lin_bounds(w as int, h as int, x as int, y as int);
                }
                let v = self.cells[(y * w + x) as usize];
                if v > 2 {
                    assert((v as int) * (r.0 as int) <= 255 * (r.1 as int) && (v as int) * (g.0 as int) <= 255 * (g.1 as int)
                        && (v as int) * (b.0 as int) <= 255 * (b.1 as int))
                        by (nonlinear_arith)
                        requires
                            v <= 255,
                            r.0 <= r.1,
                            g.0 <= g.1,
                            b.0 <= b.1,
                    ;
                    assert((v as int) * (r.0 as int) / (r.1 as int) <= 255 && (v as int) * (g.0 as int) / (g.1 as int) <= 255
                        && (v as int) * (b.0 as int) / (b.1 as int) <= 255)
                        by (nonlinear_arith)
                        requires
                            (v as int) * (r.0 as int) <= 255 * (r.1 as int),
                            (v as int) * (g.0 as int) <= 255 * (g.1 as int),
                            (v as int) * (b.0 as int) <= 255 * (b.1 as int),
                            r.1 > 0,
                            g.1 > 0,
                            b.1 > 0,
                    ;
                    let gr = (v as u32 * r.0 as u32 / r.1 as u32) as u8;
                    let gg = (v as u32 * g.0 as u32 / g.1 as u32) as u8;
                    let gb = (v as u32 * b.0 as u32 / b.1 as u32) as u8;
                    buffer.blend_pixel_additive(x as i32, y as i32, gr, gg, gb);
                }
                x = x + 1;
            }
            y = y + 1;
        }
    }

    /// Fade every cell by `factor / 256` (`256` keeps the map, `0` clears it).
    pub fn fade(&mut self, factor: u16)
        requires
            old(self).wf(),
            factor <= 256,
        ensures
            final(self).wf(),
            final(self).spec_width() == old(self).spec_width(),
            final(self).spec_height() == old(self).spec_height(),
            forall|i: int| 0 <= i < old(self).cells().len() ==> #[trigger] final(self).cells()[i] == faded(
                old(self).cells()[i],
                factor,
            ),
    {
        let n = self.cells.len();
        let mut i: usize = 0;
        while i < n
            invariant
                n == self.cells@.len(),
                n == old(self).cells@.len(),
                self.width == old(self).width,
                self.height == old(self).height,
                old(self).wf(),
                factor <= 256,
                i <= n,
                forall|k: int| 0 <= k < i ==> #[trigger] self.cells@[k] == faded(old(self).cells@[k], factor),
                forall|k: int| i <= k < n ==> #[trigger] self.cells@[k] == old(self).cells@[k],
            decreases n - i,
        {
            let v = self.cells[i];
            assert(v as u16 * factor <= 255 * 256) by (nonlinear_arith)
                requires
                    v <= 255,
                    factor <= 256,
            ;
            let p: u16 = v as u16 * factor;
            let f = (p >> 8u16) as u8;
            assert(p >> 8u16 == p / 256) by (bit_vector);
            self.cells.set(i, f);
            i = i + 1;
        }
    }
}

/// Fading by `256` keeps a brightness and fading by `0` clears it; fading never brightens.
pub proof fn lemma_fade_bounds(v: u8, factor: u16)
    requires
        factor <= 256,
    ensures
        faded(v, 256) == v,
        faded(v, 0) == 0,
        faded(v, factor) <= v,
{
    assert(v * factor / 256 <= v) by (nonlinear_arith)
        requires
            factor <= 256,
            0 <= v,
    ;
}

} // verus!
