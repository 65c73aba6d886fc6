//! The heat field of the classic demoscene fire: bottom-row seeding and upward
//! propagation with cooling.

use vstd::prelude::*;
use crate::util::{Rng, xorshift_iter, top_byte};

verus! {

/// A grid of heat values (row-major, `width * height` cells).
pub struct FireGrid {
    heat: Vec<u8>,
    width: usize,
    height: usize,
}

/// Saturating subtraction on heat values.
pub open spec fn sat_sub_u16(a: int, b: int) -> int {
    if a - b < 0 { 0 } else { a - b }
}

/// Column sampled at `x` when the wind shifts the flames by `wind`: `(x + wind + w) mod w`.
pub open spec fn wind_col(x: int, wind: int, w: int) -> int {
    let v = x + wind + w;
    if v >= 0 { v % w } else { -((-v) % w) }
}

/// The winds that `propagate` accepts on a grid `w` columns wide: any wind on a single
/// column, otherwise no shift further left than the width (a larger one would sample a
/// column left of the grid).
pub open spec fn wind_ok(wind: int, w: int) -> bool {
    w == 1 || -w <= wind
}

/// The new heat of cell `(x, y - 1)` computed from row `y` (and `y + 1`) of `g`:
/// the average of the cell below (wind-shifted), its left and right neighbours and the
/// cell two rows down (the cell below itself on the bottom row), minus `cooling`.
pub open spec fn rise_heat(g: Seq<u8>, w: int, h: int, x: int, y: int, wind: int, cooling: int) -> u8 {
    let x0 = wind_col(x, wind, w);
    let x1 = (x0 + w - 1) % w;
    let x2 = (x0 + 1) % w;
    let below = g[y * w + x0] as int;
    let below_left = g[y * w + x1] as int;
    let below_right = g[y * w + x2] as int;
    let below2 = if y + 1 < h { g[(y + 1) * w + x0] as int } else { below };
    sat_sub_u16((below + below_left + below_right + below2) / 4, cooling) as u8
}

impl FireGrid {
    /// The heat cells, row-major.
    pub closed spec fn cells(&self) -> Seq<u8> {
        self.heat@
    }

    /// Width in cells.
    pub closed spec fn spec_width(&self) -> usize {
        self.width
    }

    /// Height in cells.
    pub closed spec fn spec_height(&self) -> usize {
        self.height
    }

    /// Well-formedness: one cell per position, at least one row and column.
    pub open spec fn wf(&self) -> bool {
        &&& self.cells().len() == self.spec_width() * self.spec_height()
        &&& self.spec_width() >= 1
        &&& self.spec_height() >= 1
        &&& self.spec_width() * self.spec_height() <= usize::MAX
        &&& self.spec_width() <= i32::MAX / 4
    }

    /// A cold grid of `width` by `height` cells.
    pub fn new(width: usize, height: usize) -> (g: Self)
        requires
            width >= 1,
            height >= 1,
            width * height <= usize::MAX,
            width <= i32::MAX / 4,
        ensures
            g.wf(),
            g.spec_width() == width,
            g.spec_height() == height,
            forall|i: int| 0 <= i < width * height ==> #[trigger] g.cells()[i] == 0,
    {
        assert(0 <= width * height) by (nonlinear_arith);
        FireGrid { heat: vec![0u8; width * height], width, height }
    }

    /// Width in cells.
    pub fn width(&self) -> (w: usize)
        ensures
            w == self.spec_width(),
    {
        self.width
    }

    /// Height in cells.
    pub fn height(&self) -> (h: usize)
        ensures
            h == self.spec_height(),
    {
        self.height
    }

    /// Resize to `new_w` by `new_h` (each at least 1) when that differs from the current
    /// size; the grid then starts cold. An unchanged size keeps the heat.
    pub fn resize(&mut self, new_w: usize, new_h: usize)
        requires
            old(self).wf(),
            new_w * new_h <= usize::MAX,
            new_w <= i32::MAX / 4,
        ensures
            final(self).wf(),
            new_w == old(self).spec_width() && new_h == old(self).spec_height() ==> final(self).cells()
                == old(self).cells() && final(self).spec_width() == old(self).spec_width()
                && final(self).spec_height() == old(self).spec_height(),
            !(new_w == old(self).spec_width() && new_h == old(self).spec_height()) ==> {
                &&& final(self).spec_width() == if new_w >= 1 { new_w } else { 1 }
                &&& final(self).spec_height() == if new_h >= 1 { new_h } else { 1 }
                &&& forall|i: int|
                    0 <= i < final(self).cells().len() ==> #[trigger] final(self).cells()[i] == 0
            },
    {
        if new_w != self.width || new_h != self.height {
            let w = if new_w >= 1 { new_w } else { 1 };
            let h = if new_h >= 1 { new_h } else { 1 };
            assert(w * h <= usize::MAX) by (nonlinear_arith)
                requires
                    new_w * new_h <= usize::MAX,
                    w == (if new_w >= 1 { new_w } else { 1 }),
                    h == (if new_h >= 1 { new_h } else { 1 }),
                    new_w <= i32::MAX / 4,
            ;
            assert(0 <= w * h) by (nonlinear_arith);
            self.width = w;
            self.height = h;
            self.heat = vec![0u8; w * h];
        }
    }

    /// The heat at `(x, y)`.
    pub fn heat_at(&self, x: usize, y: usize) -> (v: u8)
        requires
            self.wf(),
            x < self.spec_width(),
            y < self.spec_height(),
        ensures
            v == self.cells()[y * self.spec_width() + x],
    {
        proof {
            crate::pixel_buffer::lemma_lin_bounds(self.width as int, self.height as int, x as int, y as int);
        }
        self.heat[y * self.width + x]
    }

    /// Seed the bottom row: cell `x` becomes `bases[x]` plus a flicker of `next_u8() % 80`
    /// (saturating), drawing one random byte per column from left to right.
    pub fn seed_bottom_row(&mut self, bases: &[u8], rng: &mut Rng)
        requires
            old(self).wf(),
            bases@.len() == old(self).spec_width(),
        ensures
            final(self).wf(),
            final(self).spec_width() == old(self).spec_width(),
            final(self).spec_height() == old(self).spec_height(),
            final(rng).state() == xorshift_iter(old(rng).state(), old(self).spec_width() as nat),
            ({
                let w = old(self).spec_width() as int;
                let h = old(self).spec_height() as int;
                forall|i: int|
                    0 <= i < w * h ==> #[trigger] final(self).cells()[i] == if i >= (h - 1) * w {
                        crate::pixel_buffer::sat_add(
                            bases@[i - (h - 1) * w],
                            top_byte(xorshift_iter(old(rng).state(), (i - (h - 1) * w + 1) as nat)) % 80,
                        )
                    } else {
                        old(self).cells()[i]
                    }
            }),
    {
        let w = self.width;
        let h = self.height;
        proof {
            assert((h - 1) * w + w == w * h) by (nonlinear_arith);
            assert(0 <= (h - 1) * w) by (nonlinear_arith)
                requires
                    h >= 1,
            ;
        }
        let row = (h - 1) * w;
        let mut x: usize = 0;
        while x < w
            invariant
                self.wf(),
                self.spec_width() == w,
                self.spec_height() == h,
                w == old(self).spec_width(),
                h == old(self).spec_height(),
                bases@.len() == w,
                row == (h - 1) * w,
                row + w == w * h,
                x <= w,
                rng.state() == xorshift_iter(old(rng).state(), x as nat),
                forall|i: int|
                    0 <= i < w * h ==> #[trigger] self.cells()[i] == if row <= i < row + x {
                        crate::pixel_buffer::sat_add(
                            bases@[i - row],
                            top_byte(xorshift_iter(old(rng).state(), (i - row + 1) as nat)) % 80,
                        )
                    } else {
                        old(self).cells()[i]
                    },
            decreases w - x,
        {
            let flicker = rng.next_u8() % 80;
            let v = bases[x].saturating_add(flicker);
            self.heat.set(row + x, v);
            x = x + 1;
        }
    }

    /// Propagate heat upwards: for each row `y` from 1 down to the bottom and each column
    /// `x`, cell `(x, y - 1)` becomes `rise_heat` of the old grid with a cooling of
    /// `1 + next_u8() % 3`, one random byte drawn per cell in that order.
    pub fn propagate(&mut self, wind: i32, rng: &mut Rng)
        requires
            old(self).wf(),
            wind_ok(wind as int, old(self).spec_width() as int),
            wind <= i32::MAX / 2,
        ensures
            final(self).wf(),
            final(self).spec_width() == old(self).spec_width(),
            final(self).spec_height() == old(self).spec_height(),
            ({
                let w = old(self).spec_width() as int;
                let h = old(self).spec_height() as int;
                &&& final(rng).state() == xorshift_iter(old(rng).state(), ((h - 1) * w) as nat)
                &&& forall|i: int|
                    0 <= i < w * h ==> #[trigger] final(self).cells()[i] == if i < (h - 1) * w {
                        rise_heat(
                            old(self).cells(),
                            w,
                            h,
                            i % w,
                            i / w + 1,
                            wind as int,
                            1 + (top_byte(xorshift_iter(old(rng).state(), (i + 1) as nat)) % 3) as int,
                        )
                    } else {
                        old(self).cells()[i]
                    }
            }),
    {
        let w = self.width;
        let h = self.height;
        let ghost g0 = self.heat@;
        let ghost s0 = rng.state();
        let mut y: usize = 1;
        while y < h
            invariant
                self.wf(),
                self.spec_width() == w,
                self.spec_height() == h,
                w == old(self).spec_width(),
                h == old(self).spec_height(),
                g0 == old(self).cells(),
                s0 == old(rng).state(),
                wind_ok(wind as int, w as int),
                wind <= i32::MAX / 2,
                1 <= y <= h,
                rng.state() == xorshift_iter(s0, ((y - 1) * w) as nat),
                forall|i: int|
                    0 <= i < w * h ==> #[trigger] self.cells()[i] == if i < (y - 1) * w {
                        rise_heat(
                            g0,
                            w as int,
                            h as int,
                            i % (w as int),
                            i / (w as int) + 1,
                            wind as int,
                            1 + (top_byte(xorshift_iter(s0, (i + 1) as nat)) % 3) as int,
                        )
                    } else {
                        g0[i]
                    },
            decreases h - y,
        {
            let mut x: usize = 0;
            while x < w
                invariant
                    self.wf(),
                    self.spec_width() == w,
                    self.spec_height() == h,
                    w == old(self).spec_width(),
                    h == old(self).spec_height(),
                    g0 == old(self).cells(),
                    s0 == old(rng).state(),
                    wind_ok(wind as int, w as int),
                    wind <= i32::MAX / 2,
                    1 <= y < h,
                    x <= w,
                    rng.state() == xorshift_iter(s0, ((y - 1) * w + x) as nat),
                    forall|i: int|
                        0 <= i < w * h ==> #[trigger] self.cells()[i] == if i < (y - 1) * w + x {
                            rise_heat(
                                g0,
                                w as int,
                                h as int,
                                i % (w as int),
                                i / (w as int) + 1,
                                wind as int,
                                1 + (top_byte(xorshift_iter(s0, (i + 1) as nat)) % 3) as int,
                            )
                        } else {
                            g0[i]
                        },
                decreases w - x,
            {
                proof {
                    assert((y + 1) * w <= w * h) by (nonlinear_arith)
                        requires
                            y + 1 <= h,
                    ;
                    assert((y - 1) * w + x < y * w) by (nonlinear_arith)
                        requires
                            x < w,
                            y >= 1,
                    ;
                    assert(y * w + w == (y + 1) * w) by (nonlinear_arith);
                    assert(0 <= (y - 1) * w) by (nonlinear_arith)
                        requires
                            y >= 1,
                    ;
                }
                let wi = w as i32;
                let wind_x = (x as i32 + wind + wi) % wi;
                let x0 = wind_x as usize;
                let x1 = (x0 + w - 1) % w;
                let x2 = (x0 + 1) % w;
                let below = self.heat[y * w + x0] as u16;
                let below_left = self.heat[y * w + x1] as u16;
                let below_right = self.heat[y * w + x2] as u16;
                assert(x0 < w);
                let below2 = if y + 1 < h {
                    proof {
                        assert((y + 1) * w + w <= w * h) by (nonlinear_arith)
                            requires
                                y + 2 <= h,
                        ;
                    }
                    self.heat[(y + 1) * w + x0] as u16
                } else {
                    below
                };
                let mut heat = (below + below_left + below_right + below2) / 4;
                let cooling = 1 + (rng.next_u8() % 3) as u16;
                heat = heat.saturating_sub(cooling);
                let ghost k: int = (y - 1) * w + x;
                proof {
                    vstd::arithmetic::div_mod::lemma_fundamental_div_mod_converse(
                        k,
                        w as int,
                        (y - 1) as int,
                        x as int,
                    );
                    assert(wind_x == wind_col(x as int, wind as int, w as int));
                    assert(heat as u8 == rise_heat(
                        g0,
                        w as int,
                        h as int,
                        k % (w as int),
                        k / (w as int) + 1,
                        wind as int,
                        1 + (top_byte(xorshift_iter(s0, (k + 1) as nat)) % 3) as int,
                    ));
                }
                self.heat.set((y - 1) * w + x, heat as u8);
                x = x + 1;
            }
            proof {
                assert((y - 1) * w + w == y * w) by (nonlinear_arith);
            }
            y = y + 1;
        }
    }
}

/// Fire cools as it rises: when no cell of `g` is hotter than `m`, a cell computed by
/// `rise_heat` with a cooling of at least one is at most `m - 1`, and `0` when `m` is `0`.
pub proof fn lemma_rise_heat_cools(
    g: Seq<u8>,
    w: int,
    h: int,
    x: int,
    y: int,
    wind: int,
    cooling: int,
    m: int,
)
    requires
        w >= 1,
        h >= 1,
        g.len() == w * h,
        0 <= x < w,
        0 <= y < h,
        wind_ok(wind, w),
        cooling >= 1,
        forall|i: int| 0 <= i < g.len() ==> g[i] <= m,
    ensures
        rise_heat(g, w, h, x, y, wind, cooling) <= if m >= 1 { m - 1 } else { 0 },
{
    let x0 = wind_col(x, wind, w);
    assert(0 <= x0 < w);
    let x1 = (x0 + w - 1) % w;
    let x2 = (x0 + 1) % w;
    assert(0 <= y * w + x0 < w * h && 0 <= y * w + x1 < w * h && 0 <= y * w + x2 < w * h) by (nonlinear_arith)
        requires
            0 <= y < h,
            0 <= x0 < w,
            0 <= x1 < w,
            0 <= x2 < w,
    ;
    if y + 1 < h {
        assert(0 <= (y + 1) * w + x0 < w * h) by (nonlinear_arith)
            requires
                0 <= y + 1 < h,
                0 <= x0 < w,
        ;
    }
}

} // verus!
