//! RGBA8888 software pixel buffer (ABGR byte order per pixel) with
//! drawing primitives, blending and post-processing.

use vstd::prelude::*;

verus! {

/// Default canvas width.
pub const DEFAULT_WIDTH: u32 = 640;
/// Default canvas height.
pub const DEFAULT_HEIGHT: u32 = 480;

/// Compositing blend mode for `composite()` / `composite_full()`.
#[derive(Debug, Clone, Copy, PartialEq, Eq)]
pub enum BlendMode {
    /// Standard source-over alpha blending
    Alpha,
    /// Additive: dst += src * (src_alpha / 255), saturating
    Additive,
    /// Multiply: dst = lerp(dst, dst * src / 255, src_alpha)
    Multiply,
}

// ============================================================================
// Pixel-level specifications
// ============================================================================

/// A pixel as (red, green, blue, alpha).
pub type Rgba = (u8, u8, u8, u8);

/// The pixel at `(x, y)` of a byte image of row width `w`, stored as A, B, G, R.
pub open spec fn rgba_of(bytes: Seq<u8>, w: int, x: int, y: int) -> Rgba {
    px_lin(bytes, y * w + x)
}

/// The pixel with linear index `j`, stored as A, B, G, R at bytes `4j..4j+4`.
pub open spec fn px_lin(bytes: Seq<u8>, j: int) -> Rgba {
    let i = 4 * j;
    (bytes[i + 3], bytes[i + 2], bytes[i + 1], bytes[i])
}

/// The alpha-blend formula, with the fast division by 255:
/// `t = src * alpha + dst * (255 - alpha)`, result `(t + 1 + (t >> 8)) >> 8`.
pub open spec fn blend_spec(src: u8, dst: u8, alpha: u16) -> u8 {
    let t = src * alpha + dst * (255 - alpha);
    ((t + 1 + t / 256) / 256) as u8
}

/// Saturating addition of two channel values.
pub open spec fn sat_add(a: u8, b: u8) -> u8 {
    if a + b > 255 { 255 } else { (a + b) as u8 }
}

/// A pixel alpha-blended with colour `(r, g, b)` at `alpha`; the result is opaque.
pub open spec fn blend_px(p: Rgba, r: u8, g: u8, b: u8, alpha: u16) -> Rgba {
    (blend_spec(r, p.0, alpha), blend_spec(g, p.1, alpha), blend_spec(b, p.2, alpha), 255)
}

/// A pixel with `(r, g, b)` added channel-wise, saturating; alpha is kept.
pub open spec fn additive_px(p: Rgba, r: u8, g: u8, b: u8) -> Rgba {
    (sat_add(p.0, r), sat_add(p.1, g), sat_add(p.2, b), p.3)
}

/// Row-major linear pixel index is injective inside a `w`-wide image.
pub proof fn lemma_lin_injective(w: int, x1: int, y1: int, x2: int, y2: int)
    requires
        0 <= x1 < w,
        0 <= x2 < w,
        0 <= y1,
        0 <= y2,
        y1 * w + x1 == y2 * w + x2,
    ensures
        x1 == x2,
        y1 == y2,
{
    if y1 < y2 {
        assert(y1 * w + w <= y2 * w) by (nonlinear_arith)
            requires
                y1 < y2,
                w >= 0,
        ;
    } else if y2 < y1 {
        assert(y2 * w + w <= y1 * w) by (nonlinear_arith)
            requires
                y2 < y1,
                w >= 0,
        ;
    }
}

/// The linear index of an in-bounds pixel lies in `[0, w * h)`.
pub proof fn lemma_lin_bounds(w: int, h: int, x: int, y: int)
    requires
        0 <= x < w,
        0 <= y < h,
    ensures
        0 <= y * w + x < w * h,
        0 <= y * w,
{
    assert(0 <= y * w) by (nonlinear_arith)
        requires
            0 <= y,
            0 <= w,
    ;
    assert(y * w + w <= h * w) by (nonlinear_arith)
        requires
            y < h,
            0 <= w,
    ;
    assert(h * w == w * h) by (nonlinear_arith);
}

/// Changing only the four bytes of pixel `(x0, y0)` leaves every other pixel as it was.
pub proof fn lemma_one_pixel_changed(old: Seq<u8>, new: Seq<u8>, w: int, h: int, x0: int, y0: int)
    requires
        0 <= x0 < w,
        0 <= y0 < h,
        old.len() == w * h * 4,
        new.len() == old.len(),
        forall|k: int|
            0 <= k < old.len() && !(4 * (y0 * w + x0) <= k < 4 * (y0 * w + x0) + 4) ==> new[k]
                == old[k],
    ensures
        forall|x: int, y: int|
            0 <= x < w && 0 <= y < h && !(x == x0 && y == y0) ==> #[trigger] rgba_of(new, w, x, y)
                == rgba_of(old, w, x, y),
{
    assert forall|x: int, y: int|
        0 <= x < w && 0 <= y < h && !(x == x0 && y == y0) implies #[trigger] rgba_of(new, w, x, y)
        == rgba_of(old, w, x, y) by {
        lemma_lin_bounds(w, h, x, y);
        lemma_lin_bounds(w, h, x0, y0);
        if y * w + x == y0 * w + x0 {
            lemma_lin_injective(w, x, y, x0, y0);
        }
    }
}

/// `blend_spec` at alpha 255 gives the source and at alpha 0 the destination.
pub proof fn lemma_blend_extremes(src: u8, dst: u8)
    ensures
        blend_spec(src, dst, 255) == src,
        blend_spec(src, dst, 0) == dst,
{
    assert(blend_spec(src, dst, 255) == src) by (nonlinear_arith)
        requires
            0 <= src <= 255,
    ;
    assert(blend_spec(src, dst, 0) == dst) by (nonlinear_arith)
        requires
            0 <= dst <= 255,
    ;
}

/// Fading by the full factor `256` keeps a pixel; fading by `0` blackens it and keeps alpha.
pub proof fn lemma_fade_extremes(p: Rgba)
    ensures
        fade_px(p, 256) == p,
        fade_px(p, 0) == (0u8, 0u8, 0u8, p.3),
{
}

// ============================================================================
// Utility Functions
// ============================================================================

/// Alpha blend a single color channel.
/// Uses the fast approximation `(x + 1 + (x >> 8)) >> 8` in place of `x / 255`.
pub fn blend_channel(src: u8, dst: u8, alpha: u16) -> (res: u8)
    requires
        alpha <= 255,
    ensures
        res == blend_spec(src, dst, alpha),
{
    let s = src as u16;
    let d = dst as u16;
    assert(s * alpha <= 255 * 255) by (nonlinear_arith)
        requires
            s <= 255,
            alpha <= 255,
    ;
    assert(d * (255 - alpha) <= 255 * 255) by (nonlinear_arith)
        requires
            d <= 255,
            alpha <= 255,
    ;
    assert(s * alpha + d * (255 - alpha) <= 255 * 255) by (nonlinear_arith)
        requires
            s <= 255,
            d <= 255,
            alpha <= 255,
    ;
    let result: u16 = s * alpha + d * (255 - alpha);
    assert(result >> 8u16 == result / 256) by (bit_vector);
    let shifted: u16 = result >> 8u16;
    let sum: u16 = result + 1 + shifted;
    let out: u16 = sum >> 8u16;
    assert(out == sum / 256) by (bit_vector)
        requires
            out == sum >> 8u16,
    ;
    out as u8
}


/// Write ABGR pixel (opaque) to four bytes starting at `idx`.
fn write_pixel(dest: &mut Vec<u8>, idx: usize, r: u8, g: u8, b: u8)
    requires
        idx + 4 <= old(dest).len(),
    ensures
        final(dest)@ == old(dest)@.update(idx as int, 255u8).update(idx + 1, b).update(idx + 2, g).update(
            idx + 3,
            r,
        ),
{
    dest.set(idx, 255);
    dest.set(idx + 1, b);
    dest.set(idx + 2, g);
    dest.set(idx + 3, r);
}

/// Write ABGR pixel with custom alpha to four bytes starting at `idx`.
fn write_pixel_rgba(dest: &mut Vec<u8>, idx: usize, r: u8, g: u8, b: u8, a: u8)
    requires
        idx + 4 <= old(dest).len(),
    ensures
        final(dest)@ == old(dest)@.update(idx as int, a).update(idx + 1, b).update(idx + 2, g).update(
            idx + 3,
            r,
        ),
{
    dest.set(idx, a);
    dest.set(idx + 1, b);
    dest.set(idx + 2, g);
    dest.set(idx + 3, r);
}

/// A per-pixel operation used by the span primitives.
#[derive(Clone, Copy)]
enum PxOp {
    Paint(u8, u8, u8),
    Blend(u8, u8, u8, u8),
    Add(u8, u8, u8),
}

/// What a per-pixel operation makes of pixel `p`.
spec fn apply_op(p: Rgba, op: PxOp) -> Rgba {
    match op {
        PxOp::Paint(r, g, b) => (r, g, b, 255u8),
        PxOp::Blend(r, g, b, a) => blend_px(p, r, g, b, a as u16),
        PxOp::Add(r, g, b) => additive_px(p, r, g, b),
    }
}

/// Pixel `(x, y)` lies on row `row` between columns `x1` and `x2` (either order, inclusive).
pub open spec fn on_hspan(x: int, y: int, x1: int, x2: int, row: int) -> bool {
    y == row && (if x1 <= x2 { x1 <= x <= x2 } else { x2 <= x <= x1 })
}

/// Pixel `(x, y)` lies in column `col` between rows `y1` and `y2` (either order, inclusive).
pub open spec fn on_vspan(x: int, y: int, col: int, y1: int, y2: int) -> bool {
    x == col && (if y1 <= y2 { y1 <= y <= y2 } else { y2 <= y <= y1 })
}

/// How a source pixel is merged onto a destination pixel by the blit family.
#[derive(Clone, Copy)]
enum MergeOp {
    Copy,
    BlendAll(u8),
    Composite(BlendMode),
}

/// Channel scaled by alpha with rounding: `(c * a + 127) / 255`.
pub open spec fn scale_by_alpha(c: u8, a: u8) -> u8 {
    ((c * a + 127) / 255) as u8
}

/// Channel multiplied by another: `d * s / 255`.
pub open spec fn multiply_channel(d: u8, s: u8) -> u8 {
    (d * s / 255) as u8
}

/// Result of compositing source pixel `s` onto destination pixel `d` in `mode`,
/// using the source alpha `s.3`.
pub open spec fn composite_px(d: Rgba, s: Rgba, mode: BlendMode) -> Rgba {
    let sa = s.3;
    if sa == 0 {
        d
    } else {
        match mode {
            BlendMode::Alpha => if sa == 255 {
                (s.0, s.1, s.2, 255u8)
            } else {
                blend_px(d, s.0, s.1, s.2, sa as u16)
            },
            BlendMode::Additive => additive_px(
                d,
                scale_by_alpha(s.0, sa),
                scale_by_alpha(s.1, sa),
                scale_by_alpha(s.2, sa),
            ),
            BlendMode::Multiply => (
                blend_spec(multiply_channel(d.0, s.0), d.0, sa as u16),
                blend_spec(multiply_channel(d.1, s.1), d.1, sa as u16),
                blend_spec(multiply_channel(d.2, s.2), d.2, sa as u16),
                d.3,
            ),
        }
    }
}

/// Compositing a fully transparent source leaves the destination in every mode; a fully
/// opaque source replaces it in `Alpha` mode, is added in `Additive` mode and multiplies
/// it in `Multiply` mode.
pub proof fn lemma_composite_extremes(d: Rgba, s: Rgba, mode: BlendMode)
    ensures
        s.3 == 0 ==> composite_px(d, s, mode) == d,
        s.3 == 255 ==> composite_px(d, s, BlendMode::Alpha) == (s.0, s.1, s.2, 255u8),
        s.3 == 255 ==> composite_px(d, s, BlendMode::Additive) == additive_px(d, s.0, s.1, s.2),
        s.3 == 255 ==> composite_px(d, s, BlendMode::Multiply) == (
            multiply_channel(d.0, s.0),
            multiply_channel(d.1, s.1),
            multiply_channel(d.2, s.2),
            d.3,
        ),
{
    if s.3 == 255 {
        assert forall|c: u8| scale_by_alpha(c, 255) == c by {
            assert((c * 255 + 127) / 255 == c) by (nonlinear_arith)
                requires
                    0 <= c <= 255,
            ;
        }
        assert(scale_by_alpha(s.0, 255) == s.0);
        assert(scale_by_alpha(s.1, 255) == s.1);
        assert(scale_by_alpha(s.2, 255) == s.2);
        lemma_blend_extremes(multiply_channel(d.0, s.0), d.0);
        lemma_blend_extremes(multiply_channel(d.1, s.1), d.1);
        lemma_blend_extremes(multiply_channel(d.2, s.2), d.2);
    }
}

/// A shade of `256` keeps a pixel and a shade of `0` blackens it; alpha is kept.
pub proof fn lemma_shade_extremes(p: Rgba)
    ensures
        shade_px(p, 256) == p,
        shade_px(p, 0) == (0u8, 0u8, 0u8, p.3),
{
}

spec fn merge_px(d: Rgba, s: Rgba, op: MergeOp) -> Rgba {
    match op {
        MergeOp::Copy => (s.0, s.1, s.2, 255u8),
        MergeOp::BlendAll(a) => blend_px(d, s.0, s.1, s.2, a as u16),
        MergeOp::Composite(mode) => composite_px(d, s, mode),
    }
}

/// `(c * a + 127) / 255` for a channel `c` and alpha `a`.
fn alpha_scaled(c: u8, a: u16) -> (res: u8)
    requires
        a <= 255,
    ensures
        res == scale_by_alpha(c, a as u8),
{
    let c16 = c as u16;
    assert(c16 * a <= 255 * 255) by (nonlinear_arith)
        requires
            c16 <= 255,
            a <= 255,
    ;
    assert((c16 * a + 127) / 255 <= 255) by (nonlinear_arith)
        requires
            c16 * a <= 255 * 255,
    ;
    ((c16 * a + 127) / 255) as u8
}

/// `d * s / 255` for two channels.
fn channel_product(d: u8, s: u8) -> (res: u8)
    ensures
        res == multiply_channel(d, s),
{
    let d16 = d as u16;
    let s16 = s as u16;
    assert(d16 * s16 <= 255 * 255) by (nonlinear_arith)
        requires
            d16 <= 255,
            s16 <= 255,
    ;
    assert(d16 * s16 / 255 <= 255) by (nonlinear_arith)
        requires
            d16 * s16 <= 255 * 255,
    ;
    (d16 * s16 / 255) as u8
}

/// A pixel with its colour channels scaled by `f / 256`; alpha is kept.
pub open spec fn fade_px(p: Rgba, f: u16) -> Rgba {
    ((p.0 * f / 256) as u8, (p.1 * f / 256) as u8, (p.2 * f / 256) as u8, p.3)
}

/// A pixel with its colour channels multiplied by `s / 256`, truncated to 8 bits; alpha is kept.
pub open spec fn shade_px(p: Rgba, s: u16) -> Rgba {
    ((p.0 * s / 256 % 256) as u8, (p.1 * s / 256 % 256) as u8, (p.2 * s / 256 % 256) as u8, p.3)
}

/// `dst` is `src` turned 90 degrees clockwise: pixel `(x, y)` of `src` lands at `(h - 1 - y, x)`.
pub open spec fn is_rotated_90(src: &PixelBuffer, dst: &PixelBuffer) -> bool {
    &&& dst.spec_width() == src.spec_height()
    &&& dst.spec_height() == src.spec_width()
    &&& forall|nx: int, ny: int|
        dst.contains(nx, ny) ==> #[trigger] dst.rgba(nx, ny) == src.rgba(
            ny,
            src.spec_height() - 1 - nx,
        )
}

/// `dst` is `src` turned 180 degrees: pixel `(x, y)` lands at `(w - 1 - x, h - 1 - y)`.
pub open spec fn is_rotated_180(src: &PixelBuffer, dst: &PixelBuffer) -> bool {
    &&& dst.spec_width() == src.spec_width()
    &&& dst.spec_height() == src.spec_height()
    &&& forall|nx: int, ny: int|
        dst.contains(nx, ny) ==> #[trigger] dst.rgba(nx, ny) == src.rgba(
            src.spec_width() - 1 - nx,
            src.spec_height() - 1 - ny,
        )
}

/// `dst` is `src` turned 270 degrees clockwise: pixel `(x, y)` lands at `(y, w - 1 - x)`.
pub open spec fn is_rotated_270(src: &PixelBuffer, dst: &PixelBuffer) -> bool {
    &&& dst.spec_width() == src.spec_height()
    &&& dst.spec_height() == src.spec_width()
    &&& forall|nx: int, ny: int|
        dst.contains(nx, ny) ==> #[trigger] dst.rgba(nx, ny) == src.rgba(
            src.spec_width() - 1 - ny,
            nx,
        )
}

/// `v` clamped into `[lo, hi]`.
pub open spec fn clamp_int(v: int, lo: int, hi: int) -> int {
    if v < lo { lo } else if v > hi { hi } else { v }
}

/// `g(a) + g(a + 1) + ... + g(a + k - 1)`.
pub open spec fn run_sum(g: spec_fn(int) -> int, a: int, k: nat) -> int
    decreases k,
{
    if k == 0 { 0 } else { run_sum(g, a, (k - 1) as nat) + g(a + k - 1) }
}

/// Colour channel `c` of a pixel: 0 red, 1 green, 2 blue.
pub open spec fn chan(p: Rgba, c: int) -> u8 {
    if c == 0 { p.0 } else if c == 1 { p.1 } else { p.2 }
}

/// Channel `c` along row `y` of the `w`-wide image `f`, indexed by column, with columns
/// clamped to the row.
pub open spec fn row_chan_of(f: spec_fn(int, int) -> Rgba, w: int, y: int, c: int) -> spec_fn(
    int,
) -> int {
    |t: int| chan(f(clamp_int(t, 0, w - 1), y), c) as int
}

/// Horizontal box average of channel `c` of image `f` around `(x, y)` with radius `r`,
/// repeating the border pixels of the row.
pub open spec fn hblur_chan_of(f: spec_fn(int, int) -> Rgba, w: int, r: int, x: int, y: int, c: int) -> int {
    run_sum(row_chan_of(f, w, y, c), x - r, (2 * r + 1) as nat) / (2 * r + 1)
}

/// Horizontal averages of channel `c` down column `x`, rows clamped to the image.
pub open spec fn hblur_col_of(
    f: spec_fn(int, int) -> Rgba,
    w: int,
    h: int,
    r: int,
    x: int,
    c: int,
) -> spec_fn(int) -> int {
    |t: int| hblur_chan_of(f, w, r, x, clamp_int(t, 0, h - 1), c)
}

/// Separable box blur of channel `c` of the `w` by `h` image `f` at `(x, y)`: the
/// vertical box average (border rows repeated) of the horizontal averages.
pub open spec fn box_blur_chan_of(
    f: spec_fn(int, int) -> Rgba,
    w: int,
    h: int,
    r: int,
    x: int,
    y: int,
    c: int,
) -> int {
    run_sum(hblur_col_of(f, w, h, r, x, c), y - r, (2 * r + 1) as nat) / (2 * r + 1)
}

/// The box-blurred image: opaque, each colour channel the separable box average.
pub open spec fn box_blurred(f: spec_fn(int, int) -> Rgba, w: int, h: int, r: int) -> spec_fn(
    int,
    int,
) -> Rgba {
    |x: int, y: int|
        (
            box_blur_chan_of(f, w, h, r, x, y, 0) as u8,
            box_blur_chan_of(f, w, h, r, x, y, 1) as u8,
            box_blur_chan_of(f, w, h, r, x, y, 2) as u8,
            255u8,
        )
}

/// Channel `c` along row `y` of `b`.
pub open spec fn row_chan(b: &PixelBuffer, y: int, c: int) -> spec_fn(int) -> int {
    row_chan_of(b.img(), b.spec_width() as int, y, c)
}

/// Horizontal box average of channel `c` of `b`.
pub open spec fn hblur_chan(b: &PixelBuffer, r: int, x: int, y: int, c: int) -> int {
    hblur_chan_of(b.img(), b.spec_width() as int, r, x, y, c)
}

/// Horizontal averages of channel `c` down column `x` of `b`.
pub open spec fn hblur_col(b: &PixelBuffer, r: int, x: int, c: int) -> spec_fn(int) -> int {
    hblur_col_of(b.img(), b.spec_width() as int, b.spec_height() as int, r, x, c)
}

/// Separable box blur of channel `c` of `b` at `(x, y)`.
pub open spec fn box_blur_chan(b: &PixelBuffer, r: int, x: int, y: int, c: int) -> int {
    box_blur_chan_of(b.img(), b.spec_width() as int, b.spec_height() as int, r, x, y, c)
}

/// Channel `c` down column `x` of `b`, indexed by row, with rows clamped to the column.
pub open spec fn col_chan(b: &PixelBuffer, x: int, c: int) -> spec_fn(int) -> int {
    |t: int| chan(b.rgba(x, clamp_int(t, 0, b.spec_height() - 1)), c) as int
}

/// Vertical box average of channel `c` around `(x, y)` with radius `r`.
pub open spec fn vblur_chan(b: &PixelBuffer, r: int, x: int, y: int, c: int) -> int {
    run_sum(col_chan(b, x, c), y - r, (2 * r + 1) as nat) / (2 * r + 1)
}

/// The average of `k` channel values lies in `[0, 255]`.
proof fn lemma_avg_bounds(g: spec_fn(int) -> int, a: int, k: nat)
    requires
        k > 0,
        forall|t: int| 0 <= #[trigger] g(t) <= 255,
    ensures
        0 <= run_sum(g, a, k) / (k as int) <= 255,
{
    lemma_run_sum_bounds(g, a, k, 255);
    let s = run_sum(g, a, k);
    assert(0 <= s / (k as int) <= 255) by (nonlinear_arith)
        requires
            0 <= s <= k * 255,
            k > 0,
    ;
}

/// Peeling the first term off a running sum.
proof fn lemma_run_sum_first(g: spec_fn(int) -> int, a: int, k: nat)
    ensures
        run_sum(g, a, k + 1) == g(a) + run_sum(g, a + 1, k),
    decreases k,
{
    if k > 0 {
        lemma_run_sum_first(g, a, (k - 1) as nat);
        assert(run_sum(g, a + 1, k) == run_sum(g, a + 1, (k - 1) as nat) + g(a + 1 + k - 1));
        assert(run_sum(g, a, k + 1) == run_sum(g, a, k) + g(a + (k + 1) - 1));
    } else {
        assert(run_sum(g, a, 1) == run_sum(g, a, 0) + g(a));
    }
}

/// Sliding a window one step to the right.
proof fn lemma_run_sum_slide(g: spec_fn(int) -> int, a: int, k: nat)
    requires
        k > 0,
    ensures
        run_sum(g, a + 1, k) == run_sum(g, a, k) - g(a) + g(a + k),
{
    lemma_run_sum_first(g, a, k);
}

/// A running sum of values in `[0, m]` lies in `[0, k * m]`.
proof fn lemma_run_sum_bounds(g: spec_fn(int) -> int, a: int, k: nat, m: int)
    requires
        forall|t: int| 0 <= #[trigger] g(t) <= m,
    ensures
        0 <= run_sum(g, a, k) <= k * m,
    decreases k,
{
    if k > 0 {
        lemma_run_sum_bounds(g, a, (k - 1) as nat, m);
        assert(0 <= g(a + k - 1) <= m);
        assert(run_sum(g, a, k) == run_sum(g, a, (k - 1) as nat) + g(a + k - 1));
        let km1 = (k - 1) as nat;
        assert(km1 * m + m == k * m) by (nonlinear_arith)
            requires
                km1 + 1 == k,
        ;
    } else {
        assert(k * m == 0) by (nonlinear_arith)
            requires
                k == 0,
        ;
    }
}

/// Running sums of pointwise-equal functions agree.
proof fn lemma_run_sum_ext(g1: spec_fn(int) -> int, g2: spec_fn(int) -> int, a: int, k: nat)
    requires
        forall|t: int| a <= t < a + k ==> #[trigger] g1(t) == g2(t),
    ensures
        run_sum(g1, a, k) == run_sum(g2, a, k),
    decreases k,
{
    if k > 0 {
        lemma_run_sum_ext(g1, g2, a, (k - 1) as nat);
    }
}

/// The radii the box blur takes on a `w` by `h` picture: the window width `2r + 1` fits
/// in `u32`, and the window's far edge `x + r` (or `y + r`) stays in `i32` for every
/// column (row) of the picture.
pub open spec fn blur_radius_ok(r: int, w: int, h: int) -> bool {
    &&& 0 <= r <= i32::MAX
    &&& (w == 0 || r + w - 1 <= i32::MAX)
    &&& (h == 0 || r + h - 1 <= i32::MAX)
}

/// A running sum of `k` copies of `v` is `k * v`.
proof fn lemma_run_sum_const(g: spec_fn(int) -> int, a: int, k: nat, v: int)
    requires
        forall|t: int| a <= t < a + k ==> #[trigger] g(t) == v,
    ensures
        run_sum(g, a, k) == k * v,
    decreases k,
{
    if k > 0 {
        lemma_run_sum_const(g, a, (k - 1) as nat, v);
        assert(g(a + k - 1) == v);
        assert(run_sum(g, a, k) == run_sum(g, a, (k - 1) as nat) + g(a + k - 1));
        let km1 = (k - 1) as nat;
        assert(km1 * v + v == k * v) by (nonlinear_arith)
            requires
                km1 + 1 == k,
        ;
    } else {
        assert(k * v == 0) by (nonlinear_arith)
            requires
                k == 0,
        ;
    }
}

/// The average of `k >= 1` copies of `v` is `v`.
proof fn lemma_avg_const(g: spec_fn(int) -> int, a: int, k: nat, v: int)
    requires
        k >= 1,
        forall|t: int| a <= t < a + k ==> #[trigger] g(t) == v,
    ensures
        run_sum(g, a, k) / (k as int) == v,
{
    lemma_run_sum_const(g, a, k, v);
    assert((k * v) / (k as int) == v) by (nonlinear_arith)
        requires
            k >= 1,
    ;
}

/// A uniform picture is a fixed point of the box blur: when every pixel of the `w` by `h`
/// image `f` (both at least 1) has the colour `(p.0, p.1, p.2)`, the blurred image has that
/// colour, opaque, at every pixel, for every radius.
pub proof fn lemma_box_blur_uniform(f: spec_fn(int, int) -> Rgba, w: int, h: int, r: int, p: Rgba)
    requires
        w >= 1,
        h >= 1,
        r >= 0,
        forall|x: int, y: int|
            0 <= x < w && 0 <= y < h ==> (#[trigger] f(x, y)).0 == p.0 && f(x, y).1 == p.1 && f(
                x,
                y,
            ).2 == p.2,
    ensures
        forall|x: int, y: int|
            0 <= x < w && 0 <= y < h ==> #[trigger] box_blurred(f, w, h, r)(x, y) == (p.0, p.1, p.2, 255u8),
{
    let k = (2 * r + 1) as nat;
    assert forall|x: int, y: int| 0 <= x < w && 0 <= y < h implies #[trigger] box_blurred(f, w, h, r)(
        x,
        y,
    ) == (p.0, p.1, p.2, 255u8) by {
        assert forall|c: int| 0 <= c < 3 implies #[trigger] box_blur_chan_of(f, w, h, r, x, y, c) == chan(
            p,
            c,
        ) by {
            let g = hblur_col_of(f, w, h, r, x, c);
            assert forall|t: int| y - r <= t < y - r + k implies #[trigger] g(t) == chan(p, c) as int by {
                let yy = clamp_int(t, 0, h - 1);
                let row = row_chan_of(f, w, yy, c);
                assert forall|u: int| x - r <= u < x - r + k implies #[trigger] row(u) == chan(p, c) as int by {
                    let xx = clamp_int(u, 0, w - 1);
                    assert(f(xx, yy).0 == p.0 && f(xx, yy).1 == p.1 && f(xx, yy).2 == p.2);
                }
                lemma_avg_const(row, x - r, k, chan(p, c) as int);
            }
            lemma_avg_const(g, y - r, k, chan(p, c) as int);
        }
        assert(box_blur_chan_of(f, w, h, r, x, y, 0) == p.0);
        assert(box_blur_chan_of(f, w, h, r, x, y, 1) == p.1);
        assert(box_blur_chan_of(f, w, h, r, x, y, 2) == p.2);
    }
}

/// The bright-pass of bloom: pixels whose average colour `(r + g + b) / 3` exceeds
/// `threshold` are kept (made opaque), all others become `(0, 0, 0, 0)`.
pub open spec fn bright_pass(f: spec_fn(int, int) -> Rgba, threshold: u8) -> spec_fn(int, int) -> Rgba {
    |x: int, y: int|
        {
            let p = f(x, y);
            if (p.0 + p.1 + p.2) / 3 > threshold {
                (p.0, p.1, p.2, 255u8)
            } else {
                (0u8, 0u8, 0u8, 0u8)
            }
        }
}

/// A glow channel scaled by `scale / 256` and capped at 255.
pub open spec fn glow_chan(c: u8, scale: u32) -> u8 {
    if c * scale / 256 > 255 { 255 } else { (c * scale / 256) as u8 }
}

/// A pixel with the scaled glow `q` added (saturating); alpha is kept.
pub open spec fn bloom_px(p: Rgba, q: Rgba, scale: u32) -> Rgba {
    (
        sat_add(p.0, glow_chan(q.0, scale)),
        sat_add(p.1, glow_chan(q.1, scale)),
        sat_add(p.2, glow_chan(q.2, scale)),
        p.3,
    )
}

/// The glow image of bloom: the bright pass blurred twice (unblurred for radius 0).
pub open spec fn bloom_glow(
    f: spec_fn(int, int) -> Rgba,
    w: int,
    h: int,
    threshold: u8,
    r: int,
) -> spec_fn(int, int) -> Rgba {
    if r == 0 {
        bright_pass(f, threshold)
    } else {
        box_blurred(box_blurred(bright_pass(f, threshold), w, h, r), w, h, r)
    }
}

/// `min((c * scale) >> 8, 255)`.
fn glow_scaled(c: u8, scale: u32) -> (res: u8)
    requires
        scale <= 512,
    ensures
        res == glow_chan(c, scale),
{
    let c32 = c as u32;
    assert(c32 * scale <= 255 * 512) by (nonlinear_arith)
        requires
            c32 <= 255,
            scale <= 512,
    ;
    let prod: u32 = c32 * scale;
    let v: u32 = prod >> 8u32;
    assert(v == prod / 256) by (bit_vector)
        requires
            v == prod >> 8u32,
    ;
    if v > 255 {
        255
    } else {
        v as u8
    }
}

/// The box blur of an image only depends on the image inside its bounds.
proof fn lemma_blur_ext(
    f1: spec_fn(int, int) -> Rgba,
    f2: spec_fn(int, int) -> Rgba,
    w: int,
    h: int,
    r: int,
    x: int,
    y: int,
    c: int,
)
    requires
        w >= 1,
        h >= 1,
        r >= 0,
        forall|xx: int, yy: int| 0 <= xx < w && 0 <= yy < h ==> #[trigger] f1(xx, yy) == f2(xx, yy),
    ensures
        box_blur_chan_of(f1, w, h, r, x, y, c) == box_blur_chan_of(f2, w, h, r, x, y, c),
{
    let k = (2 * r + 1) as nat;
    let g1 = hblur_col_of(f1, w, h, r, x, c);
    let g2 = hblur_col_of(f2, w, h, r, x, c);
    assert forall|t: int| y - r <= t < y - r + k implies #[trigger] g1(t) == g2(t) by {
        let yy = clamp_int(t, 0, h - 1);
        let a1 = row_chan_of(f1, w, yy, c);
        let a2 = row_chan_of(f2, w, yy, c);
        assert forall|u: int| x - r <= u < x - r + k implies #[trigger] a1(u) == a2(u) by {
            assert(f1(clamp_int(u, 0, w - 1), yy) == f2(clamp_int(u, 0, w - 1), yy));
        }
        lemma_run_sum_ext(a1, a2, x - r, k);
    }
    lemma_run_sum_ext(g1, g2, y - r, k);
}

/// Whether an `i32` can hold `v`.
pub open spec fn fits_i32(v: int) -> bool {
    i32::MIN <= v <= i32::MAX
}

/// Rust's integer division (rounding toward zero) of `n` by `d != 0`.
pub open spec fn tdiv(n: int, d: int) -> int {
    let (nn, dd) = if d < 0 { (-n, -d) } else { (n, d) };
    if nn >= 0 { nn / dd } else { -((-nn) / dd) }
}

/// Cohen-Sutherland region code of `(x, y)` for a `w` by `h` area: bit 1 left, 2 right,
/// 4 below (`y >= h`), 8 above (`y < 0`); 0 inside.
pub open spec fn outcode(x: int, y: int, w: int, h: int) -> u8 {
    let xc: u8 = if x < 0 { 1u8 } else if x >= w { 2u8 } else { 0u8 };
    let yc: u8 = if y < 0 { 8u8 } else if y >= h { 4u8 } else { 0u8 };
    xc | yc
}

/// The Cohen-Sutherland clipping of segment `(x0, y0)-(x1, y1)` to a `w` by `h` area, with
/// at most `n` clipping rounds: `(true, clipped endpoints)` when a part is visible,
/// `(false, 0, 0, 0, 0)` when the segment is rejected (outside, a degenerate division, or
/// rounds exhausted).
pub open spec fn clip_iter(x0: int, y0: int, x1: int, y1: int, w: int, h: int, n: nat) -> (
    bool,
    int,
    int,
    int,
    int,
)
    decreases n,
{
    let c0 = outcode(x0, y0, w, h);
    let c1 = outcode(x1, y1, w, h);
    if n == 0 {
        (false, 0, 0, 0, 0)
    } else if c0 | c1 == 0 {
        (true, x0, y0, x1, y1)
    } else if c0 & c1 != 0 {
        (false, 0, 0, 0, 0)
    } else {
        let out = if c0 != 0 { c0 } else { c1 };
        let dy = y1 - y0;
        let dx = x1 - x0;
        let p: Option<(int, int)> = if out & 4 != 0 {
            if dy == 0 { None } else { Some((x0 + tdiv(dx * (h - 1 - y0), dy), h - 1)) }
        } else if out & 8 != 0 {
            if dy == 0 { None } else { Some((x0 + tdiv(dx * (0 - y0), dy), 0)) }
        } else if out & 2 != 0 {
            if dx == 0 { None } else { Some((w - 1, y0 + tdiv(dy * (w - 1 - x0), dx))) }
        } else {
            if dx == 0 { None } else { Some((0, y0 + tdiv(dy * (0 - x0), dx))) }
        };
        match p {
            None => (false, 0, 0, 0, 0),
            Some(q) => if out == c0 {
                clip_iter(q.0, q.1, x1, y1, w, h, (n - 1) as nat)
            } else {
                clip_iter(x0, y0, q.0, q.1, w, h, (n - 1) as nat)
            },
        }
    }
}

/// The region-code bits say where a point lies.
proof fn lemma_outcode_bits(x: int, y: int, w: int, h: int)
    requires
        w >= 0,
        h >= 0,
    ensures
        (outcode(x, y, w, h) & 4 != 0) == (y >= h && y >= 0),
        (outcode(x, y, w, h) & 8 != 0) == (y < 0),
        (outcode(x, y, w, h) & 2 != 0) == (x >= w && x >= 0),
        (outcode(x, y, w, h) & 1 != 0) == (x < 0),
        (outcode(x, y, w, h) == 0) == (0 <= x < w && 0 <= y < h),
{
    let xc: u8 = if x < 0 { 1u8 } else if x >= w { 2u8 } else { 0u8 };
    let yc: u8 = if y < 0 { 8u8 } else if y >= h { 4u8 } else { 0u8 };
    assert((xc | yc) & 4 != 0 <==> yc == 4) by (bit_vector)
        requires
            xc == 0 || xc == 1 || xc == 2,
            yc == 0 || yc == 4 || yc == 8,
    ;
    assert((xc | yc) & 8 != 0 <==> yc == 8) by (bit_vector)
        requires
            xc == 0 || xc == 1 || xc == 2,
            yc == 0 || yc == 4 || yc == 8,
    ;
    assert((xc | yc) & 2 != 0 <==> xc == 2) by (bit_vector)
        requires
            xc == 0 || xc == 1 || xc == 2,
            yc == 0 || yc == 4 || yc == 8,
    ;
    assert((xc | yc) & 1 != 0 <==> xc == 1) by (bit_vector)
        requires
            xc == 0 || xc == 1 || xc == 2,
            yc == 0 || yc == 4 || yc == 8,
    ;
    assert((xc | yc) == 0 <==> (xc == 0 && yc == 0)) by (bit_vector)
        requires
            xc == 0 || xc == 1 || xc == 2,
            yc == 0 || yc == 4 || yc == 8,
    ;
}

/// Two region codes: what `|` and `&` say of them.
proof fn lemma_outcode_pair(c0: u8, c1: u8)
    requires
        c0 & 3 != 3,
        c1 & 3 != 3,
        c0 & 12 != 12,
        c1 & 12 != 12,
        c0 < 16,
        c1 < 16,
    ensures
        (c0 | c1 == 0) == (c0 == 0 && c1 == 0),
        c0 & c1 == 0 ==> !(c0 & 4 != 0 && c1 & 4 != 0) && !(c0 & 8 != 0 && c1 & 8 != 0) && !(c0
            & 2 != 0 && c1 & 2 != 0) && !(c0 & 1 != 0 && c1 & 1 != 0),
        c0 != 0 && c0 & 4 == 0 && c0 & 8 == 0 && c0 & 2 == 0 ==> c0 & 1 != 0,
        c1 != 0 && c1 & 4 == 0 && c1 & 8 == 0 && c1 & 2 == 0 ==> c1 & 1 != 0,
{
    assert((c0 | c1 == 0) == (c0 == 0 && c1 == 0)) by (bit_vector);
    assert(c0 & c1 == 0 ==> !(c0 & 4 != 0 && c1 & 4 != 0) && !(c0 & 8 != 0 && c1 & 8 != 0) && !(c0
        & 2 != 0 && c1 & 2 != 0) && !(c0 & 1 != 0 && c1 & 1 != 0)) by (bit_vector);
    assert(c0 != 0 && c0 & 4 == 0 && c0 & 8 == 0 && c0 & 2 == 0 ==> c0 & 1 != 0) by (bit_vector)
        requires
            c0 < 16,
    ;
    assert(c1 != 0 && c1 & 4 == 0 && c1 & 8 == 0 && c1 & 2 == 0 ==> c1 & 1 != 0) by (bit_vector)
        requires
            c1 < 16,
    ;
}

/// Region codes never have both horizontal or both vertical bits set.
proof fn lemma_outcode_shape(x: int, y: int, w: int, h: int)
    ensures
        outcode(x, y, w, h) & 3 != 3,
        outcode(x, y, w, h) & 12 != 12,
        outcode(x, y, w, h) < 16,
{
    let xc: u8 = if x < 0 { 1u8 } else if x >= w { 2u8 } else { 0u8 };
    let yc: u8 = if y < 0 { 8u8 } else if y >= h { 4u8 } else { 0u8 };
    assert((xc | yc) & 3 != 3 && (xc | yc) & 12 != 12 && (xc | yc) < 16) by (bit_vector)
        requires
            xc == 0 || xc == 1 || xc == 2,
            yc == 0 || yc == 4 || yc == 8,
    ;
}

/// A fraction `t / d` of `e` in `[0, 1]`, rounded toward zero, lies between 0 and `e`.
proof fn lemma_tdiv_between(e: int, t: int, d: int)
    requires
        d != 0,
        (0 <= t <= d) || (d <= t <= 0),
    ensures
        e >= 0 ==> 0 <= tdiv(e * t, d) <= e,
        e < 0 ==> e <= tdiv(e * t, d) <= 0,
{
    let (tt, dd) = if d < 0 { (-t, -d) } else { (t, d) };
    assert(0 <= tt <= dd);
    if d < 0 {
        assert(-(e * t) == e * tt) by (nonlinear_arith)
            requires
                tt == -t,
        ;
    }
    assert(tdiv(e * t, d) == tdiv(e * tt, dd));
    if e >= 0 {
        assert(0 <= e * tt <= e * dd) by (nonlinear_arith)
            requires
                e >= 0,
                0 <= tt <= dd,
        ;
        assert(e * dd / dd == e) by (nonlinear_arith)
            requires
                dd > 0,
        ;
        assert(0 <= (e * tt) / dd <= e * dd / dd) by (nonlinear_arith)
            requires
                0 <= e * tt <= e * dd,
                dd > 0,
        ;
    } else {
        let f = -e;
        assert(e * tt == -(f * tt)) by (nonlinear_arith)
            requires
                f == -e,
        ;
        assert(0 <= f * tt <= f * dd) by (nonlinear_arith)
            requires
                f >= 0,
                0 <= tt <= dd,
        ;
        assert(f * dd / dd == f) by (nonlinear_arith)
            requires
                dd > 0,
        ;
        assert(0 <= (f * tt) / dd <= f * dd / dd) by (nonlinear_arith)
            requires
                0 <= f * tt <= f * dd,
                dd > 0,
        ;
        if e * tt < 0 {
            assert(-(e * tt) == f * tt);
        } else {
            assert(f * tt == 0);
        }
    }
}

/// In each clipping branch the fraction of the segment kept is in `[0, 1]`.
proof fn lemma_clip_ratio(x0: int, y0: int, x1: int, y1: int, w: int, h: int)
    requires
        w >= 0,
        h >= 0,
        outcode(x0, y0, w, h) | outcode(x1, y1, w, h) != 0,
        outcode(x0, y0, w, h) & outcode(x1, y1, w, h) == 0,
    ensures
        ({
            let c0 = outcode(x0, y0, w, h);
            let c1 = outcode(x1, y1, w, h);
            let out = if c0 != 0 { c0 } else { c1 };
            let dy = y1 - y0;
            let dx = x1 - x0;
            &&& out & 4 != 0 ==> (0 <= h - 1 - y0 <= dy) || (dy <= h - 1 - y0 <= 0)
            &&& out & 4 == 0 && out & 8 != 0 ==> (0 <= 0 - y0 <= dy) || (dy <= 0 - y0 <= 0)
            &&& out & 4 == 0 && out & 8 == 0 && out & 2 != 0 ==> (0 <= w - 1 - x0 <= dx) || (dx
                <= w - 1 - x0 <= 0)
            &&& out & 4 == 0 && out & 8 == 0 && out & 2 == 0 ==> (0 <= 0 - x0 <= dx) || (dx <= 0
                - x0 <= 0)
        }),
{
    let c0 = outcode(x0, y0, w, h);
    let c1 = outcode(x1, y1, w, h);
    lemma_outcode_bits(x0, y0, w, h);
    lemma_outcode_bits(x1, y1, w, h);
    lemma_outcode_shape(x0, y0, w, h);
    lemma_outcode_shape(x1, y1, w, h);
    lemma_outcode_pair(c0, c1);
}

/// Rust's `n / d` for a non-zero divisor, computed with a positive divisor.
fn trunc_div(n: i128, d: i128) -> (q: i128)
    requires
        d != 0,
        -0x1_0000_0000_0000_0000_0000 < n < 0x1_0000_0000_0000_0000_0000,
        -0x1_0000_0000_0000_0000_0000 < d < 0x1_0000_0000_0000_0000_0000,
    ensures
        q == tdiv(n as int, d as int),
{
    let (nn, dd) = if d < 0 { (-n, -d) } else { (n, d) };
    nn / dd
}

/// Points plotted by Bresenham's algorithm from the state at `(x, y)` with error term
/// `err` toward `(x1, y1)` (`dx = |x1 - x0|`, `dy = -|y1 - y0|`, steps `sx`, `sy`), within
/// `fuel` points.
pub open spec fn bresenham_from(
    x: int,
    y: int,
    err: int,
    x1: int,
    y1: int,
    dx: int,
    dy: int,
    sx: int,
    sy: int,
    fuel: nat,
) -> Seq<(int, int)>
    decreases fuel,
{
    if fuel == 0 {
        seq![]
    } else if x == x1 && y == y1 {
        seq![(x, y)]
    } else {
        let e2 = 2 * err;
        let err1 = if e2 >= dy { err + dy } else { err };
        let nx = if e2 >= dy { x + sx } else { x };
        let err2 = if e2 <= dx { err1 + dx } else { err1 };
        let ny = if e2 <= dx { y + sy } else { y };
        seq![(x, y)] + bresenham_from(nx, ny, err2, x1, y1, dx, dy, sx, sy, (fuel - 1) as nat)
    }
}

/// The points of Bresenham's line from `(x0, y0)` to `(x1, y1)`, both ends included.
pub open spec fn bresenham(x0: int, y0: int, x1: int, y1: int) -> Seq<(int, int)> {
    let dx = if x1 >= x0 { x1 - x0 } else { x0 - x1 };
    let dy = -(if y1 >= y0 { y1 - y0 } else { y0 - y1 });
    let sx = if x0 < x1 { 1int } else { -1int };
    let sy = if y0 < y1 { 1int } else { -1int };
    bresenham_from(x0, y0, dx + dy, x1, y1, dx, dy, sx, sy, (dx - dy + 1) as nat)
}

/// `q` is one of the eight neighbours of `p`.
pub open spec fn king_adjacent(p: (int, int), q: (int, int)) -> bool {
    &&& p != q
    &&& -1 <= q.0 - p.0 <= 1
    &&& -1 <= q.1 - p.1 <= 1
}

/// `|v|`.
pub open spec fn abs_int(v: int) -> int {
    if v < 0 { -v } else { v }
}

/// Bresenham's walk from a state `a` columns and `b` rows short of the end, with
/// `f = |dy| * a - dx * b` the scaled distance to the ideal line (`|2f|` at most the larger
/// of `dx` and `|dy|`): it plots `max`-axis-many more points, starting at `(x, y)`,
/// ending at `(x1, y1)`, each a neighbour of the one before.
proof fn lemma_bresenham_walk(
    x: int,
    y: int,
    err: int,
    x1: int,
    y1: int,
    dx: int,
    dy: int,
    sx: int,
    sy: int,
    fuel: nat,
    a: int,
    b: int,
    f: int,
)
    requires
        dx >= 0,
        dy <= 0,
        sx == 1 || sx == -1,
        sy == 1 || sy == -1,
        0 <= a <= dx,
        0 <= b <= -dy,
        sx == 1 ==> x1 - x == a,
        sx == -1 ==> x - x1 == a,
        sy == 1 ==> y1 - y == b,
        sy == -1 ==> y - y1 == b,
        f == (-dy) * a - dx * b,
        err == f + dx + dy,
        -(if dx >= -dy { dx } else { -dy }) <= 2 * f <= (if dx >= -dy { dx } else { -dy }),
        fuel >= (if dx >= -dy { a } else { b }) + 1,
    ensures
        ({
            let s = bresenham_from(x, y, err, x1, y1, dx, dy, sx, sy, fuel);
            &&& s.len() == (if dx >= -dy { a } else { b }) + 1
            &&& s[0] == (x, y)
            &&& s[s.len() - 1] == (x1, y1)
            &&& forall|k: int| 0 <= k < s.len() - 1 ==> king_adjacent(#[trigger] s[k], s[k + 1])
        }),
    decreases fuel,
{
    let ddy = -dy;
    let m = if dx >= ddy { dx } else { ddy };
    if a == 0 && b >= 1 {
        assert(f <= -dx) by (nonlinear_arith)
            requires
                f == ddy * a - dx * b,
                a == 0,
                b >= 1,
                dx >= 0,
        ;
    }
    if b == 0 && a >= 1 {
        assert(f >= ddy) by (nonlinear_arith)
            requires
                f == ddy * a - dx * b,
                b == 0,
                a >= 1,
                ddy >= 0,
        ;
    }
    if a == 0 && b == 0 {
        assert(f == 0) by (nonlinear_arith)
            requires
                f == ddy * a - dx * b,
                a == 0,
                b == 0,
        ;
    }
    let s = bresenham_from(x, y, err, x1, y1, dx, dy, sx, sy, fuel);
    if x == x1 && y == y1 {
        assert(a == 0 && b == 0);
        assert(s =~= seq![(x, y)]);
    } else {
        let e2 = 2 * err;
        let mvx = e2 >= dy;
        let mvy = e2 <= dx;
        let err1 = if mvx { err + dy } else { err };
        let nx = if mvx { x + sx } else { x };
        let err2 = if mvy { err1 + dx } else { err1 };
        let ny = if mvy { y + sy } else { y };
        let a2 = if mvx { a - 1 } else { a };
        let b2 = if mvy { b - 1 } else { b };
        let f2 = (if mvx { f - ddy } else { f }) + (if mvy { dx } else { 0 });
        assert(mvx ==> a >= 1);
        assert(mvy ==> b >= 1);
        assert(dx >= ddy ==> mvx);
        assert(dx < ddy ==> mvy);
        assert(f2 == ddy * a2 - dx * b2) by (nonlinear_arith)
            requires
                f == ddy * a - dx * b,
                a2 == a - 1 || a2 == a,
                b2 == b - 1 || b2 == b,
                f2 == (if a2 == a - 1 { f - ddy } else { f }) + (if b2 == b - 1 { dx } else { 0 }),
        ;
        lemma_bresenham_walk(nx, ny, err2, x1, y1, dx, dy, sx, sy, (fuel - 1) as nat, a2, b2, f2);
        let rest = bresenham_from(nx, ny, err2, x1, y1, dx, dy, sx, sy, (fuel - 1) as nat);
        assert(s == seq![(x, y)] + rest);
        assert forall|k: int| 0 <= k < s.len() - 1 implies king_adjacent(#[trigger] s[k], s[k + 1]) by {
            if k == 0 {
                assert(s[1] == rest[0]);
            } else {
                assert(s[k] == rest[k - 1]);
                assert(s[k + 1] == rest[k]);
            }
        }
    }
}

/// Bresenham's line from `(x0, y0)` to `(x1, y1)` plots `max(|x1 - x0|, |y1 - y0|) + 1`
/// points, starts at `(x0, y0)`, ends at `(x1, y1)`, and each point is one of the eight
/// neighbours of the one before (the line is 8-connected and never repeats a point in a
/// row).
pub proof fn lemma_bresenham_line(x0: int, y0: int, x1: int, y1: int)
    ensures
        ({
            let s = bresenham(x0, y0, x1, y1);
            let adx = abs_int(x1 - x0);
            let ady = abs_int(y1 - y0);
            &&& s.len() == (if adx >= ady { adx } else { ady }) + 1
            &&& s[0] == (x0, y0)
            &&& s[s.len() - 1] == (x1, y1)
            &&& forall|k: int| 0 <= k < s.len() - 1 ==> king_adjacent(#[trigger] s[k], s[k + 1])
        }),
{
    let dx = if x1 >= x0 { x1 - x0 } else { x0 - x1 };
    let dy = -(if y1 >= y0 { y1 - y0 } else { y0 - y1 });
    let sx = if x0 < x1 { 1int } else { -1int };
    let sy = if y0 < y1 { 1int } else { -1int };
    assert((-dy) * dx - dx * (-dy) == 0) by (nonlinear_arith);
    lemma_bresenham_walk(x0, y0, dx + dy, x1, y1, dx, dy, sx, sy, (dx - dy + 1) as nat, dx, -dy, 0);
}

/// A segment with both ends inside a `w` by `h` area is kept whole by the clipping, so
/// `line` draws exactly `bresenham` between the given endpoints.
pub proof fn lemma_inside_segment_unclipped(x0: int, y0: int, x1: int, y1: int, w: int, h: int)
    requires
        0 <= x0 < w,
        0 <= y0 < h,
        0 <= x1 < w,
        0 <= y1 < h,
    ensures
        clip_iter(x0, y0, x1, y1, w, h, 16) == (true, x0, y0, x1, y1),
{
    lemma_outcode_bits(x0, y0, w, h);
    lemma_outcode_bits(x1, y1, w, h);
    let c0 = outcode(x0, y0, w, h);
    let c1 = outcode(x1, y1, w, h);
    assert(c0 | c1 == 0) by (bit_vector)
        requires
            c0 == 0,
            c1 == 0,
    ;
}

/// A horizontal span: columns `.0` to `.1` (either order) on row `.2`.
pub type Span = (int, int, int);

/// The spans one step of the midpoint circle fill draws for octant offsets `(x, y)`
/// around `(cx, cy)`, in drawing order (rows `cy + y`, `cy - y`, `cy + x`, `cy - x`,
/// skipping the repeats when `y == 0` or `x == y`).
pub open spec fn circle_step_spans(cx: int, cy: int, x: int, y: int) -> Seq<Span> {
    let s1 = seq![(cx - x, cx + x, cy + y)];
    let s2 = if y != 0 { s1.push((cx - x, cx + x, cy - y)) } else { s1 };
    if x != y {
        let s3 = s2.push((cx - y, cx + y, cy + x));
        if y != 0 { s3.push((cx - y, cx + y, cy - x)) } else { s3 }
    } else {
        s2
    }
}

/// The midpoint circle state after one step from `(x, y, err)`.
pub open spec fn midpoint_next(x: int, y: int, err: int) -> (int, int, int) {
    let y1 = y + 1;
    if err < 0 {
        (x, y1, err + 2 * y1 + 1)
    } else {
        (x - 1, y1, err + 2 * (y1 - (x - 1)) + 1)
    }
}

/// All spans of the midpoint circle fill from state `(x, y, err)` on, in drawing order.
pub open spec fn circle_spans_from(cx: int, cy: int, x: int, y: int, err: int) -> Seq<Span>
    decreases x - y + 2,
{
    if x < y {
        seq![]
    } else if err < 0 {
        circle_step_spans(cx, cy, x, y) + circle_spans_from(cx, cy, x, y + 1, err + 2 * (y + 1) + 1)
    } else {
        circle_step_spans(cx, cy, x, y) + circle_spans_from(
            cx,
            cy,
            x - 1,
            y + 1,
            err + 2 * ((y + 1) - (x - 1)) + 1,
        )
    }
}

/// The spans of a filled circle of radius `r > 0` around `(cx, cy)` (midpoint algorithm).
pub open spec fn circle_spans(cx: int, cy: int, r: int) -> Seq<Span> {
    circle_spans_from(cx, cy, r, 0, 1 - r)
}

/// The eight symmetric points one step of the midpoint circle outline plots, in order.
pub open spec fn outline_step_points(cx: int, cy: int, x: int, y: int) -> Seq<(int, int)> {
    seq![
        (cx + x, cy + y),
        (cx + y, cy + x),
        (cx - y, cy + x),
        (cx - x, cy + y),
        (cx - x, cy - y),
        (cx - y, cy - x),
        (cx + y, cy - x),
        (cx + x, cy - y),
    ]
}

/// All points of the midpoint circle outline from state `(x, y, err)` on.
pub open spec fn outline_points_from(cx: int, cy: int, x: int, y: int, err: int) -> Seq<(int, int)>
    decreases x - y + 2,
{
    if x < y {
        seq![]
    } else if 2 * (err + 1 + 2 * (y + 1) - x) + 1 > 0 {
        outline_step_points(cx, cy, x, y) + outline_points_from(
            cx,
            cy,
            x - 1,
            y + 1,
            err + 1 + 2 * (y + 1) + 1 - 2 * (x - 1),
        )
    } else {
        outline_step_points(cx, cy, x, y) + outline_points_from(cx, cy, x, y + 1, err + 1 + 2 * (y + 1))
    }
}

/// The points of a circle outline of radius `r` around `(cx, cy)` (midpoint algorithm).
pub open spec fn circle_outline(cx: int, cy: int, r: int) -> Seq<(int, int)> {
    outline_points_from(cx, cy, r, 0, 0)
}

/// Whether `(x, y)` lies on one of the spans.
pub open spec fn covered_by(spans: Seq<Span>, x: int, y: int) -> bool {
    exists|i: int| 0 <= i < spans.len() && on_hspan(x, y, spans[i].0, spans[i].1, spans[i].2)
}

/// How many of the spans `(x, y)` lies on.
pub open spec fn span_count(spans: Seq<Span>, x: int, y: int) -> nat
    decreases spans.len(),
{
    if spans.len() == 0 {
        0
    } else {
        let s = spans.last();
        span_count(spans.drop_last(), x, y) + if on_hspan(x, y, s.0, s.1, s.2) { 1nat } else { 0nat }
    }
}

/// `p` alpha-blended with `(r, g, b)` at `a`, `n` times over.
pub open spec fn blend_times(p: Rgba, r: u8, g: u8, b: u8, a: u8, n: nat) -> Rgba
    decreases n,
{
    if n == 0 { p } else { blend_px(blend_times(p, r, g, b, a, (n - 1) as nat), r, g, b, a as u16) }
}

/// Pixel `p` at `(x, y)` after the spans are drawn in order with `op`.
spec fn spans_apply(p: Rgba, x: int, y: int, spans: Seq<Span>, op: PxOp) -> Rgba
    decreases spans.len(),
{
    if spans.len() == 0 {
        p
    } else {
        let q = spans_apply(p, x, y, spans.drop_last(), op);
        let s = spans.last();
        if on_hspan(x, y, s.0, s.1, s.2) { apply_op(q, op) } else { q }
    }
}

proof fn lemma_spans_apply_append(p: Rgba, x: int, y: int, a: Seq<Span>, b: Seq<Span>, op: PxOp)
    ensures
        spans_apply(p, x, y, a + b, op) == spans_apply(spans_apply(p, x, y, a, op), x, y, b, op),
    decreases b.len(),
{
    if b.len() == 0 {
        assert(a + b =~= a);
    } else {
        lemma_spans_apply_append(p, x, y, a, b.drop_last(), op);
        assert((a + b).drop_last() =~= a + b.drop_last());
        assert((a + b).last() == b.last());
    }
}

proof fn lemma_spans_paint(p: Rgba, x: int, y: int, spans: Seq<Span>, r: u8, g: u8, b: u8)
    ensures
        spans_apply(p, x, y, spans, PxOp::Paint(r, g, b)) == if covered_by(spans, x, y) {
            (r, g, b, 255u8)
        } else {
            p
        },
    decreases spans.len(),
{
    if spans.len() > 0 {
        let init = spans.drop_last();
        lemma_spans_paint(p, x, y, init, r, g, b);
        if covered_by(init, x, y) {
            let i = choose|i: int| 0 <= i < init.len() && on_hspan(x, y, init[i].0, init[i].1, init[i].2);
            assert(spans[i] == init[i]);
        }
        if covered_by(spans, x, y) && !covered_by(init, x, y) {
            let i = choose|i: int| 0 <= i < spans.len() && on_hspan(x, y, spans[i].0, spans[i].1, spans[i].2);
            if i < spans.len() - 1 {
                assert(init[i] == spans[i]);
            }
        }
        if !covered_by(spans, x, y) {
            assert(!on_hspan(x, y, spans[spans.len() - 1].0, spans[spans.len() - 1].1, spans[spans.len() - 1].2));
        }
    }
}

proof fn lemma_spans_blend(p: Rgba, x: int, y: int, spans: Seq<Span>, r: u8, g: u8, b: u8, a: u8)
    ensures
        spans_apply(p, x, y, spans, PxOp::Blend(r, g, b, a)) == blend_times(
            p,
            r,
            g,
            b,
            a,
            span_count(spans, x, y),
        ),
    decreases spans.len(),
{
    if spans.len() > 0 {
        lemma_spans_blend(p, x, y, spans.drop_last(), r, g, b, a);
    }
}

// ============================================================================
// PixelBuffer
// ============================================================================

/// RGBA8888 pixel buffer for software rendering (bytes A, B, G, R per pixel).
pub struct PixelBuffer {
    pixels: Vec<u8>,
    width: u32,
    height: u32,
}

impl PixelBuffer {
    /// The raw bytes of the buffer.
    pub closed spec fn bytes(&self) -> Seq<u8> {
        self.pixels@
    }

    /// The width in pixels.
    pub closed spec fn spec_width(&self) -> u32 {
        self.width
    }

    /// The height in pixels.
    pub closed spec fn spec_height(&self) -> u32 {
        self.height
    }

    /// Well-formedness: four bytes per pixel, and pixel byte offsets and
    /// coordinates fit the integer types the operations compute them in.
    pub open spec fn wf(&self) -> bool {
        &&& self.bytes().len() == self.spec_width() * self.spec_height() * 4
        &&& self.spec_width() * self.spec_height() * 4 <= u32::MAX
        &&& self.spec_width() <= i32::MAX
        &&& self.spec_height() <= i32::MAX
    }

    /// Whether `(x, y)` lies inside the buffer.
    pub open spec fn contains(&self, x: int, y: int) -> bool {
        0 <= x < self.spec_width() && 0 <= y < self.spec_height()
    }

    /// The pixel at `(x, y)` as (r, g, b, a).
    pub open spec fn rgba(&self, x: int, y: int) -> Rgba {
        rgba_of(self.bytes(), self.spec_width() as int, x, y)
    }

    /// The picture as a function of the coordinates.
    pub open spec fn img(&self) -> spec_fn(int, int) -> Rgba {
        |x: int, y: int| self.rgba(x, y)
    }

    /// Same dimensions as `other`.
    pub open spec fn same_size(&self, other: &PixelBuffer) -> bool {
        self.spec_width() == other.spec_width() && self.spec_height() == other.spec_height()
    }

    /// Every pixel of `self` equals `f(x, y)`.
    pub open spec fn pixels_are(&self, f: spec_fn(int, int) -> Rgba) -> bool {
        forall|x: int, y: int| self.contains(x, y) ==> #[trigger] self.rgba(x, y) == f(x, y)
    }

    /// Create a new pixel buffer with default resolution (640x480).
    pub fn new() -> (pb: Self)
        ensures
            pb.wf(),
            pb.spec_width() == DEFAULT_WIDTH,
            pb.spec_height() == DEFAULT_HEIGHT,
            pb.pixels_are(|x: int, y: int| (0u8, 0u8, 0u8, 0u8)),
    {
        Self::with_size(DEFAULT_WIDTH, DEFAULT_HEIGHT)
    }

    /// Create a new, all-zero pixel buffer with custom resolution.
    pub fn with_size(width: u32, height: u32) -> (pb: Self)
        requires
            width * height * 4 <= u32::MAX,
            width <= i32::MAX,
            height <= i32::MAX,
        ensures
            pb.wf(),
            pb.spec_width() == width,
            pb.spec_height() == height,
            pb.bytes() == Seq::new((width * height * 4) as nat, |i: int| 0u8),
            pb.pixels_are(|x: int, y: int| (0u8, 0u8, 0u8, 0u8)),
    {
        assert(width * height <= width * height * 4) by (nonlinear_arith)
            requires width * height * 4 <= u32::MAX, 0 <= width * height;
        assert(0 <= width * height) by (nonlinear_arith);
        let n: u32 = width * height * 4;
        let pixels = vec![0u8; n as usize];
        let pb = Self { pixels, width, height };
        assert forall|x: int, y: int| pb.contains(x, y) implies #[trigger] pb.rgba(x, y) == (
        0u8,
        0u8,
        0u8,
        0u8,
        ) by {
            lemma_lin_bounds(width as int, height as int, x, y);
        }
        pb
    }

    /// Width in pixels.
    #[verifier::when_used_as_spec(spec_width)]
    pub fn width(&self) -> (w: u32)
        ensures
            w == self.spec_width(),
    {
        self.width
    }

    /// Height in pixels.
    #[verifier::when_used_as_spec(spec_height)]
    pub fn height(&self) -> (h: u32)
        ensures
            h == self.spec_height(),
    {
        self.height
    }

    /// Check if coordinates are within bounds.
    fn in_bounds(&self, x: i32, y: i32) -> (b: bool)
        requires
            self.wf(),
        ensures
            b == self.contains(x as int, y as int),
    {
        x >= 0 && x < self.width as i32 && y >= 0 && y < self.height as i32
    }

    /// Calculate byte offset for pixel at (x, y).
    fn pixel_index(&self, x: u32, y: u32) -> (i: usize)
        requires
            self.wf(),
            self.contains(x as int, y as int),
        ensures
            i == 4 * (y * self.spec_width() + x),
            i + 4 <= self.bytes().len(),
    {
        proof {
            lemma_lin_bounds(self.width as int, self.height as int, x as int, y as int);
            assert((y * self.width + x) * 4 + 4 <= self.width * self.height * 4) by (nonlinear_arith)
                requires
                    y * self.width + x < self.width * self.height,
            ;
        }
        ((y * self.width + x) * 4) as usize
    }

    /// Overwrite the four bytes of in-bounds pixel `(x, y)` with `(r, g, b, a)`.
    fn put_rgba(&mut self, x: u32, y: u32, r: u8, g: u8, b: u8, a: u8)
        requires
            old(self).wf(),
            old(self).contains(x as int, y as int),
        ensures
            final(self).wf(),
            final(self).same_size(old(self)),
            forall|xx: int, yy: int|
                final(self).contains(xx, yy) ==> #[trigger] final(self).rgba(xx, yy) == if xx == x
                    && yy == y {
                    (r, g, b, a)
                } else {
                    old(self).rgba(xx, yy)
                },
    {
        let idx = self.pixel_index(x, y);
        let ghost old_bytes = self.pixels@;
        write_pixel_rgba(&mut self.pixels, idx, r, g, b, a);
        proof {
            lemma_one_pixel_changed(
                old_bytes,
                self.pixels@,
                self.width as int,
                self.height as int,
                x as int,
                y as int,
            );
        }
    }

    /// Alpha-blend colour `(r, g, b)` at `alpha` onto in-bounds pixel `(x, y)`.
    fn blend_at(&mut self, x: u32, y: u32, r: u8, g: u8, b: u8, alpha: u16)
        requires
            old(self).wf(),
            old(self).contains(x as int, y as int),
            alpha <= 255,
        ensures
            final(self).wf(),
            final(self).same_size(old(self)),
            forall|xx: int, yy: int|
                final(self).contains(xx, yy) ==> #[trigger] final(self).rgba(xx, yy) == if xx == x
                    && yy == y {
                    blend_px(old(self).rgba(xx, yy), r, g, b, alpha)
                } else {
                    old(self).rgba(xx, yy)
                },
    {
        let p = self.read_rgba(x, y);
        let nr = blend_channel(r, p.0, alpha);
        let ng = blend_channel(g, p.1, alpha);
        let nb = blend_channel(b, p.2, alpha);
        self.put_rgba(x, y, nr, ng, nb, 255);
    }

    /// Add colour `(r, g, b)` (saturating) to in-bounds pixel `(x, y)`, keeping its alpha.
    fn additive_at(&mut self, x: u32, y: u32, r: u8, g: u8, b: u8)
        requires
            old(self).wf(),
            old(self).contains(x as int, y as int),
        ensures
            final(self).wf(),
            final(self).same_size(old(self)),
            forall|xx: int, yy: int|
                final(self).contains(xx, yy) ==> #[trigger] final(self).rgba(xx, yy) == if xx == x
                    && yy == y {
                    additive_px(old(self).rgba(xx, yy), r, g, b)
                } else {
                    old(self).rgba(xx, yy)
                },
    {
        let p = self.read_rgba(x, y);
        self.put_rgba(x, y, p.0.saturating_add(r), p.1.saturating_add(g), p.2.saturating_add(b), p.3);
    }

    /// Clear to a solid opaque color.
    pub fn clear(&mut self, r: u8, g: u8, b: u8)
        requires
            old(self).wf(),
        ensures
            final(self).wf(),
            final(self).same_size(old(self)),
            final(self).pixels_are(|x: int, y: int| (r, g, b, 255u8)),
    {
        self.clear_rgba(r, g, b, 255);
    }

    /// Clear to a solid color with custom alpha (for scratch buffers).
    pub fn clear_rgba(&mut self, r: u8, g: u8, b: u8, a: u8)
        requires
            old(self).wf(),
        ensures
            final(self).wf(),
            final(self).same_size(old(self)),
            final(self).pixels_are(|x: int, y: int| (r, g, b, a)),
    {
        let len = self.pixels.len() / 4;
        let mut i: usize = 0;
        while i < len
            invariant
                self.wf(),
                self.spec_width() == old(self).spec_width(),
                self.spec_height() == old(self).spec_height(),
                len * 4 == self.bytes().len(),
                i <= len,
                forall|j: int| 0 <= j < i ==> #[trigger] px_lin(self.bytes(), j) == (r, g, b, a),
            decreases len - i,
        {
            let ghost before = self.pixels@;
            write_pixel_rgba(&mut self.pixels, i * 4, r, g, b, a);
            assert forall|j: int| 0 <= j < i + 1 implies #[trigger] px_lin(self.bytes(), j) == (
            r,
            g,
            b,
            a,
            ) by {
                if j < i {
                    assert(px_lin(before, j) == (r, g, b, a));
                }
            }
            i = i + 1;
        }
        proof {
            assert forall|x: int, y: int| self.contains(x, y) implies #[trigger] self.rgba(x, y) == (
            r,
            g,
            b,
            a,
            ) by {
                lemma_lin_bounds(self.width as int, self.height as int, x, y);
            }
        }
    }

    /// Set a single pixel with custom alpha (bounds checked).
    pub fn set_pixel_rgba(&mut self, x: i32, y: i32, r: u8, g: u8, b: u8, a: u8)
        requires
            old(self).wf(),
        ensures
            final(self).wf(),
            final(self).same_size(old(self)),
            forall|xx: int, yy: int|
                final(self).contains(xx, yy) ==> #[trigger] final(self).rgba(xx, yy) == if xx == x
                    && yy == y {
                    (r, g, b, a)
                } else {
                    old(self).rgba(xx, yy)
                },
    {
        if self.in_bounds(x, y) {
            self.put_rgba(x as u32, y as u32, r, g, b, a);
        }
    }

    /// Read all 4 channels of a pixel (bounds checked): `(r, g, b, a)`, or `None` out of bounds.
    pub fn get_pixel_rgba(&self, x: i32, y: i32) -> (p: Option<Rgba>)
        requires
            self.wf(),
        ensures
            p == if self.contains(x as int, y as int) {
                Some(self.rgba(x as int, y as int))
            } else {
                None
            },
    {
        if self.in_bounds(x, y) {
            Some(self.read_rgba(x as u32, y as u32))
        } else {
            None
        }
    }

    /// Set a single opaque pixel (bounds checked).
    pub fn set_pixel(&mut self, x: i32, y: i32, r: u8, g: u8, b: u8)
        requires
            old(self).wf(),
        ensures
            final(self).wf(),
            final(self).same_size(old(self)),
            forall|xx: int, yy: int|
                final(self).contains(xx, yy) ==> #[trigger] final(self).rgba(xx, yy) == if xx == x
                    && yy == y {
                    (r, g, b, 255u8)
                } else {
                    old(self).rgba(xx, yy)
                },
    {
        if self.in_bounds(x, y) {
            self.put_rgba(x as u32, y as u32, r, g, b, 255);
        }
    }

    /// Set pixel with alpha blending (bounds checked); the result is opaque.
    pub fn blend_pixel(&mut self, x: i32, y: i32, r: u8, g: u8, b: u8, a: u8)
        requires
            old(self).wf(),
        ensures
            final(self).wf(),
            final(self).same_size(old(self)),
            forall|xx: int, yy: int|
                final(self).contains(xx, yy) ==> #[trigger] final(self).rgba(xx, yy) == if xx == x
                    && yy == y {
                    blend_px(old(self).rgba(xx, yy), r, g, b, a as u16)
                } else {
                    old(self).rgba(xx, yy)
                },
    {
        if self.in_bounds(x, y) {
            self.blend_at(x as u32, y as u32, r, g, b, a as u16);
        }
    }

    /// Pixel set without the bounds test: the caller guarantees `(x, y)` is inside.
    pub fn set_pixel_unchecked(&mut self, x: u32, y: u32, r: u8, g: u8, b: u8)
        requires
            old(self).wf(),
            old(self).contains(x as int, y as int),
        ensures
            final(self).wf(),
            final(self).same_size(old(self)),
            forall|xx: int, yy: int|
                final(self).contains(xx, yy) ==> #[trigger] final(self).rgba(xx, yy) == if xx == x
                    && yy == y {
                    (r, g, b, 255u8)
                } else {
                    old(self).rgba(xx, yy)
                },
    {
        self.put_rgba(x, y, r, g, b, 255);
    }

    /// Read a pixel's colour (bounds checked): `(r, g, b)`, or `None` out of bounds.
    pub fn get_pixel(&self, x: i32, y: i32) -> (p: Option<(u8, u8, u8)>)
        requires
            self.wf(),
        ensures
            p == if self.contains(x as int, y as int) {
                let q = self.rgba(x as int, y as int);
                Some((q.0, q.1, q.2))
            } else {
                None
            },
    {
        if self.in_bounds(x, y) {
            let q = self.read_rgba(x as u32, y as u32);
            Some((q.0, q.1, q.2))
        } else {
            None
        }
    }

    /// Pixel read without the bounds test: the caller guarantees `(x, y)` is inside.
    pub fn get_pixel_unchecked(&self, x: u32, y: u32) -> (p: (u8, u8, u8))
        requires
            self.wf(),
            self.contains(x as int, y as int),
        ensures
            p == (self.rgba(x as int, y as int).0, self.rgba(x as int, y as int).1, self.rgba(
                x as int,
                y as int,
            ).2),
    {
        let q = self.read_rgba(x, y);
        (q.0, q.1, q.2)
    }

    /// Additive blend a pixel (colors saturate at 255; alpha is kept).
    pub fn blend_pixel_additive(&mut self, x: i32, y: i32, r: u8, g: u8, b: u8)
        requires
            old(self).wf(),
        ensures
            final(self).wf(),
            final(self).same_size(old(self)),
            forall|xx: int, yy: int|
                final(self).contains(xx, yy) ==> #[trigger] final(self).rgba(xx, yy) == if xx == x
                    && yy == y {
                    additive_px(old(self).rgba(xx, yy), r, g, b)
                } else {
                    old(self).rgba(xx, yy)
                },
    {
        if self.in_bounds(x, y) {
            self.additive_at(x as u32, y as u32, r, g, b);
        }
    }

    /// Additive blend without the bounds test: the caller guarantees `(x, y)` is inside.
    pub fn blend_pixel_additive_unchecked(&mut self, x: u32, y: u32, r: u8, g: u8, b: u8)
        requires
            old(self).wf(),
            old(self).contains(x as int, y as int),
        ensures
            final(self).wf(),
            final(self).same_size(old(self)),
            forall|xx: int, yy: int|
                final(self).contains(xx, yy) ==> #[trigger] final(self).rgba(xx, yy) == if xx == x
                    && yy == y {
                    additive_px(old(self).rgba(xx, yy), r, g, b)
                } else {
                    old(self).rgba(xx, yy)
                },
    {
        self.additive_at(x, y, r, g, b);
    }

    /// Apply `op` to in-bounds pixel `(x, y)`.
    fn op_at(&mut self, x: u32, y: u32, op: PxOp)
        requires
            old(self).wf(),
            old(self).contains(x as int, y as int),
        ensures
            final(self).wf(),
            final(self).same_size(old(self)),
            forall|xx: int, yy: int|
                final(self).contains(xx, yy) ==> #[trigger] final(self).rgba(xx, yy) == if xx == x
                    && yy == y {
                    apply_op(old(self).rgba(xx, yy), op)
                } else {
                    old(self).rgba(xx, yy)
                },
    {
        match op {
            PxOp::Paint(r, g, b) => self.put_rgba(x, y, r, g, b, 255),
            PxOp::Blend(r, g, b, a) => self.blend_at(x, y, r, g, b, a as u16),
            PxOp::Add(r, g, b) => self.additive_at(x, y, r, g, b),
        }
    }

    /// Apply `op` to the clipped horizontal span `x1..=x2` (either order) on row `y`.
    fn hspan(&mut self, x1: i32, x2: i32, y: i32, op: PxOp)
        requires
            old(self).wf(),
        ensures
            final(self).wf(),
            final(self).same_size(old(self)),
            forall|xx: int, yy: int|
                final(self).contains(xx, yy) ==> #[trigger] final(self).rgba(xx, yy) == if on_hspan(
                    xx,
                    yy,
                    x1 as int,
                    x2 as int,
                    y as int,
                ) {
                    apply_op(old(self).rgba(xx, yy), op)
                } else {
                    old(self).rgba(xx, yy)
                },
    {
        if y < 0 || y >= self.height as i32 {
            return;
        }
        let (lo, hi) = if x1 <= x2 { (x1, x2) } else { (x2, x1) };
        let start = if lo > 0 { lo } else { 0 };
        let last = self.width as i32 - 1;
        let end = if hi < last { hi } else { last };
        if start > end {
            return;
        }
        let mut x = start;
        while x <= end
            invariant
                self.wf(),
                self.same_size(old(self)),
                0 <= start <= x <= end + 1,
                end < self.spec_width(),
                0 <= y < self.spec_height(),
                forall|xx: int, yy: int|
                    self.contains(xx, yy) ==> #[trigger] self.rgba(xx, yy) == if yy == y && start
                        <= xx < x {
                        apply_op(old(self).rgba(xx, yy), op)
                    } else {
                        old(self).rgba(xx, yy)
                    },
            decreases end + 1 - x,
        {
            self.op_at(x as u32, y as u32, op);
            x = x + 1;
        }
    }

    /// Apply `op` to the clipped vertical span `y1..=y2` (either order) in column `x`.
    fn vspan(&mut self, x: i32, y1: i32, y2: i32, op: PxOp)
        requires
            old(self).wf(),
        ensures
            final(self).wf(),
            final(self).same_size(old(self)),
            forall|xx: int, yy: int|
                final(self).contains(xx, yy) ==> #[trigger] final(self).rgba(xx, yy) == if on_vspan(
                    xx,
                    yy,
                    x as int,
                    y1 as int,
                    y2 as int,
                ) {
                    apply_op(old(self).rgba(xx, yy), op)
                } else {
                    old(self).rgba(xx, yy)
                },
    {
        if x < 0 || x >= self.width as i32 {
            return;
        }
        let (lo, hi) = if y1 <= y2 { (y1, y2) } else { (y2, y1) };
        let start = if lo > 0 { lo } else { 0 };
        let last = self.height as i32 - 1;
        let end = if hi < last { hi } else { last };
        if start > end {
            return;
        }
        let mut y = start;
        while y <= end
            invariant
                self.wf(),
                self.same_size(old(self)),
                0 <= start <= y <= end + 1,
                end < self.spec_height(),
                0 <= x < self.spec_width(),
                forall|xx: int, yy: int|
                    self.contains(xx, yy) ==> #[trigger] self.rgba(xx, yy) == if xx == x && start
                        <= yy < y {
                        apply_op(old(self).rgba(xx, yy), op)
                    } else {
                        old(self).rgba(xx, yy)
                    },
            decreases end + 1 - y,
        {
            self.op_at(x as u32, y as u32, op);
            y = y + 1;
        }
    }

    /// Draw a horizontal line (clipped).
    pub fn hline(&mut self, x1: i32, x2: i32, y: i32, r: u8, g: u8, b: u8)
        requires
            old(self).wf(),
        ensures
            final(self).wf(),
            final(self).same_size(old(self)),
            forall|xx: int, yy: int|
                final(self).contains(xx, yy) ==> #[trigger] final(self).rgba(xx, yy) == if on_hspan(
                    xx,
                    yy,
                    x1 as int,
                    x2 as int,
                    y as int,
                ) {
                    (r, g, b, 255u8)
                } else {
                    old(self).rgba(xx, yy)
                },
    {
        self.hspan(x1, x2, y, PxOp::Paint(r, g, b));
    }

    /// Draw a horizontal line with alpha blending (clipped).
    pub fn hline_blend(&mut self, x1: i32, x2: i32, y: i32, r: u8, g: u8, b: u8, a: u8)
        requires
            old(self).wf(),
        ensures
            final(self).wf(),
            final(self).same_size(old(self)),
            forall|xx: int, yy: int|
                final(self).contains(xx, yy) ==> #[trigger] final(self).rgba(xx, yy) == if on_hspan(
                    xx,
                    yy,
                    x1 as int,
                    x2 as int,
                    y as int,
                ) {
                    blend_px(old(self).rgba(xx, yy), r, g, b, a as u16)
                } else {
                    old(self).rgba(xx, yy)
                },
    {
        self.hspan(x1, x2, y, PxOp::Blend(r, g, b, a));
    }

    /// Draw a horizontal line with additive blending (clipped).
    pub fn hline_additive(&mut self, x1: i32, x2: i32, y: i32, r: u8, g: u8, b: u8)
        requires
            old(self).wf(),
        ensures
            final(self).wf(),
            final(self).same_size(old(self)),
            forall|xx: int, yy: int|
                final(self).contains(xx, yy) ==> #[trigger] final(self).rgba(xx, yy) == if on_hspan(
                    xx,
                    yy,
                    x1 as int,
                    x2 as int,
                    y as int,
                ) {
                    additive_px(old(self).rgba(xx, yy), r, g, b)
                } else {
                    old(self).rgba(xx, yy)
                },
    {
        self.hspan(x1, x2, y, PxOp::Add(r, g, b));
    }

    /// Draw a vertical line (clipped).
    pub fn vline(&mut self, x: i32, y1: i32, y2: i32, r: u8, g: u8, b: u8)
        requires
            old(self).wf(),
        ensures
            final(self).wf(),
            final(self).same_size(old(self)),
            forall|xx: int, yy: int|
                final(self).contains(xx, yy) ==> #[trigger] final(self).rgba(xx, yy) == if on_vspan(
                    xx,
                    yy,
                    x as int,
                    y1 as int,
                    y2 as int,
                ) {
                    (r, g, b, 255u8)
                } else {
                    old(self).rgba(xx, yy)
                },
    {
        self.vspan(x, y1, y2, PxOp::Paint(r, g, b));
    }

    /// Draw a vertical line with alpha blending (clipped).
    pub fn vline_blend(&mut self, x: i32, y1: i32, y2: i32, r: u8, g: u8, b: u8, a: u8)
        requires
            old(self).wf(),
        ensures
            final(self).wf(),
            final(self).same_size(old(self)),
            forall|xx: int, yy: int|
                final(self).contains(xx, yy) ==> #[trigger] final(self).rgba(xx, yy) == if on_vspan(
                    xx,
                    yy,
                    x as int,
                    y1 as int,
                    y2 as int,
                ) {
                    blend_px(old(self).rgba(xx, yy), r, g, b, a as u16)
                } else {
                    old(self).rgba(xx, yy)
                },
    {
        self.vspan(x, y1, y2, PxOp::Blend(r, g, b, a));
    }

    /// Draw a vertical line with additive blending (clipped).
    pub fn vline_additive(&mut self, x: i32, y1: i32, y2: i32, r: u8, g: u8, b: u8)
        requires
            old(self).wf(),
        ensures
            final(self).wf(),
            final(self).same_size(old(self)),
            forall|xx: int, yy: int|
                final(self).contains(xx, yy) ==> #[trigger] final(self).rgba(xx, yy) == if on_vspan(
                    xx,
                    yy,
                    x as int,
                    y1 as int,
                    y2 as int,
                ) {
                    additive_px(old(self).rgba(xx, yy), r, g, b)
                } else {
                    old(self).rgba(xx, yy)
                },
    {
        self.vspan(x, y1, y2, PxOp::Add(r, g, b));
    }

    /// Merge in-bounds source pixel `s` onto in-bounds pixel `(x, y)`.
    fn merge_at(&mut self, x: u32, y: u32, s: Rgba, op: MergeOp)
        requires
            old(self).wf(),
            old(self).contains(x as int, y as int),
        ensures
            final(self).wf(),
            final(self).same_size(old(self)),
            forall|xx: int, yy: int|
                final(self).contains(xx, yy) ==> #[trigger] final(self).rgba(xx, yy) == if xx == x
                    && yy == y {
                    merge_px(old(self).rgba(xx, yy), s, op)
                } else {
                    old(self).rgba(xx, yy)
                },
    {
        match op {
            MergeOp::Copy => self.put_rgba(x, y, s.0, s.1, s.2, 255),
            MergeOp::BlendAll(a) => self.blend_at(x, y, s.0, s.1, s.2, a as u16),
            MergeOp::Composite(mode) => {
                let sa = s.3;
                if sa == 0 {
                    return;
                }
                match mode {
                    BlendMode::Alpha => {
                        if sa == 255 {
                            self.put_rgba(x, y, s.0, s.1, s.2, 255);
                        } else {
                            self.blend_at(x, y, s.0, s.1, s.2, sa as u16);
                        }
                    },
                    BlendMode::Additive => {
                        let a = sa as u16;
                        let ar = alpha_scaled(s.0, a);
                        let ag = alpha_scaled(s.1, a);
                        let ab = alpha_scaled(s.2, a);
                        self.additive_at(x, y, ar, ag, ab);
                    },
                    BlendMode::Multiply => {
                        let a = sa as u16;
                        let d = self.read_rgba(x, y);
                        let mr = channel_product(d.0, s.0);
                        let mg = channel_product(d.1, s.1);
                        let mb = channel_product(d.2, s.2);
                        let nr = blend_channel(mr, d.0, a);
                        let ng = blend_channel(mg, d.1, a);
                        let nb = blend_channel(mb, d.2, a);
                        self.put_rgba(x, y, nr, ng, nb, d.3);
                    },
                }
            },
        }
    }

    /// Merge every pixel of `src`, placed with its origin at `(x, y)`, onto the clipped
    /// destination area.
    fn merge_from(&mut self, src: &PixelBuffer, x: i32, y: i32, op: MergeOp)
        requires
            old(self).wf(),
            src.wf(),
            x + src.spec_width() - 1 <= i32::MAX,
            y + src.spec_height() - 1 <= i32::MAX,
        ensures
            final(self).wf(),
            final(self).same_size(old(self)),
            forall|xx: int, yy: int|
                final(self).contains(xx, yy) ==> #[trigger] final(self).rgba(xx, yy) == if src.contains(
                    xx - x,
                    yy - y,
                ) {
                    merge_px(old(self).rgba(xx, yy), src.rgba(xx - x, yy - y), op)
                } else {
                    old(self).rgba(xx, yy)
                },
    {
        let src_w = src.width as i32;
        let src_h = src.height as i32;
        let dst_w = self.width as i32;
        let dst_h = self.height as i32;
        let mut sy: i32 = 0;
        while sy < src_h
            invariant
                self.wf(),
                src.wf(),
                self.same_size(old(self)),
                src_w == src.spec_width(),
                src_h == src.spec_height(),
                dst_w == self.spec_width(),
                dst_h == self.spec_height(),
                x + src.spec_width() - 1 <= i32::MAX,
                y + src.spec_height() - 1 <= i32::MAX,
                0 <= sy <= src_h,
                forall|xx: int, yy: int|
                    self.contains(xx, yy) ==> #[trigger] self.rgba(xx, yy) == if src.contains(
                        xx - x,
                        yy - y,
                    ) && yy - y < sy {
                        merge_px(old(self).rgba(xx, yy), src.rgba(xx - x, yy - y), op)
                    } else {
                        old(self).rgba(xx, yy)
                    },
            decreases src_h - sy,
        {
            let dy = y + sy;
            if dy >= 0 && dy < dst_h {
                let mut sx: i32 = 0;
                while sx < src_w
                    invariant
                        self.wf(),
                        src.wf(),
                        self.same_size(old(self)),
                        src_w == src.spec_width(),
                        src_h == src.spec_height(),
                        dst_w == self.spec_width(),
                        dst_h == self.spec_height(),
                        x + src.spec_width() - 1 <= i32::MAX,
                        0 <= sy < src_h,
                        dy == y + sy,
                        0 <= dy < dst_h,
                        0 <= sx <= src_w,
                        forall|xx: int, yy: int|
                            self.contains(xx, yy) ==> #[trigger] self.rgba(xx, yy) == if src.contains(
                                xx - x,
                                yy - y,
                            ) && (yy - y < sy || (yy - y == sy && xx - x < sx)) {
                                merge_px(old(self).rgba(xx, yy), src.rgba(xx - x, yy - y), op)
                            } else {
                                old(self).rgba(xx, yy)
                            },
                    decreases src_w - sx,
                {
                    let dx = x + sx;
                    if dx >= 0 && dx < dst_w {
                        let s = src.read_rgba(sx as u32, sy as u32);
                        self.merge_at(dx as u32, dy as u32, s, op);
                    }
                    sx = sx + 1;
                }
            }
            sy = sy + 1;
        }
    }

    /// Fill a rectangle of `w` by `h` pixels with top-left corner `(x, y)` (clipped).
    /// Each row is the span from `x` to `x + w - 1`; with `w == 0` that span runs
    /// backwards and covers columns `x - 1` and `x`.
    pub fn fill_rect(&mut self, x: i32, y: i32, w: u32, h: u32, r: u8, g: u8, b: u8)
        requires
            old(self).wf(),
            w <= i32::MAX,
            h <= i32::MAX,
            h > 0 ==> x + w <= i32::MAX && x + w - 1 >= i32::MIN && y + h - 1 <= i32::MAX,
        ensures
            final(self).wf(),
            final(self).same_size(old(self)),
            forall|xx: int, yy: int|
                final(self).contains(xx, yy) ==> #[trigger] final(self).rgba(xx, yy) == if y <= yy
                    < y + h && on_hspan(xx, yy, x as int, x + w - 1, yy) {
                    (r, g, b, 255u8)
                } else {
                    old(self).rgba(xx, yy)
                },
    {
        let hh = h as i32;
        let mut row: i32 = 0;
        while row < hh
            invariant
                self.wf(),
                self.same_size(old(self)),
                hh == h,
                0 <= row <= hh,
                w <= i32::MAX,
                h > 0 ==> x + w <= i32::MAX && x + w - 1 >= i32::MIN && y + h - 1 <= i32::MAX,
                forall|xx: int, yy: int|
                    self.contains(xx, yy) ==> #[trigger] self.rgba(xx, yy) == if y <= yy < y + row
                        && on_hspan(xx, yy, x as int, x + w - 1, yy) {
                        (r, g, b, 255u8)
                    } else {
                        old(self).rgba(xx, yy)
                    },
            decreases hh - row,
        {
            self.hline(x, x + w as i32 - 1, y + row, r, g, b);
            row = row + 1;
        }
    }

    /// Copy another buffer onto this one at position `(x, y)` (opaque, clipped).
    pub fn blit(&mut self, src: &PixelBuffer, x: i32, y: i32)
        requires
            old(self).wf(),
            src.wf(),
            x + src.spec_width() - 1 <= i32::MAX,
            y + src.spec_height() - 1 <= i32::MAX,
        ensures
            final(self).wf(),
            final(self).same_size(old(self)),
            forall|xx: int, yy: int|
                final(self).contains(xx, yy) ==> #[trigger] final(self).rgba(xx, yy) == if src.contains(
                    xx - x,
                    yy - y,
                ) {
                    (src.rgba(xx - x, yy - y).0, src.rgba(xx - x, yy - y).1, src.rgba(xx - x, yy - y).2, 255u8)
                } else {
                    old(self).rgba(xx, yy)
                },
    {
        self.merge_from(src, x, y, MergeOp::Copy);
    }

    /// Blit with a uniform alpha blend (clipped).
    pub fn blit_blend(&mut self, src: &PixelBuffer, x: i32, y: i32, alpha: u8)
        requires
            old(self).wf(),
            src.wf(),
            x + src.spec_width() - 1 <= i32::MAX,
            y + src.spec_height() - 1 <= i32::MAX,
        ensures
            final(self).wf(),
            final(self).same_size(old(self)),
            forall|xx: int, yy: int|
                final(self).contains(xx, yy) ==> #[trigger] final(self).rgba(xx, yy) == if src.contains(
                    xx - x,
                    yy - y,
                ) {
                    blend_px(
                        old(self).rgba(xx, yy),
                        src.rgba(xx - x, yy - y).0,
                        src.rgba(xx - x, yy - y).1,
                        src.rgba(xx - x, yy - y).2,
                        alpha as u16,
                    )
                } else {
                    old(self).rgba(xx, yy)
                },
    {
        self.merge_from(src, x, y, MergeOp::BlendAll(alpha));
    }

    /// Composite a source buffer onto this one using per-pixel source alpha
    /// (Alpha src-over, Additive or Multiply), clipped.
    pub fn composite(&mut self, src: &PixelBuffer, dst_x: i32, dst_y: i32, mode: BlendMode)
        requires
            old(self).wf(),
            src.wf(),
            dst_x + src.spec_width() - 1 <= i32::MAX,
            dst_y + src.spec_height() - 1 <= i32::MAX,
        ensures
            final(self).wf(),
            final(self).same_size(old(self)),
            forall|xx: int, yy: int|
                final(self).contains(xx, yy) ==> #[trigger] final(self).rgba(xx, yy) == if src.contains(
                    xx - dst_x,
                    yy - dst_y,
                ) {
                    composite_px(old(self).rgba(xx, yy), src.rgba(xx - dst_x, yy - dst_y), mode)
                } else {
                    old(self).rgba(xx, yy)
                },
    {
        self.merge_from(src, dst_x, dst_y, MergeOp::Composite(mode));
    }

    /// Composite at (0, 0).
    pub fn composite_full(&mut self, src: &PixelBuffer, mode: BlendMode)
        requires
            old(self).wf(),
            src.wf(),
        ensures
            final(self).wf(),
            final(self).same_size(old(self)),
            forall|xx: int, yy: int|
                final(self).contains(xx, yy) ==> #[trigger] final(self).rgba(xx, yy) == if src.contains(
                    xx,
                    yy,
                ) {
                    composite_px(old(self).rgba(xx, yy), src.rgba(xx, yy), mode)
                } else {
                    old(self).rgba(xx, yy)
                },
    {
        self.composite(src, 0, 0, mode);
    }

    /// Fade the entire buffer: every colour channel becomes `(c * factor) >> 8`.
    /// `factor` is the fraction in 256ths: 0 = black, 256 = unchanged.
    pub fn fade_by(&mut self, factor: u16)
        requires
            old(self).wf(),
            factor <= 256,
        ensures
            final(self).wf(),
            final(self).same_size(old(self)),
            forall|x: int, y: int|
                final(self).contains(x, y) ==> #[trigger] final(self).rgba(x, y) == fade_px(
                    old(self).rgba(x, y),
                    factor,
                ),
    {
        let len = self.pixels.len() / 4;
        let mut i: usize = 0;
        while i < len
            invariant
                self.wf(),
                self.same_size(old(self)),
                len * 4 == self.bytes().len(),
                i <= len,
                factor <= 256,
                forall|j: int|
                    0 <= j < len ==> #[trigger] px_lin(self.bytes(), j) == if j < i {
                        fade_px(px_lin(old(self).bytes(), j), factor)
                    } else {
                        px_lin(old(self).bytes(), j)
                    },
            decreases len - i,
        {
            let ghost before = self.pixels@;
            let idx = i * 4;
            let mut c: usize = 1;
            while c < 4
                invariant
                    self.wf(),
                    self.same_size(old(self)),
                    len * 4 == self.bytes().len(),
                    i < len,
                    idx == i * 4,
                    1 <= c <= 4,
                    factor <= 256,
                    self.bytes().len() == before.len(),
                    forall|k: int|
                        0 <= k < before.len() ==> #[trigger] self.bytes()[k] == if idx + 1 <= k < idx + c {
                            ((before[k] * factor / 256) as u8)
                        } else {
                            before[k]
                        },
                decreases 4 - c,
            {
                let v = self.pixels[idx + c] as u16;
                assert(v * factor <= 255 * 256) by (nonlinear_arith)
                    requires
                        v <= 255,
                        factor <= 256,
                ;
                let prod: u16 = v * factor;
                let shifted: u16 = prod >> 8u16;
                assert(shifted == prod / 256) by (bit_vector)
                    requires
                        shifted == prod >> 8u16,
                ;
                self.pixels.set(idx + c, shifted as u8);
                c = c + 1;
            }
            assert forall|j: int| 0 <= j < len implies #[trigger] px_lin(self.bytes(), j) == if j < i
                + 1 {
                fade_px(px_lin(old(self).bytes(), j), factor)
            } else {
                px_lin(old(self).bytes(), j)
            } by {
                assert(px_lin(before, j) == if j < i {
                    fade_px(px_lin(old(self).bytes(), j), factor)
                } else {
                    px_lin(old(self).bytes(), j)
                });
            }
            i = i + 1;
        }
        proof {
            assert forall|x: int, y: int| self.contains(x, y) implies #[trigger] self.rgba(x, y)
                == fade_px(old(self).rgba(x, y), factor) by {
                lemma_lin_bounds(self.width as int, self.height as int, x, y);
            }
        }
    }

    /// Multiply each pixel's colour by `shades[i] >> 8` (0 = black, 256 = unchanged),
    /// keeping the low 8 bits; `shades` holds one value per pixel in row-major order.
    pub fn apply_shade_map(&mut self, shades: &[u16])
        requires
            old(self).wf(),
            shades@.len() == old(self).spec_width() * old(self).spec_height(),
        ensures
            final(self).wf(),
            final(self).same_size(old(self)),
            forall|x: int, y: int|
                final(self).contains(x, y) ==> #[trigger] final(self).rgba(x, y) == shade_px(
                    old(self).rgba(x, y),
                    shades@[y * old(self).spec_width() + x],
                ),
    {
        let len = shades.len();
        let mut i: usize = 0;
        while i < len
            invariant
                self.wf(),
                self.same_size(old(self)),
                len * 4 == self.bytes().len(),
                len == shades@.len(),
                i <= len,
                forall|j: int|
                    0 <= j < len ==> #[trigger] px_lin(self.bytes(), j) == if j < i {
                        shade_px(px_lin(old(self).bytes(), j), shades@[j])
                    } else {
                        px_lin(old(self).bytes(), j)
                    },
            decreases len - i,
        {
            let ghost before = self.pixels@;
            let idx = i * 4;
            let sh = shades[i] as u32;
            let mut c: usize = 1;
            while c < 4
                invariant
                    self.wf(),
                    self.same_size(old(self)),
                    len * 4 == self.bytes().len(),
                    i < len,
                    idx == i * 4,
                    1 <= c <= 4,
                    sh <= u16::MAX,
                    self.bytes().len() == before.len(),
                    forall|k: int|
                        0 <= k < before.len() ==> #[trigger] self.bytes()[k] == if idx + 1 <= k < idx + c {
                            ((before[k] * sh / 256 % 256) as u8)
                        } else {
                            before[k]
                        },
                decreases 4 - c,
            {
                let v = self.pixels[idx + c] as u32;
                assert(v * sh <= 255 * 65535) by (nonlinear_arith)
                    requires
                        v <= 255,
                        sh <= 65535,
                ;
                let prod: u32 = v * sh;
                let shifted: u32 = prod >> 8u32;
                assert(shifted == prod / 256) by (bit_vector)
                    requires
                        shifted == prod >> 8u32,
                ;
                let out: u8 = shifted as u8;
                assert(out == shifted % 256) by (bit_vector)
                    requires
                        out == shifted as u8,
                ;
                self.pixels.set(idx + c, out);
                c = c + 1;
            }
            assert forall|j: int| 0 <= j < len implies #[trigger] px_lin(self.bytes(), j) == if j < i
                + 1 {
                shade_px(px_lin(old(self).bytes(), j), shades@[j])
            } else {
                px_lin(old(self).bytes(), j)
            } by {
                assert(px_lin(before, j) == if j < i {
                    shade_px(px_lin(old(self).bytes(), j), shades@[j])
                } else {
                    px_lin(old(self).bytes(), j)
                });
            }
            i = i + 1;
        }
        proof {
            assert forall|x: int, y: int| self.contains(x, y) implies #[trigger] self.rgba(x, y)
                == shade_px(old(self).rgba(x, y), shades@[y * old(self).spec_width() + x]) by {
                lemma_lin_bounds(self.width as int, self.height as int, x, y);
            }
        }
    }

    /// Copy contents from another buffer when both hold the same number of bytes;
    /// otherwise nothing changes.
    pub fn copy_from(&mut self, src: &PixelBuffer)
        requires
            old(self).wf(),
        ensures
            final(self).wf(),
            final(self).same_size(old(self)),
            final(self).bytes() == if src.bytes().len() == old(self).bytes().len() {
                src.bytes()
            } else {
                old(self).bytes()
            },
    {
        if self.pixels.len() == src.pixels.len() {
            let mut i: usize = 0;
            let n = self.pixels.len();
            while i < n
                invariant
                    n == self.bytes().len(),
                    n == src.bytes().len(),
                    self.spec_width() == old(self).spec_width(),
                    self.spec_height() == old(self).spec_height(),
                    i <= n,
                    forall|k: int|
                        0 <= k < n ==> #[trigger] self.bytes()[k] == if k < i {
                            src.bytes()[k]
                        } else {
                            old(self).bytes()[k]
                        },
                decreases n - i,
            {
                let v = src.pixels[i];
                self.pixels.set(i, v);
                i = i + 1;
            }
            assert(self.bytes() =~= src.bytes());
        }
    }

    /// Raw bytes (A, B, G, R per pixel, row-major).
    pub fn as_bytes(&self) -> (b: &[u8])
        ensures
            b@ == self.bytes(),
    {
        self.pixels.as_slice()
    }

    /// Create a new buffer rotated by 90 degrees clockwise (dimensions swapped).
    pub fn rotated_90(&self) -> (rot: Self)
        requires
            self.wf(),
        ensures
            rot.wf(),
            is_rotated_90(self, &rot),
    {
        let w = self.width;
        let h = self.height;
        proof {
            assert(h * w == w * h) by (nonlinear_arith);
        }
        let mut rotated = Self::with_size(h, w);
        let mut y: u32 = 0;
        while y < h
            invariant
                self.wf(),
                rotated.wf(),
                w == self.spec_width(),
                h == self.spec_height(),
                rotated.spec_width() == h,
                rotated.spec_height() == w,
                y <= h,
                forall|nx: int, ny: int|
                    rotated.contains(nx, ny) ==> #[trigger] rotated.rgba(nx, ny) == if h - 1 - nx < y {
                        self.rgba(ny, h - 1 - nx)
                    } else {
                        (0u8, 0u8, 0u8, 0u8)
                    },
            decreases h - y,
        {
            let mut x: u32 = 0;
            while x < w
                invariant
                    self.wf(),
                    rotated.wf(),
                    w == self.spec_width(),
                    h == self.spec_height(),
                    rotated.spec_width() == h,
                    rotated.spec_height() == w,
                    y < h,
                    x <= w,
                    forall|nx: int, ny: int|
                        rotated.contains(nx, ny) ==> #[trigger] rotated.rgba(nx, ny) == if h - 1 - nx
                            < y || (h - 1 - nx == y && ny < x) {
                            self.rgba(ny, h - 1 - nx)
                        } else {
                            (0u8, 0u8, 0u8, 0u8)
                        },
                decreases w - x,
            {
                let p = self.read_rgba(x, y);
                rotated.put_rgba(h - 1 - y, x, p.0, p.1, p.2, p.3);
                x = x + 1;
            }
            y = y + 1;
        }
        rotated
    }

    /// Create a new buffer rotated by 180 degrees.
    pub fn rotated_180(&self) -> (rot: Self)
        requires
            self.wf(),
        ensures
            rot.wf(),
            is_rotated_180(self, &rot),
    {
        let w = self.width;
        let h = self.height;
        let mut rotated = Self::with_size(w, h);
        let mut y: u32 = 0;
        while y < h
            invariant
                self.wf(),
                rotated.wf(),
                w == self.spec_width(),
                h == self.spec_height(),
                rotated.spec_width() == w,
                rotated.spec_height() == h,
                y <= h,
                forall|nx: int, ny: int|
                    rotated.contains(nx, ny) ==> #[trigger] rotated.rgba(nx, ny) == if h - 1 - ny < y {
                        self.rgba(w - 1 - nx, h - 1 - ny)
                    } else {
                        (0u8, 0u8, 0u8, 0u8)
                    },
            decreases h - y,
        {
            let mut x: u32 = 0;
            while x < w
                invariant
                    self.wf(),
                    rotated.wf(),
                    w == self.spec_width(),
                    h == self.spec_height(),
                    rotated.spec_width() == w,
                    rotated.spec_height() == h,
                    y < h,
                    x <= w,
                    forall|nx: int, ny: int|
                        rotated.contains(nx, ny) ==> #[trigger] rotated.rgba(nx, ny) == if h - 1 - ny
                            < y || (h - 1 - ny == y && w - 1 - nx < x) {
                            self.rgba(w - 1 - nx, h - 1 - ny)
                        } else {
                            (0u8, 0u8, 0u8, 0u8)
                        },
                decreases w - x,
            {
                let p = self.read_rgba(x, y);
                rotated.put_rgba(w - 1 - x, h - 1 - y, p.0, p.1, p.2, p.3);
                x = x + 1;
            }
            y = y + 1;
        }
        rotated
    }

    /// Create a new buffer rotated by 270 degrees clockwise (dimensions swapped).
    pub fn rotated_270(&self) -> (rot: Self)
        requires
            self.wf(),
        ensures
            rot.wf(),
            is_rotated_270(self, &rot),
    {
        let w = self.width;
        let h = self.height;
        proof {
            assert(h * w == w * h) by (nonlinear_arith);
        }
        let mut rotated = Self::with_size(h, w);
        let mut y: u32 = 0;
        while y < h
            invariant
                self.wf(),
                rotated.wf(),
                w == self.spec_width(),
                h == self.spec_height(),
                rotated.spec_width() == h,
                rotated.spec_height() == w,
                y <= h,
                forall|nx: int, ny: int|
                    rotated.contains(nx, ny) ==> #[trigger] rotated.rgba(nx, ny) == if nx < y {
                        self.rgba(w - 1 - ny, nx)
                    } else {
                        (0u8, 0u8, 0u8, 0u8)
                    },
            decreases h - y,
        {
            let mut x: u32 = 0;
            while x < w
                invariant
                    self.wf(),
                    rotated.wf(),
                    w == self.spec_width(),
                    h == self.spec_height(),
                    rotated.spec_width() == h,
                    rotated.spec_height() == w,
                    y < h,
                    x <= w,
                    forall|nx: int, ny: int|
                        rotated.contains(nx, ny) ==> #[trigger] rotated.rgba(nx, ny) == if nx < y || (
                        nx == y && w - 1 - ny < x) {
                            self.rgba(w - 1 - ny, nx)
                        } else {
                            (0u8, 0u8, 0u8, 0u8)
                        },
                decreases w - x,
            {
                let p = self.read_rgba(x, y);
                rotated.put_rgba(y, w - 1 - x, p.0, p.1, p.2, p.3);
                x = x + 1;
            }
            y = y + 1;
        }
        rotated
    }

    /// A copy of this buffer.
    fn duplicate(&self) -> (c: Self)
        requires
            self.wf(),
        ensures
            c.wf(),
            c.same_size(self),
            c.bytes() == self.bytes(),
    {
        let mut pixels: Vec<u8> = Vec::new();
        let n = self.pixels.len();
        let mut i: usize = 0;
        while i < n
            invariant
                n == self.bytes().len(),
                i <= n,
                pixels@ == self.bytes().subrange(0, i as int),
            decreases n - i,
        {
            pixels.push(self.pixels[i]);
            i = i + 1;
        }
        assert(pixels@ =~= self.bytes());
        PixelBuffer { pixels, width: self.width, height: self.height }
    }

    /// Scroll the contents of `src` into this buffer: pixel `(x, y)` receives source pixel
    /// `(x - dx, y - dy)`, and pixels with no source become opaque black.
    /// Positive `dx` scrolls right, positive `dy` scrolls down.
    pub fn scroll_from(&mut self, src: &PixelBuffer, dx: i32, dy: i32)
        requires
            old(self).wf(),
            src.wf(),
        ensures
            final(self).wf(),
            final(self).same_size(old(self)),
            forall|x: int, y: int|
                final(self).contains(x, y) ==> #[trigger] final(self).rgba(x, y) == if src.contains(
                    x - dx,
                    y - dy,
                ) {
                    src.rgba(x - dx, y - dy)
                } else {
                    (0u8, 0u8, 0u8, 255u8)
                },
    {
        self.clear(0, 0, 0);
        let w = self.width;
        let h = self.height;
        let mut y: u32 = 0;
        while y < h
            invariant
                self.wf(),
                src.wf(),
                self.same_size(old(self)),
                w == self.spec_width(),
                h == self.spec_height(),
                y <= h,
                forall|xx: int, yy: int|
                    self.contains(xx, yy) ==> #[trigger] self.rgba(xx, yy) == if yy < y && src.contains(
                        xx - dx,
                        yy - dy,
                    ) {
                        src.rgba(xx - dx, yy - dy)
                    } else {
                        (0u8, 0u8, 0u8, 255u8)
                    },
            decreases h - y,
        {
            let sy: i64 = y as i64 - dy as i64;
            if sy >= 0 && sy < src.height as i64 {
                let mut x: u32 = 0;
                while x < w
                    invariant
                        self.wf(),
                        src.wf(),
                        self.same_size(old(self)),
                        w == self.spec_width(),
                        h == self.spec_height(),
                        y < h,
                        x <= w,
                        sy == y - dy,
                        0 <= sy < src.spec_height(),
                        forall|xx: int, yy: int|
                            self.contains(xx, yy) ==> #[trigger] self.rgba(xx, yy) == if (yy < y || (yy
                                == y && xx < x)) && src.contains(xx - dx, yy - dy) {
                                src.rgba(xx - dx, yy - dy)
                            } else {
                                (0u8, 0u8, 0u8, 255u8)
                            },
                    decreases w - x,
                {
                    let sx: i64 = x as i64 - dx as i64;
                    if sx >= 0 && sx < src.width as i64 {
                        let p = src.read_rgba(sx as u32, sy as u32);
                        self.put_rgba(x, y, p.0, p.1, p.2, p.3);
                    }
                    x = x + 1;
                }
            }
            y = y + 1;
        }
    }

    /// Scroll in place: pixel `(x, y)` receives the old pixel `(x - dx, y - dy)`, and
    /// pixels with no source become opaque black. Works on a temporary copy of the buffer.
    pub fn scroll(&mut self, dx: i32, dy: i32)
        requires
            old(self).wf(),
        ensures
            final(self).wf(),
            final(self).same_size(old(self)),
            forall|x: int, y: int|
                final(self).contains(x, y) ==> #[trigger] final(self).rgba(x, y) == if old(
                    self,
                ).contains(x - dx, y - dy) {
                    old(self).rgba(x - dx, y - dy)
                } else {
                    (0u8, 0u8, 0u8, 255u8)
                },
    {
        let copy = self.duplicate();
        self.scroll_from(&copy, dx, dy);
    }

    /// Horizontal pass of the box blur into `temp` (same size): every pixel of `temp`
    /// becomes the opaque horizontal average of `self`.
    fn hblur_into(&self, temp: &mut PixelBuffer, radius: u32)
        requires
            self.wf(),
            old(temp).wf(),
            old(temp).same_size(self),
            radius > 0,
            blur_radius_ok(radius as int, self.spec_width() as int, self.spec_height() as int),
        ensures
            final(temp).wf(),
            final(temp).same_size(self),
            forall|x: int, y: int|
                final(temp).contains(x, y) ==> #[trigger] final(temp).rgba(x, y) == (
                    hblur_chan(self, radius as int, x, y, 0) as u8,
                    hblur_chan(self, radius as int, x, y, 1) as u8,
                    hblur_chan(self, radius as int, x, y, 2) as u8,
                    255u8,
                ),
    {
        let w = self.width as i32;
        let h = self.height as i32;
        if w == 0 {
            return;
        }
        proof {
            assert(self.height <= self.width * self.height) by (nonlinear_arith)
                requires
                    self.width >= 1,
            ;
        }
        assert((2 * radius + 1) * 255 <= u64::MAX) by (nonlinear_arith)
            requires
                radius <= i32::MAX,
        ;
        let r = radius as i32;
        let div: u64 = 2 * (radius as u64) + 1;
        let ghost k: nat = div as nat;
        let ghost ri: int = radius as int;
        let mut y: i32 = 0;
        while y < h
            invariant
                self.wf(),
                temp.wf(),
                temp.same_size(self),
                w == self.spec_width(),
                h == self.spec_height(),
                w >= 1,
                h <= self.spec_width() * self.spec_height(),
                r == radius,
                ri == radius,
                div == 2 * radius + 1,
                k == div,
                radius > 0,
                (2 * radius + 1) * 255 <= u64::MAX,
                blur_radius_ok(radius as int, w as int, h as int),
                0 <= y <= h,
                forall|xx: int, yy: int|
                    temp.contains(xx, yy) ==> #[trigger] temp.rgba(xx, yy) == if yy < y {
                        (
                            hblur_chan(self, ri, xx, yy, 0) as u8,
                            hblur_chan(self, ri, xx, yy, 1) as u8,
                            hblur_chan(self, ri, xx, yy, 2) as u8,
                            255u8,
                        )
                    } else {
                        old(temp).rgba(xx, yy)
                    },
            decreases h - y,
        {
            let ghost g0 = row_chan(self, y as int, 0);
            let ghost g1 = row_chan(self, y as int, 1);
            let ghost g2 = row_chan(self, y as int, 2);
            proof {
                assert forall|t: int| 0 <= #[trigger] g0(t) <= 255 by {}
                assert forall|t: int| 0 <= #[trigger] g1(t) <= 255 by {}
                assert forall|t: int| 0 <= #[trigger] g2(t) <= 255 by {}
            }
            let mut sr: u64 = 0;
            let mut sg: u64 = 0;
            let mut sb: u64 = 0;
            let mut i: i64 = -(r as i64);
            while i <= r as i64
                invariant
                    self.wf(),
                    w == self.spec_width(),
                    h == self.spec_height(),
                    w >= 1,
                    0 <= y < h,
                    r == radius,
                    radius > 0,
                    (2 * radius + 1) * 255 <= u64::MAX,
                blur_radius_ok(radius as int, w as int, h as int),
                    -r <= i <= r + 1,
                    g0 == row_chan(self, y as int, 0),
                    g1 == row_chan(self, y as int, 1),
                    g2 == row_chan(self, y as int, 2),
                    forall|t: int| 0 <= #[trigger] g0(t) <= 255,
                    forall|t: int| 0 <= #[trigger] g1(t) <= 255,
                    forall|t: int| 0 <= #[trigger] g2(t) <= 255,
                    sr == run_sum(g0, -r as int, (i + r) as nat),
                    sg == run_sum(g1, -r as int, (i + r) as nat),
                    sb == run_sum(g2, -r as int, (i + r) as nat),
                decreases r + 1 - i,
            {
                proof {
                    lemma_run_sum_bounds(g0, -r as int, (i + r) as nat, 255);
                    lemma_run_sum_bounds(g1, -r as int, (i + r) as nat, 255);
                    lemma_run_sum_bounds(g2, -r as int, (i + r) as nat, 255);
                    assert((i + r) * 255 + 255 <= (2 * radius + 1) * 255) by (nonlinear_arith)
                        requires
                            i + r + 1 <= 2 * radius + 1,
                    ;
                }
                let sx: i32 = if i < 0 { 0 } else if i > (w - 1) as i64 { w - 1 } else { i as i32 };
                let p = self.read_rgba(sx as u32, y as u32);
                sr = sr + p.0 as u64;
                sg = sg + p.1 as u64;
                sb = sb + p.2 as u64;
                i = i + 1;
            }
            proof {
                lemma_avg_bounds(g0, -r as int, k);
                lemma_avg_bounds(g1, -r as int, k);
                lemma_avg_bounds(g2, -r as int, k);
            }
            temp.put_rgba(0, y as u32, (sr / div) as u8, (sg / div) as u8, (sb / div) as u8, 255);
            let mut x: i32 = 1;
            while x < w
                invariant
                    self.wf(),
                    temp.wf(),
                    temp.same_size(self),
                    w == self.spec_width(),
                    h == self.spec_height(),
                    w >= 1,
                    0 <= y < h,
                    h <= self.spec_width() * self.spec_height(),
                    r == radius,
                    ri == radius,
                    div == 2 * radius + 1,
                    k == div,
                    radius > 0,
                    (2 * radius + 1) * 255 <= u64::MAX,
                blur_radius_ok(radius as int, w as int, h as int),
                    1 <= x <= w,
                    g0 == row_chan(self, y as int, 0),
                    g1 == row_chan(self, y as int, 1),
                    g2 == row_chan(self, y as int, 2),
                    forall|t: int| 0 <= #[trigger] g0(t) <= 255,
                    forall|t: int| 0 <= #[trigger] g1(t) <= 255,
                    forall|t: int| 0 <= #[trigger] g2(t) <= 255,
                    sr == run_sum(g0, x - 1 - r, k),
                    sg == run_sum(g1, x - 1 - r, k),
                    sb == run_sum(g2, x - 1 - r, k),
                    forall|xx: int, yy: int|
                        temp.contains(xx, yy) ==> #[trigger] temp.rgba(xx, yy) == if yy < y || (yy
                            == y && xx < x) {
                            (
                                hblur_chan(self, ri, xx, yy, 0) as u8,
                                hblur_chan(self, ri, xx, yy, 1) as u8,
                                hblur_chan(self, ri, xx, yy, 2) as u8,
                                255u8,
                            )
                        } else {
                            old(temp).rgba(xx, yy)
                        },
                decreases w - x,
            {
                let ghost a = x - 1 - r;
                proof {
                    assert(self.spec_width() <= self.spec_width() * self.spec_height()) by (
                    nonlinear_arith)
                        requires
                            self.spec_height() >= 1,
                    ;
                    lemma_run_sum_first(g0, a, (k - 1) as nat);
                    lemma_run_sum_first(g1, a, (k - 1) as nat);
                    lemma_run_sum_first(g2, a, (k - 1) as nat);
                    lemma_run_sum_bounds(g0, a + 1, (k - 1) as nat, 255);
                    lemma_run_sum_bounds(g1, a + 1, (k - 1) as nat, 255);
                    lemma_run_sum_bounds(g2, a + 1, (k - 1) as nat, 255);
                    lemma_run_sum_slide(g0, a, k);
                    lemma_run_sum_slide(g1, a, k);
                    lemma_run_sum_slide(g2, a, k);
                    assert((k - 1) * 255 + 255 == k * 255) by (nonlinear_arith);
                }
                let lt = x - 1 - r;
                let leave_x = if lt < 0 { 0 } else if lt > w - 1 { w - 1 } else { lt };
                let et = x + r;
                let enter_x = if et < 0 { 0 } else if et > w - 1 { w - 1 } else { et };
                let pl = self.read_rgba(leave_x as u32, y as u32);
                let pe = self.read_rgba(enter_x as u32, y as u32);
                sr = sr - pl.0 as u64 + pe.0 as u64;
                sg = sg - pl.1 as u64 + pe.1 as u64;
                sb = sb - pl.2 as u64 + pe.2 as u64;
                proof {
                    lemma_avg_bounds(g0, x - r, k);
                    lemma_avg_bounds(g1, x - r, k);
                    lemma_avg_bounds(g2, x - r, k);
                }
                temp.put_rgba(
                    x as u32,
                    y as u32,
                    (sr / div) as u8,
                    (sg / div) as u8,
                    (sb / div) as u8,
                    255,
                );
                x = x + 1;
            }
            y = y + 1;
        }
    }

    /// Vertical pass of the box blur from `temp` (same size): every pixel of `self`
    /// becomes the opaque vertical average of `temp`.
    fn vblur_from(&mut self, temp: &PixelBuffer, radius: u32)
        requires
            old(self).wf(),
            temp.wf(),
            temp.same_size(old(self)),
            radius > 0,
            blur_radius_ok(radius as int, old(self).spec_width() as int, old(self).spec_height() as int),
        ensures
            final(self).wf(),
            final(self).same_size(old(self)),
            forall|x: int, y: int|
                final(self).contains(x, y) ==> #[trigger] final(self).rgba(x, y) == (
                    vblur_chan(temp, radius as int, x, y, 0) as u8,
                    vblur_chan(temp, radius as int, x, y, 1) as u8,
                    vblur_chan(temp, radius as int, x, y, 2) as u8,
                    255u8,
                ),
    {
        let w = self.width as i32;
        let h = self.height as i32;
        if h == 0 {
            return;
        }
        proof {
            assert(self.width <= self.width * self.height) by (nonlinear_arith)
                requires
                    self.height >= 1,
            ;
        }
        assert((2 * radius + 1) * 255 <= u64::MAX) by (nonlinear_arith)
            requires
                radius <= i32::MAX,
        ;
        let r = radius as i32;
        let div: u64 = 2 * (radius as u64) + 1;
        let ghost k: nat = div as nat;
        let ghost ri: int = radius as int;
        let mut x: i32 = 0;
        while x < w
            invariant
                self.wf(),
                temp.wf(),
                temp.same_size(self),
                self.same_size(old(self)),
                w == self.spec_width(),
                h == self.spec_height(),
                h >= 1,
                w <= self.spec_width() * self.spec_height(),
                r == radius,
                ri == radius,
                div == 2 * radius + 1,
                k == div,
                radius > 0,
                (2 * radius + 1) * 255 <= u64::MAX,
                blur_radius_ok(radius as int, w as int, h as int),
                0 <= x <= w,
                forall|xx: int, yy: int|
                    self.contains(xx, yy) ==> #[trigger] self.rgba(xx, yy) == if xx < x {
                        (
                            vblur_chan(temp, ri, xx, yy, 0) as u8,
                            vblur_chan(temp, ri, xx, yy, 1) as u8,
                            vblur_chan(temp, ri, xx, yy, 2) as u8,
                            255u8,
                        )
                    } else {
                        old(self).rgba(xx, yy)
                    },
            decreases w - x,
        {
            let ghost g0 = col_chan(temp, x as int, 0);
            let ghost g1 = col_chan(temp, x as int, 1);
            let ghost g2 = col_chan(temp, x as int, 2);
            proof {
                assert forall|t: int| 0 <= #[trigger] g0(t) <= 255 by {}
                assert forall|t: int| 0 <= #[trigger] g1(t) <= 255 by {}
                assert forall|t: int| 0 <= #[trigger] g2(t) <= 255 by {}
            }
            let mut sr: u64 = 0;
            let mut sg: u64 = 0;
            let mut sb: u64 = 0;
            let mut i: i64 = -(r as i64);
            while i <= r as i64
                invariant
                    temp.wf(),
                    w == temp.spec_width(),
                    h == temp.spec_height(),
                    h >= 1,
                    0 <= x < w,
                    r == radius,
                    radius > 0,
                    (2 * radius + 1) * 255 <= u64::MAX,
                blur_radius_ok(radius as int, w as int, h as int),
                    -r <= i <= r + 1,
                    g0 == col_chan(temp, x as int, 0),
                    g1 == col_chan(temp, x as int, 1),
                    g2 == col_chan(temp, x as int, 2),
                    forall|t: int| 0 <= #[trigger] g0(t) <= 255,
                    forall|t: int| 0 <= #[trigger] g1(t) <= 255,
                    forall|t: int| 0 <= #[trigger] g2(t) <= 255,
                    sr == run_sum(g0, -r as int, (i + r) as nat),
                    sg == run_sum(g1, -r as int, (i + r) as nat),
                    sb == run_sum(g2, -r as int, (i + r) as nat),
                decreases r + 1 - i,
            {
                proof {
                    lemma_run_sum_bounds(g0, -r as int, (i + r) as nat, 255);
                    lemma_run_sum_bounds(g1, -r as int, (i + r) as nat, 255);
                    lemma_run_sum_bounds(g2, -r as int, (i + r) as nat, 255);
                    assert((i + r) * 255 + 255 <= (2 * radius + 1) * 255) by (nonlinear_arith)
                        requires
                            i + r + 1 <= 2 * radius + 1,
                    ;
                }
                let sy: i32 = if i < 0 { 0 } else if i > (h - 1) as i64 { h - 1 } else { i as i32 };
                let p = temp.read_rgba(x as u32, sy as u32);
                sr = sr + p.0 as u64;
                sg = sg + p.1 as u64;
                sb = sb + p.2 as u64;
                i = i + 1;
            }
            proof {
                lemma_avg_bounds(g0, -r as int, k);
                lemma_avg_bounds(g1, -r as int, k);
                lemma_avg_bounds(g2, -r as int, k);
            }
            self.put_rgba(x as u32, 0, (sr / div) as u8, (sg / div) as u8, (sb / div) as u8, 255);
            let mut y: i32 = 1;
            while y < h
                invariant
                    self.wf(),
                    temp.wf(),
                    temp.same_size(self),
                    self.same_size(old(self)),
                    w == self.spec_width(),
                    h == self.spec_height(),
                    h >= 1,
                    0 <= x < w,
                    w <= self.spec_width() * self.spec_height(),
                    r == radius,
                    ri == radius,
                    div == 2 * radius + 1,
                    k == div,
                    radius > 0,
                    (2 * radius + 1) * 255 <= u64::MAX,
                blur_radius_ok(radius as int, w as int, h as int),
                    1 <= y <= h,
                    g0 == col_chan(temp, x as int, 0),
                    g1 == col_chan(temp, x as int, 1),
                    g2 == col_chan(temp, x as int, 2),
                    forall|t: int| 0 <= #[trigger] g0(t) <= 255,
                    forall|t: int| 0 <= #[trigger] g1(t) <= 255,
                    forall|t: int| 0 <= #[trigger] g2(t) <= 255,
                    sr == run_sum(g0, y - 1 - r, k),
                    sg == run_sum(g1, y - 1 - r, k),
                    sb == run_sum(g2, y - 1 - r, k),
                    forall|xx: int, yy: int|
                        self.contains(xx, yy) ==> #[trigger] self.rgba(xx, yy) == if xx < x || (xx
                            == x && yy < y) {
                            (
                                vblur_chan(temp, ri, xx, yy, 0) as u8,
                                vblur_chan(temp, ri, xx, yy, 1) as u8,
                                vblur_chan(temp, ri, xx, yy, 2) as u8,
                                255u8,
                            )
                        } else {
                            old(self).rgba(xx, yy)
                        },
                decreases h - y,
            {
                let ghost a = y - 1 - r;
                proof {
                    assert(self.spec_height() <= self.spec_width() * self.spec_height()) by (
                    nonlinear_arith)
                        requires
                            self.spec_width() >= 1,
                    ;
                    lemma_run_sum_first(g0, a, (k - 1) as nat);
                    lemma_run_sum_first(g1, a, (k - 1) as nat);
                    lemma_run_sum_first(g2, a, (k - 1) as nat);
                    lemma_run_sum_bounds(g0, a + 1, (k - 1) as nat, 255);
                    lemma_run_sum_bounds(g1, a + 1, (k - 1) as nat, 255);
                    lemma_run_sum_bounds(g2, a + 1, (k - 1) as nat, 255);
                    lemma_run_sum_slide(g0, a, k);
                    lemma_run_sum_slide(g1, a, k);
                    lemma_run_sum_slide(g2, a, k);
                    assert((k - 1) * 255 + 255 == k * 255) by (nonlinear_arith);
                }
                let lt = y - 1 - r;
                let leave_y = if lt < 0 { 0 } else if lt > h - 1 { h - 1 } else { lt };
                let et = y + r;
                let enter_y = if et < 0 { 0 } else if et > h - 1 { h - 1 } else { et };
                let pl = temp.read_rgba(x as u32, leave_y as u32);
                let pe = temp.read_rgba(x as u32, enter_y as u32);
                sr = sr - pl.0 as u64 + pe.0 as u64;
                sg = sg - pl.1 as u64 + pe.1 as u64;
                sb = sb - pl.2 as u64 + pe.2 as u64;
                proof {
                    lemma_avg_bounds(g0, y - r, k);
                    lemma_avg_bounds(g1, y - r, k);
                    lemma_avg_bounds(g2, y - r, k);
                }
                self.put_rgba(
                    x as u32,
                    y as u32,
                    (sr / div) as u8,
                    (sg / div) as u8,
                    (sb / div) as u8,
                    255,
                );
                y = y + 1;
            }
            x = x + 1;
        }
    }

    /// Separable box blur using a sliding window, clamping at the edges (border pixels
    /// repeat). Every pixel becomes opaque; radius 0 leaves the buffer unchanged.
    pub fn box_blur(&mut self, radius: u32)
        requires
            old(self).wf(),
            radius == 0 || blur_radius_ok(
                radius as int,
                old(self).spec_width() as int,
                old(self).spec_height() as int,
            ),
            radius == 0 || (old(self).spec_width() > 0) == (old(self).spec_height() > 0),
        ensures
            final(self).wf(),
            final(self).same_size(old(self)),
            radius == 0 ==> final(self).bytes() == old(self).bytes(),
            radius > 0 ==> final(self).pixels_are(
                box_blurred(
                    old(self).img(),
                    old(self).spec_width() as int,
                    old(self).spec_height() as int,
                    radius as int,
                ),
            ),
            radius > 0 ==> forall|x: int, y: int|
                final(self).contains(x, y) ==> #[trigger] final(self).rgba(x, y) == (
                    box_blur_chan(old(self), radius as int, x, y, 0) as u8,
                    box_blur_chan(old(self), radius as int, x, y, 1) as u8,
                    box_blur_chan(old(self), radius as int, x, y, 2) as u8,
                    255u8,
                ),
    {
        if radius == 0 {
            return;
        }
        let mut temp = Self::with_size(self.width, self.height);
        self.hblur_into(&mut temp, radius);
        let ghost orig = *self;
        self.vblur_from(&temp, radius);
        proof {
            let ri = radius as int;
            let k = (2 * radius + 1) as nat;
            assert forall|x: int, y: int| self.contains(x, y) implies #[trigger] self.rgba(x, y) == (
                box_blur_chan(&orig, ri, x, y, 0) as u8,
                box_blur_chan(&orig, ri, x, y, 1) as u8,
                box_blur_chan(&orig, ri, x, y, 2) as u8,
                255u8,
            ) by {
                assert forall|c: int| 0 <= c < 3 implies vblur_chan(&temp, ri, x, y, c) == box_blur_chan(
                    &orig,
                    ri,
                    x,
                    y,
                    c,
                ) by {
                    let f1 = col_chan(&temp, x, c);
                    let f2 = hblur_col(&orig, ri, x, c);
                    assert forall|t: int| y - ri <= t < y - ri + k implies #[trigger] f1(t) == f2(t) by {
                        let yy = clamp_int(t, 0, temp.spec_height() - 1);
                        assert(temp.contains(x, yy));
                        let g = row_chan(&orig, yy, c);
                        assert forall|u: int| 0 <= #[trigger] g(u) <= 255 by {}
                        lemma_avg_bounds(g, x - ri, k);
                    }
                    lemma_run_sum_ext(f1, f2, y - ri, k);
                }
                assert(vblur_chan(&temp, ri, x, y, 0) == box_blur_chan(&orig, ri, x, y, 0));
                assert(vblur_chan(&temp, ri, x, y, 1) == box_blur_chan(&orig, ri, x, y, 1));
                assert(vblur_chan(&temp, ri, x, y, 2) == box_blur_chan(&orig, ri, x, y, 2));
            }
        }
    }

    /// Bloom post-processing: extract the pixels brighter than `threshold`, blur them
    /// twice with `blur_radius`, and add them back scaled by `scale / 256` (`scale` is
    /// the intensity in 256ths, at most 512) with each added channel capped at 255.
    pub fn bloom_scaled(&mut self, threshold: u8, blur_radius: u32, scale: u32)
        requires
            old(self).wf(),
            scale <= 512,
            blur_radius == 0 || blur_radius_ok(
                blur_radius as int,
                old(self).spec_width() as int,
                old(self).spec_height() as int,
            ),
            blur_radius == 0 || (old(self).spec_width() > 0) == (old(self).spec_height() > 0),
        ensures
            final(self).wf(),
            final(self).same_size(old(self)),
            forall|x: int, y: int|
                final(self).contains(x, y) ==> #[trigger] final(self).rgba(x, y) == bloom_px(
                    old(self).rgba(x, y),
                    bloom_glow(
                        old(self).img(),
                        old(self).spec_width() as int,
                        old(self).spec_height() as int,
                        threshold,
                        blur_radius as int,
                    )(x, y),
                    scale,
                ),
    {
        let w = self.width;
        let h = self.height;
        let mut bright = PixelBuffer::with_size(w, h);
        let ghost bp = bright_pass(self.img(), threshold);
        let mut y: u32 = 0;
        while y < h
            invariant
                self.wf(),
                bright.wf(),
                bright.same_size(self),
                w == self.spec_width(),
                h == self.spec_height(),
                y <= h,
                bp == bright_pass(self.img(), threshold),
                forall|xx: int, yy: int|
                    bright.contains(xx, yy) ==> #[trigger] bright.rgba(xx, yy) == if yy < y {
                        bp(xx, yy)
                    } else {
                        (0u8, 0u8, 0u8, 0u8)
                    },
            decreases h - y,
        {
            let mut x: u32 = 0;
            while x < w
                invariant
                    self.wf(),
                    bright.wf(),
                    bright.same_size(self),
                    w == self.spec_width(),
                    h == self.spec_height(),
                    y < h,
                    x <= w,
                    bp == bright_pass(self.img(), threshold),
                    forall|xx: int, yy: int|
                        bright.contains(xx, yy) ==> #[trigger] bright.rgba(xx, yy) == if yy < y || (
                        yy == y && xx < x) {
                            bp(xx, yy)
                        } else {
                            (0u8, 0u8, 0u8, 0u8)
                        },
                decreases w - x,
            {
                let p = self.read_rgba(x, y);
                let luma = (p.0 as u16 + p.1 as u16 + p.2 as u16) / 3;
                if luma > threshold as u16 {
                    bright.put_rgba(x, y, p.0, p.1, p.2, 255);
                }
                x = x + 1;
            }
            y = y + 1;
        }
        assert(bright.pixels_are(bp));
        let ghost b0 = bright.img();
        proof {
            assert forall|xx: int, yy: int| bright.contains(xx, yy) implies #[trigger] b0(xx, yy) == bp(
                xx,
                yy,
            ) by {}
        }
        let ghost wi = w as int;
        let ghost hi = h as int;
        let ghost ri = blur_radius as int;
        let ghost bb = box_blurred(bp, wi, hi, ri);
        bright.box_blur(blur_radius);
        let ghost b1 = bright.img();
        proof {
            if blur_radius > 0 && w > 0 && h > 0 {
                assert forall|xx: int, yy: int| 0 <= xx < wi && 0 <= yy < hi implies #[trigger] b1(
                    xx,
                    yy,
                ) == bb(xx, yy) by {
                    assert(bright.contains(xx, yy));
                    lemma_blur_ext(b0, bp, wi, hi, ri, xx, yy, 0);
                    lemma_blur_ext(b0, bp, wi, hi, ri, xx, yy, 1);
                    lemma_blur_ext(b0, bp, wi, hi, ri, xx, yy, 2);
                }
            }
        }
        bright.box_blur(blur_radius);
        let ghost glow = bloom_glow(self.img(), w as int, h as int, threshold, blur_radius as int);
        proof {
            if blur_radius > 0 {
                assert forall|xx: int, yy: int| bright.contains(xx, yy) implies #[trigger] bright.rgba(
                    xx,
                    yy,
                ) == glow(xx, yy) by {
                    lemma_blur_ext(b1, bb, wi, hi, ri, xx, yy, 0);
                    lemma_blur_ext(b1, bb, wi, hi, ri, xx, yy, 1);
                    lemma_blur_ext(b1, bb, wi, hi, ri, xx, yy, 2);
                }
            } else {
                assert forall|xx: int, yy: int| bright.contains(xx, yy) implies #[trigger] bright.rgba(
                    xx,
                    yy,
                ) == glow(xx, yy) by {
                    assert(b0(xx, yy) == bp(xx, yy));
                }
            }
        }
        let mut y: u32 = 0;
        while y < h
            invariant
                self.wf(),
                bright.wf(),
                bright.same_size(self),
                self.same_size(old(self)),
                w == self.spec_width(),
                h == self.spec_height(),
                y <= h,
                scale <= 512,
                bright.pixels_are(glow),
                forall|xx: int, yy: int|
                    self.contains(xx, yy) ==> #[trigger] self.rgba(xx, yy) == if yy < y {
                        bloom_px(old(self).rgba(xx, yy), glow(xx, yy), scale)
                    } else {
                        old(self).rgba(xx, yy)
                    },
            decreases h - y,
        {
            let mut x: u32 = 0;
            while x < w
                invariant
                    self.wf(),
                    bright.wf(),
                    bright.same_size(self),
                    self.same_size(old(self)),
                    w == self.spec_width(),
                    h == self.spec_height(),
                    y < h,
                    x <= w,
                    scale <= 512,
                    bright.pixels_are(glow),
                    forall|xx: int, yy: int|
                        self.contains(xx, yy) ==> #[trigger] self.rgba(xx, yy) == if yy < y || (yy
                            == y && xx < x) {
                            bloom_px(old(self).rgba(xx, yy), glow(xx, yy), scale)
                        } else {
                            old(self).rgba(xx, yy)
                        },
                decreases w - x,
            {
                let q = bright.read_rgba(x, y);
                let p = self.read_rgba(x, y);
                assert(bright.rgba(x as int, y as int) == glow(x as int, y as int));
                let br = glow_scaled(q.0, scale);
                let bg = glow_scaled(q.1, scale);
                let bb = glow_scaled(q.2, scale);
                self.put_rgba(x, y, p.0.saturating_add(br), p.1.saturating_add(bg), p.2.saturating_add(bb), p.3);
                x = x + 1;
            }
            y = y + 1;
        }
    }

    /// Draw the spans of one midpoint-circle step with `op`.
    fn circle_step(&mut self, cx: i32, cy: i32, x: i32, y: i32, op: PxOp)
        requires
            old(self).wf(),
            0 <= y,
            0 <= x,
            fits_i32(cx - x),
            fits_i32(cx + x),
            fits_i32(cy - y),
            fits_i32(cy + y),
            fits_i32(cx - y),
            fits_i32(cx + y),
            fits_i32(cy - x),
            fits_i32(cy + x),
        ensures
            final(self).wf(),
            final(self).same_size(old(self)),
            forall|xx: int, yy: int|
                final(self).contains(xx, yy) ==> #[trigger] final(self).rgba(xx, yy) == spans_apply(
                    old(self).rgba(xx, yy),
                    xx,
                    yy,
                    circle_step_spans(cx as int, cy as int, x as int, y as int),
                    op,
                ),
    {
        let ghost s1 = seq![(cx - x, cx + x, cy + y)];
        let ghost s2 = if y != 0 { s1.push((cx - x, cx + x, cy - y)) } else { s1 };
        let ghost s3 = s2.push((cx - y, cx + y, cy + x));
        self.hspan(cx - x, cx + x, cy + y, op);
        proof {
            assert forall|xx: int, yy: int| self.contains(xx, yy) implies #[trigger] self.rgba(xx, yy)
                == spans_apply(old(self).rgba(xx, yy), xx, yy, s1, op) by {
                assert(s1.drop_last() =~= Seq::<Span>::empty());
                assert(s1.last() == (cx - x, cx + x, cy + y));
                assert(spans_apply(old(self).rgba(xx, yy), xx, yy, s1.drop_last(), op) == old(self).rgba(xx, yy));
            }
        }
        if y != 0 {
            self.hspan(cx - x, cx + x, cy - y, op);
            proof {
                assert forall|xx: int, yy: int| self.contains(xx, yy) implies #[trigger] self.rgba(xx, yy)
                    == spans_apply(old(self).rgba(xx, yy), xx, yy, s2, op) by {
                    assert(s2.drop_last() =~= s1);
                }
            }
        }
        if x != y {
            self.hspan(cx - y, cx + y, cy + x, op);
            proof {
                assert forall|xx: int, yy: int| self.contains(xx, yy) implies #[trigger] self.rgba(xx, yy)
                    == spans_apply(old(self).rgba(xx, yy), xx, yy, s3, op) by {
                    assert(s3.drop_last() =~= s2);
                }
            }
            if y != 0 {
                self.hspan(cx - y, cx + y, cy - x, op);
                proof {
                    let s4 = s3.push((cx - y, cx + y, cy - x));
                    assert forall|xx: int, yy: int| self.contains(xx, yy) implies #[trigger] self.rgba(
                        xx,
                        yy,
                    ) == spans_apply(old(self).rgba(xx, yy), xx, yy, s4, op) by {
                        assert(s4.drop_last() =~= s3);
                    }
                }
            }
        }
    }

    /// Draw all spans of the midpoint circle fill of radius `radius > 0` with `op`.
    fn circle_fill(&mut self, cx: i32, cy: i32, radius: i32, op: PxOp)
        requires
            old(self).wf(),
            radius > 0,
            fits_i32(cx - radius),
            fits_i32(cx + radius),
            fits_i32(cy - radius),
            fits_i32(cy + radius),
        ensures
            final(self).wf(),
            final(self).same_size(old(self)),
            forall|xx: int, yy: int|
                final(self).contains(xx, yy) ==> #[trigger] final(self).rgba(xx, yy) == spans_apply(
                    old(self).rgba(xx, yy),
                    xx,
                    yy,
                    circle_spans(cx as int, cy as int, radius as int),
                    op,
                ),
    {
        let mut x: i64 = radius as i64;
        let mut y: i64 = 0;
        let mut err: i128 = 1 - radius as i128;
        let ghost total = circle_spans(cx as int, cy as int, radius as int);
        let ghost mut done: Seq<Span> = seq![];
        while x >= y
            invariant
                self.wf(),
                self.same_size(old(self)),
                0 <= y,
                -1 <= x <= radius,
                y <= x + 2,
                radius > 0,
                fits_i32(cx - radius),
                fits_i32(cx + radius),
                fits_i32(cy - radius),
                fits_i32(cy + radius),
                -(y + 2) * 0x4_0000_0000 <= err <= (y + 2) * 0x4_0000_0000,
                done + circle_spans_from(cx as int, cy as int, x as int, y as int, err as int) == total,
                forall|xx: int, yy: int|
                    self.contains(xx, yy) ==> #[trigger] self.rgba(xx, yy) == spans_apply(
                        old(self).rgba(xx, yy),
                        xx,
                        yy,
                        done,
                        op,
                    ),
            decreases x - y + 2,
        {
            let ghost before = *self;
            let ghost step = circle_step_spans(cx as int, cy as int, x as int, y as int);
            let ghost nxt = midpoint_next(x as int, y as int, err as int);
            proof {
                assert(circle_spans_from(cx as int, cy as int, x as int, y as int, err as int) == step
                    + circle_spans_from(cx as int, cy as int, nxt.0, nxt.1, nxt.2));
            }
            self.circle_step(cx, cy, x as i32, y as i32, op);
            proof {
                assert forall|xx: int, yy: int| self.contains(xx, yy) implies #[trigger] self.rgba(xx, yy)
                    == spans_apply(old(self).rgba(xx, yy), xx, yy, done + step, op) by {
                    assert(before.contains(xx, yy));
                    lemma_spans_apply_append(old(self).rgba(xx, yy), xx, yy, done, step, op);
                }
                assert(done + step + circle_spans_from(cx as int, cy as int, nxt.0, nxt.1, nxt.2) =~= done
                    + (step + circle_spans_from(cx as int, cy as int, nxt.0, nxt.1, nxt.2)));
                done = done + step;
            }
            y = y + 1;
            if err < 0 {
                err = err + 2 * y as i128 + 1;
            } else {
                x = x - 1;
                err = err + 2 * (y as i128 - x as i128) + 1;
            }
        }
        proof {
            assert(circle_spans_from(cx as int, cy as int, x as int, y as int, err as int) =~= Seq::<Span>::empty());
            assert(done + Seq::<Span>::empty() =~= done);
        }
    }

    /// Draw a filled circle (midpoint algorithm, horizontal spans). Radius 0 draws the
    /// centre pixel, a negative radius draws nothing.
    pub fn fill_circle(&mut self, cx: i32, cy: i32, radius: i32, r: u8, g: u8, b: u8)
        requires
            old(self).wf(),
            radius > 0 ==> fits_i32(cx - radius) && fits_i32(cx + radius) && fits_i32(cy - radius)
                && fits_i32(cy + radius),
        ensures
            final(self).wf(),
            final(self).same_size(old(self)),
            forall|xx: int, yy: int|
                final(self).contains(xx, yy) ==> #[trigger] final(self).rgba(xx, yy) == if (radius > 0
                    && covered_by(circle_spans(cx as int, cy as int, radius as int), xx, yy)) || (
                radius == 0 && xx == cx && yy == cy) {
                    (r, g, b, 255u8)
                } else {
                    old(self).rgba(xx, yy)
                },
    {
        if radius <= 0 {
            if radius == 0 {
                self.set_pixel(cx, cy, r, g, b);
            }
            return;
        }
        self.circle_fill(cx, cy, radius, PxOp::Paint(r, g, b));
        proof {
            assert forall|xx: int, yy: int| self.contains(xx, yy) implies #[trigger] self.rgba(xx, yy) == if covered_by(
                circle_spans(cx as int, cy as int, radius as int),
                xx,
                yy,
            ) {
                (r, g, b, 255u8)
            } else {
                old(self).rgba(xx, yy)
            } by {
                lemma_spans_paint(
                    old(self).rgba(xx, yy),
                    xx,
                    yy,
                    circle_spans(cx as int, cy as int, radius as int),
                    r,
                    g,
                    b,
                );
            }
        }
    }

    /// Fill a circle with alpha blending (same spans as `fill_circle`; where spans of the
    /// fill overlap, a pixel is blended once per span). Radius 0 blends the centre pixel.
    pub fn fill_circle_blend(&mut self, cx: i32, cy: i32, radius: i32, r: u8, g: u8, b: u8, a: u8)
        requires
            old(self).wf(),
            radius > 0 ==> fits_i32(cx - radius) && fits_i32(cx + radius) && fits_i32(cy - radius)
                && fits_i32(cy + radius),
        ensures
            final(self).wf(),
            final(self).same_size(old(self)),
            forall|xx: int, yy: int|
                final(self).contains(xx, yy) ==> #[trigger] final(self).rgba(xx, yy) == if radius > 0 {
                    blend_times(
                        old(self).rgba(xx, yy),
                        r,
                        g,
                        b,
                        a,
                        span_count(circle_spans(cx as int, cy as int, radius as int), xx, yy),
                    )
                } else if radius == 0 && xx == cx && yy == cy {
                    blend_px(old(self).rgba(xx, yy), r, g, b, a as u16)
                } else {
                    old(self).rgba(xx, yy)
                },
    {
        if radius <= 0 {
            if radius == 0 {
                self.blend_pixel(cx, cy, r, g, b, a);
            }
            return;
        }
        self.circle_fill(cx, cy, radius, PxOp::Blend(r, g, b, a));
        proof {
            assert forall|xx: int, yy: int| self.contains(xx, yy) implies #[trigger] self.rgba(xx, yy)
                == blend_times(
                old(self).rgba(xx, yy),
                r,
                g,
                b,
                a,
                span_count(circle_spans(cx as int, cy as int, radius as int), xx, yy),
            ) by {
                lemma_spans_blend(
                    old(self).rgba(xx, yy),
                    xx,
                    yy,
                    circle_spans(cx as int, cy as int, radius as int),
                    r,
                    g,
                    b,
                    a,
                );
            }
        }
    }

    /// Draw a circle outline (1px thick, midpoint algorithm); a negative radius draws nothing.
    pub fn draw_circle(&mut self, cx: i32, cy: i32, radius: i32, r: u8, g: u8, b: u8)
        requires
            old(self).wf(),
            radius >= 0 ==> fits_i32(cx - radius) && fits_i32(cx + radius) && fits_i32(cy - radius)
                && fits_i32(cy + radius),
        ensures
            final(self).wf(),
            final(self).same_size(old(self)),
            forall|xx: int, yy: int|
                final(self).contains(xx, yy) ==> #[trigger] final(self).rgba(xx, yy) == if circle_outline(
                    cx as int,
                    cy as int,
                    radius as int,
                ).contains((xx, yy)) {
                    (r, g, b, 255u8)
                } else {
                    old(self).rgba(xx, yy)
                },
    {
        let mut x: i64 = radius as i64;
        let mut y: i64 = 0;
        let mut err: i128 = 0;
        let ghost total = circle_outline(cx as int, cy as int, radius as int);
        let ghost mut done: Seq<(int, int)> = seq![];
        while x >= y
            invariant
                self.wf(),
                self.same_size(old(self)),
                0 <= y,
                x <= radius,
                radius >= 0 ==> y <= x + 2,
                x >= y ==> radius >= 0,
                radius >= 0 ==> fits_i32(cx - radius) && fits_i32(cx + radius) && fits_i32(cy - radius)
                    && fits_i32(cy + radius),
                -(y + 2) * 0x4_0000_0000 <= err <= (y + 2) * 0x4_0000_0000,
                done + outline_points_from(cx as int, cy as int, x as int, y as int, err as int) == total,
                forall|xx: int, yy: int|
                    self.contains(xx, yy) ==> #[trigger] self.rgba(xx, yy) == if done.contains((xx, yy)) {
                        (r, g, b, 255u8)
                    } else {
                        old(self).rgba(xx, yy)
                    },
            decreases x - y + 2,
        {
            let ghost step = outline_step_points(cx as int, cy as int, x as int, y as int);
            let xi = x as i32;
            let yi = y as i32;
            let ghost d0 = done;
            self.set_pixel(cx + xi, cy + yi, r, g, b);
            self.set_pixel(cx + yi, cy + xi, r, g, b);
            self.set_pixel(cx - yi, cy + xi, r, g, b);
            self.set_pixel(cx - xi, cy + yi, r, g, b);
            self.set_pixel(cx - xi, cy - yi, r, g, b);
            self.set_pixel(cx - yi, cy - xi, r, g, b);
            self.set_pixel(cx + yi, cy - xi, r, g, b);
            self.set_pixel(cx + xi, cy - yi, r, g, b);
            proof {
                let nd = d0 + step;
                assert forall|xx: int, yy: int| self.contains(xx, yy) implies #[trigger] self.rgba(xx, yy)
                    == if nd.contains((xx, yy)) {
                    (r, g, b, 255u8)
                } else {
                    old(self).rgba(xx, yy)
                } by {
                    if d0.contains((xx, yy)) {
                        let i = choose|i: int| 0 <= i < d0.len() && d0[i] == (xx, yy);
                        assert(nd[i] == (xx, yy));
                    }
                    if step.contains((xx, yy)) {
                        let i = choose|i: int| 0 <= i < step.len() && step[i] == (xx, yy);
                        assert(nd[d0.len() + i] == (xx, yy));
                    }
                    if nd.contains((xx, yy)) {
                        let i = choose|i: int| 0 <= i < nd.len() && nd[i] == (xx, yy);
                        if i < d0.len() {
                            assert(d0[i] == (xx, yy));
                        } else {
                            assert(step[i - d0.len()] == (xx, yy));
                        }
                    }
                }
                let e1 = err + 1 + 2 * (y + 1);
                let rest = if 2 * (e1 - x) + 1 > 0 {
                    outline_points_from(cx as int, cy as int, x - 1, y + 1, e1 + 1 - 2 * (x - 1))
                } else {
                    outline_points_from(cx as int, cy as int, x as int, y + 1, e1)
                };
                assert(outline_points_from(cx as int, cy as int, x as int, y as int, err as int) == step
                    + rest);
                assert(d0 + (step + rest) =~= nd + rest);
                done = nd;
            }
            y = y + 1;
            err = err + 1 + 2 * y as i128;
            if 2 * (err - x as i128) + 1 > 0 {
                x = x - 1;
                err = err + 1 - 2 * x as i128;
            }
        }
        proof {
            assert(done + Seq::<(int, int)>::empty() =~= done);
        }
    }

    /// Region code of `(x, y)` for this buffer.
    fn outcode_at(&self, x: i32, y: i32) -> (c: u8)
        requires
            self.wf(),
        ensures
            c == outcode(x as int, y as int, self.spec_width() as int, self.spec_height() as int),
    {
        let w = self.width as i32;
        let h = self.height as i32;
        let xc: u8 = if x < 0 { 1 } else if x >= w { 2 } else { 0 };
        let yc: u8 = if y < 0 { 8 } else if y >= h { 4 } else { 0 };
        xc | yc
    }

    /// Cohen-Sutherland line clipping: `(visible, x0, y0, x1, y1)` with the clipped
    /// coordinates; gives up (not visible) after 16 rounds or on a zero divisor.
    fn clip_line(&self, x0: i32, y0: i32, x1: i32, y1: i32) -> (res: (bool, i32, i32, i32, i32))
        requires
            self.wf(),
        ensures
            (res.0, res.1 as int, res.2 as int, res.3 as int, res.4 as int) == clip_iter(
                x0 as int,
                y0 as int,
                x1 as int,
                y1 as int,
                self.spec_width() as int,
                self.spec_height() as int,
                16,
            ),
            res.0 ==> self.contains(res.1 as int, res.2 as int) && self.contains(
                res.3 as int,
                res.4 as int,
            ),
    {
        let w = self.width as i32;
        let h = self.height as i32;
        let ghost wi = w as int;
        let ghost hi = h as int;
        let mut ax = x0;
        let mut ay = y0;
        let mut bx = x1;
        let mut by = y1;
        let mut code0 = self.outcode_at(ax, ay);
        let mut code1 = self.outcode_at(bx, by);
        let mut i: u32 = 0;
        while i < 16
            invariant
                self.wf(),
                w == self.spec_width(),
                h == self.spec_height(),
                wi == w,
                hi == h,
                i <= 16,
                code0 == outcode(ax as int, ay as int, wi, hi),
                code1 == outcode(bx as int, by as int, wi, hi),
                clip_iter(ax as int, ay as int, bx as int, by as int, wi, hi, (16 - i) as nat)
                    == clip_iter(x0 as int, y0 as int, x1 as int, y1 as int, wi, hi, 16),
            decreases 16 - i,
        {
            proof {
                lemma_outcode_shape(ax as int, ay as int, wi, hi);
                lemma_outcode_shape(bx as int, by as int, wi, hi);
                lemma_outcode_pair(code0, code1);
                lemma_outcode_bits(ax as int, ay as int, wi, hi);
                lemma_outcode_bits(bx as int, by as int, wi, hi);
            }
            if (code0 | code1) == 0 {
                return (true, ax, ay, bx, by);
            }
            if (code0 & code1) != 0 {
                return (false, 0, 0, 0, 0);
            }
            proof {
                lemma_clip_ratio(ax as int, ay as int, bx as int, by as int, wi, hi);
            }
            let code_out = if code0 != 0 { code0 } else { code1 };
            let dy: i128 = by as i128 - ay as i128;
            let dx: i128 = bx as i128 - ax as i128;
            let nx: i32;
            let ny: i32;
            if (code_out & 4) != 0 {
                if dy == 0 {
                    return (false, 0, 0, 0, 0);
                }
                let t: i128 = h as i128 - 1 - ay as i128;
                assert(-0x1_0000_0000_0000_0000 < dx * t < 0x1_0000_0000_0000_0000) by (nonlinear_arith)
                    requires
                        -0x1_0000_0000 < dx < 0x1_0000_0000,
                        -0x1_0000_0000 < t < 0x1_0000_0000,
                ;
                let q = trunc_div(dx * t, dy);
                proof {
                    lemma_tdiv_between(dx as int, t as int, dy as int);
                }
                nx = (ax as i128 + q) as i32;
                ny = h - 1;
            } else if (code_out & 8) != 0 {
                if dy == 0 {
                    return (false, 0, 0, 0, 0);
                }
                let t: i128 = 0 - ay as i128;
                assert(-0x1_0000_0000_0000_0000 < dx * t < 0x1_0000_0000_0000_0000) by (nonlinear_arith)
                    requires
                        -0x1_0000_0000 < dx < 0x1_0000_0000,
                        -0x1_0000_0000 < t < 0x1_0000_0000,
                ;
                let q = trunc_div(dx * t, dy);
                proof {
                    lemma_tdiv_between(dx as int, t as int, dy as int);
                }
                nx = (ax as i128 + q) as i32;
                ny = 0;
            } else if (code_out & 2) != 0 {
                if dx == 0 {
                    return (false, 0, 0, 0, 0);
                }
                let t: i128 = w as i128 - 1 - ax as i128;
                assert(-0x1_0000_0000_0000_0000 < dy * t < 0x1_0000_0000_0000_0000) by (nonlinear_arith)
                    requires
                        -0x1_0000_0000 < dy < 0x1_0000_0000,
                        -0x1_0000_0000 < t < 0x1_0000_0000,
                ;
                let q = trunc_div(dy * t, dx);
                proof {
                    lemma_tdiv_between(dy as int, t as int, dx as int);
                }
                ny = (ay as i128 + q) as i32;
                nx = w - 1;
            } else {
                if dx == 0 {
                    return (false, 0, 0, 0, 0);
                }
                let t: i128 = 0 - ax as i128;
                assert(-0x1_0000_0000_0000_0000 < dy * t < 0x1_0000_0000_0000_0000) by (nonlinear_arith)
                    requires
                        -0x1_0000_0000 < dy < 0x1_0000_0000,
                        -0x1_0000_0000 < t < 0x1_0000_0000,
                ;
                let q = trunc_div(dy * t, dx);
                proof {
                    lemma_tdiv_between(dy as int, t as int, dx as int);
                }
                ny = (ay as i128 + q) as i32;
                nx = 0;
            }
            if code_out == code0 {
                ax = nx;
                ay = ny;
                code0 = self.outcode_at(ax, ay);
            } else {
                bx = nx;
                by = ny;
                code1 = self.outcode_at(bx, by);
            }
            i = i + 1;
        }
        (false, 0, 0, 0, 0)
    }

    /// Draw a line with Bresenham's algorithm after Cohen-Sutherland clipping to the buffer.
    pub fn line(&mut self, x0: i32, y0: i32, x1: i32, y1: i32, r: u8, g: u8, b: u8)
        requires
            old(self).wf(),
        ensures
            final(self).wf(),
            final(self).same_size(old(self)),
            ({
                let c = clip_iter(
                    x0 as int,
                    y0 as int,
                    x1 as int,
                    y1 as int,
                    old(self).spec_width() as int,
                    old(self).spec_height() as int,
                    16,
                );
                forall|xx: int, yy: int|
                    final(self).contains(xx, yy) ==> #[trigger] final(self).rgba(xx, yy) == if c.0
                        && bresenham(c.1, c.2, c.3, c.4).contains((xx, yy)) {
                        (r, g, b, 255u8)
                    } else {
                        old(self).rgba(xx, yy)
                    }
            }),
    {
        let (clipped, cx0, cy0, cx1, cy1) = self.clip_line(x0, y0, x1, y1);
        if !clipped {
            return;
        }
        let ghost wi = self.width as int;
        let ghost hi = self.height as int;
        let dx: i64 = if cx1 >= cx0 { cx1 as i64 - cx0 as i64 } else { cx0 as i64 - cx1 as i64 };
        let dd: i64 = if cy1 >= cy0 { cy1 as i64 - cy0 as i64 } else { cy0 as i64 - cy1 as i64 };
        let dy: i64 = -dd;
        let sx: i64 = if cx0 < cx1 { 1 } else { -1 };
        let sy: i64 = if cy0 < cy1 { 1 } else { -1 };
        let mut err: i64 = dx + dy;
        let mut x: i64 = cx0 as i64;
        let mut y: i64 = cy0 as i64;
        let ghost total = bresenham(cx0 as int, cy0 as int, cx1 as int, cy1 as int);
        let ghost mut done: Seq<(int, int)> = seq![];
        let ghost mut fuel: nat = (dx - dy + 1) as nat;
        let ghost mut a: int = 0;
        let ghost mut bb: int = 0;
        proof {
            lemma_lin_bounds(wi, hi, cx0 as int, cy0 as int);
            lemma_lin_bounds(wi, hi, cx1 as int, cy1 as int);
            assert(dx * (1 + bb) - dd * (1 + a) == dx - dd) by (nonlinear_arith)
                requires
                    a == 0,
                    bb == 0,
            ;
            assert(x == cx0 + sx * a) by (nonlinear_arith)
                requires
                    a == 0,
                    x == cx0,
            ;
            assert(y == cy0 + sy * bb) by (nonlinear_arith)
                requires
                    bb == 0,
                    y == cy0,
            ;
        }
        loop
            invariant_except_break
                self.wf(),
                self.same_size(old(self)),
                wi == self.spec_width(),
                hi == self.spec_height(),
                self.contains(cx0 as int, cy0 as int),
                self.contains(cx1 as int, cy1 as int),
                dx == (if cx1 >= cx0 { cx1 - cx0 } else { cx0 - cx1 }),
                dd == (if cy1 >= cy0 { cy1 - cy0 } else { cy0 - cy1 }),
                dy == -dd,
                sx == (if cx0 < cx1 { 1int } else { -1int }),
                sy == (if cy0 < cy1 { 1int } else { -1int }),
                0 <= a <= dx,
                0 <= bb <= dd,
                x == cx0 + sx * a,
                y == cy0 + sy * bb,
                err == dx * (1 + bb) - dd * (1 + a),
                fuel >= (dx - a) + (dd - bb) + 1,
                done + bresenham_from(x as int, y as int, err as int, cx1 as int, cy1 as int, dx as int, dy as int, sx as int, sy as int, fuel) == total,
                forall|xx: int, yy: int|
                    self.contains(xx, yy) ==> #[trigger] self.rgba(xx, yy) == if done.contains((xx, yy)) {
                        (r, g, b, 255u8)
                    } else {
                        old(self).rgba(xx, yy)
                    },
            ensures
                self.wf(),
                self.same_size(old(self)),
                forall|xx: int, yy: int|
                    self.contains(xx, yy) ==> #[trigger] self.rgba(xx, yy) == if total.contains((xx, yy)) {
                        (r, g, b, 255u8)
                    } else {
                        old(self).rgba(xx, yy)
                    },
            decreases (dx - a) + (dd - bb),
        {
            proof {
                assert(sx * a == if cx0 < cx1 { a } else { -a }) by (nonlinear_arith)
                    requires
                        sx == (if cx0 < cx1 { 1int } else { -1int }),
                ;
                assert(sy * bb == if cy0 < cy1 { bb } else { -bb }) by (nonlinear_arith)
                    requires
                        sy == (if cy0 < cy1 { 1int } else { -1int }),
                ;
                assert(self.contains(x as int, y as int));
            }
            let ghost d0 = done;
            self.set_pixel_unchecked(x as u32, y as u32, r, g, b);
            proof {
                let nd = d0.push((x as int, y as int));
                assert forall|xx: int, yy: int| self.contains(xx, yy) implies #[trigger] self.rgba(xx, yy)
                    == if nd.contains((xx, yy)) {
                    (r, g, b, 255u8)
                } else {
                    old(self).rgba(xx, yy)
                } by {
                    if d0.contains((xx, yy)) {
                        let i = choose|i: int| 0 <= i < d0.len() && d0[i] == (xx, yy);
                        assert(nd[i] == (xx, yy));
                    }
                    if nd.contains((xx, yy)) && !(xx == x && yy == y) {
                        let i = choose|i: int| 0 <= i < nd.len() && nd[i] == (xx, yy);
                        assert(d0[i] == (xx, yy));
                    }
                    if xx == x && yy == y {
                        assert(nd[d0.len() as int] == (xx, yy));
                    }
                }
                done = nd;
            }
            if x == cx1 as i64 && y == cy1 as i64 {
                proof {
                    assert(bresenham_from(x as int, y as int, err as int, cx1 as int, cy1 as int, dx as int, dy as int, sx as int, sy as int, fuel) == seq![(x as int, y as int)]);
                    assert(d0 + seq![(x as int, y as int)] =~= done);
                }
                break;
            }
            proof {
                assert(sx * a == if cx0 < cx1 { a } else { -a }) by (nonlinear_arith)
                    requires
                        sx == (if cx0 < cx1 { 1int } else { -1int }),
                ;
                assert(sy * bb == if cy0 < cy1 { bb } else { -bb }) by (nonlinear_arith)
                    requires
                        sy == (if cy0 < cy1 { 1int } else { -1int }),
                ;
                assert(!(a == dx && bb == dd));
                let e2 = 2 * err;
                if a == dx {
                    assert(bb <= dd - 1);
                    assert(2 * (dx * (1 + bb) - dd * (1 + a)) < -dd) by (nonlinear_arith)
                        requires
                            a == dx,
                            0 <= bb <= dd - 1,
                            dx >= 0,
                    ;
                }
                if bb == dd {
                    assert(a <= dx - 1);
                    assert(2 * (dx * (1 + bb) - dd * (1 + a)) > dx) by (nonlinear_arith)
                        requires
                            bb == dd,
                            0 <= a <= dx - 1,
                            dd >= 0,
                    ;
                }
                assert(0 <= dx * (1 + bb) < 0x4000_0000_0000_0000) by (nonlinear_arith)
                    requires
                        0 <= dx < 0x8000_0000,
                        0 <= bb < 0x8000_0000,
                ;
                assert(0 <= dd * (1 + a) < 0x4000_0000_0000_0000) by (nonlinear_arith)
                    requires
                        0 <= dd < 0x8000_0000,
                        0 <= a < 0x8000_0000,
                ;
            }
            let e2 = 2 * err;
            let ghost old_err = err;
            if e2 >= dy {
                err = err + dy;
                x = x + sx;
                proof {
                    a = a + 1;
                }
            }
            if e2 <= dx {
                err = err + dx;
                y = y + sy;
                proof {
                    bb = bb + 1;
                }
            }
            proof {
                assert(err == dx * (1 + bb) - dd * (1 + a)) by (nonlinear_arith)
                    requires
                        old_err == dx * (1 + (if e2 <= dx { bb - 1 } else { bb })) - dd * (1 + (if e2
                            >= dy { a - 1 } else { a })),
                        err == old_err + (if e2 >= dy { dy as int } else { 0 }) + (if e2 <= dx {
                            dx as int
                        } else {
                            0
                        }),
                        dy == -dd,
                ;
                assert(x == cx0 + sx * a) by (nonlinear_arith)
                    requires
                        x == cx0 + sx * (if e2 >= dy { a - 1 } else { a }) + (if e2 >= dy { sx as int } else { 0 }),
                ;
                assert(y == cy0 + sy * bb) by (nonlinear_arith)
                    requires
                        y == cy0 + sy * (if e2 <= dx { bb - 1 } else { bb }) + (if e2 <= dx { sy as int } else { 0 }),
                ;
                fuel = (fuel - 1) as nat;
            }
        }
    }

    /// Dim the picture for the calibration overlay: the first three bytes of every pixel
    /// (alpha, blue and green) are halved; red is kept.
    pub fn dim_abg(&mut self)
        requires
            old(self).wf(),
        ensures
            final(self).wf(),
            final(self).same_size(old(self)),
            forall|x: int, y: int|
                final(self).contains(x, y) ==> #[trigger] final(self).rgba(x, y) == ({
                    let p = old(self).rgba(x, y);
                    (p.0, p.1 / 2, p.2 / 2, p.3 / 2)
                }),
    {
        let len = self.pixels.len() / 4;
        let mut i: usize = 0;
        while i < len
            invariant
                self.wf(),
                self.same_size(old(self)),
                len * 4 == self.bytes().len(),
                i <= len,
                forall|j: int|
                    0 <= j < len ==> #[trigger] px_lin(self.bytes(), j) == if j < i {
                        let p = px_lin(old(self).bytes(), j);
                        (p.0, p.1 / 2, p.2 / 2, p.3 / 2)
                    } else {
                        px_lin(old(self).bytes(), j)
                    },
            decreases len - i,
        {
            let ghost before = self.pixels@;
            let idx = i * 4;
            let a = self.pixels[idx] / 2;
            let b = self.pixels[idx + 1] / 2;
            let g = self.pixels[idx + 2] / 2;
            self.pixels.set(idx, a);
            self.pixels.set(idx + 1, b);
            self.pixels.set(idx + 2, g);
            assert forall|j: int| 0 <= j < len implies #[trigger] px_lin(self.bytes(), j) == if j < i
                + 1 {
                let p = px_lin(old(self).bytes(), j);
                (p.0, p.1 / 2, p.2 / 2, p.3 / 2)
            } else {
                px_lin(old(self).bytes(), j)
            } by {
                assert(px_lin(before, j) == if j < i {
                    let p = px_lin(old(self).bytes(), j);
                    (p.0, p.1 / 2, p.2 / 2, p.3 / 2)
                } else {
                    px_lin(old(self).bytes(), j)
                });
            }
            i = i + 1;
        }
        proof {
            assert forall|x: int, y: int| self.contains(x, y) implies #[trigger] self.rgba(x, y) == ({
                let p = old(self).rgba(x, y);
                (p.0, p.1 / 2, p.2 / 2, p.3 / 2)
            }) by {
                lemma_lin_bounds(self.width as int, self.height as int, x, y);
            }
        }
    }

    /// Read the pixel at in-bounds `(x, y)` as (r, g, b, a).
    fn read_rgba(&self, x: u32, y: u32) -> (p: Rgba)
        requires
            self.wf(),
            self.contains(x as int, y as int),
        ensures
            p == self.rgba(x as int, y as int),
    {
        let idx = self.pixel_index(x, y);
        (self.pixels[idx + 3], self.pixels[idx + 2], self.pixels[idx + 1], self.pixels[idx])
    }
}

impl Default for PixelBuffer {
    /// A 640x480 all-zero buffer.
    fn default() -> (pb: Self)
        ensures
            pb.wf(),
            pb.spec_width() == DEFAULT_WIDTH,
            pb.spec_height() == DEFAULT_HEIGHT,
            pb.pixels_are(|x: int, y: int| (0u8, 0u8, 0u8, 0u8)),
    {
        Self::new()
    }
}

// ============================================================================
// Laws of the rotations
// ============================================================================

/// Turning a buffer 90 degrees clockwise and then 270 degrees clockwise gives back
/// the starting picture.
pub proof fn lemma_rotate_90_then_270(a: &PixelBuffer, b: &PixelBuffer, c: &PixelBuffer)
    requires
        is_rotated_90(a, b),
        is_rotated_270(b, c),
    ensures
        c.same_size(a),
        forall|x: int, y: int| a.contains(x, y) ==> #[trigger] c.rgba(x, y) == a.rgba(x, y),
{
    assert forall|x: int, y: int| a.contains(x, y) implies #[trigger] c.rgba(x, y) == a.rgba(x, y) by {
        assert(c.rgba(x, y) == b.rgba(b.spec_width() - 1 - y, x));
        assert(b.contains(b.spec_width() - 1 - y, x));
    }
}

/// Turning a buffer 270 degrees clockwise and then 90 degrees clockwise gives back
/// the starting picture.
pub proof fn lemma_rotate_270_then_90(a: &PixelBuffer, b: &PixelBuffer, c: &PixelBuffer)
    requires
        is_rotated_270(a, b),
        is_rotated_90(b, c),
    ensures
        c.same_size(a),
        forall|x: int, y: int| a.contains(x, y) ==> #[trigger] c.rgba(x, y) == a.rgba(x, y),
{
    assert forall|x: int, y: int| a.contains(x, y) implies #[trigger] c.rgba(x, y) == a.rgba(x, y) by {
        assert(c.rgba(x, y) == b.rgba(y, b.spec_height() - 1 - x));
        assert(b.contains(y, b.spec_height() - 1 - x));
    }
}

/// Turning a buffer 180 degrees twice gives back the starting picture.
pub proof fn lemma_rotate_180_twice(a: &PixelBuffer, b: &PixelBuffer, c: &PixelBuffer)
    requires
        is_rotated_180(a, b),
        is_rotated_180(b, c),
    ensures
        c.same_size(a),
        forall|x: int, y: int| a.contains(x, y) ==> #[trigger] c.rgba(x, y) == a.rgba(x, y),
{
    assert forall|x: int, y: int| a.contains(x, y) implies #[trigger] c.rgba(x, y) == a.rgba(x, y) by {
        assert(c.rgba(x, y) == b.rgba(b.spec_width() - 1 - x, b.spec_height() - 1 - y));
        assert(b.contains(b.spec_width() - 1 - x, b.spec_height() - 1 - y));
    }
}

/// Two quarter turns clockwise make a half turn.
pub proof fn lemma_rotate_90_twice(a: &PixelBuffer, b: &PixelBuffer, c: &PixelBuffer)
    requires
        is_rotated_90(a, b),
        is_rotated_90(b, c),
    ensures
        is_rotated_180(a, c),
{
    assert forall|nx: int, ny: int| c.contains(nx, ny) implies #[trigger] c.rgba(nx, ny) == a.rgba(
        a.spec_width() - 1 - nx,
        a.spec_height() - 1 - ny,
    ) by {
        assert(c.rgba(nx, ny) == b.rgba(ny, b.spec_height() - 1 - nx));
        assert(b.contains(ny, b.spec_height() - 1 - nx));
    }
}

} // verus!
