//! The SMPTE colour-bar test pattern shown for unassigned effect slots.

use vstd::prelude::*;
use crate::pixel_buffer::{PixelBuffer, Rgba, on_hspan};

verus! {

/// A filled rectangle `(x, y, w, h, colour)` as `fill_rect` draws it.
pub type Rect = (int, int, int, int, (u8, u8, u8));

/// Whether `fill_rect(x, y, w, h, ..)` paints `(xx, yy)`.
pub open spec fn rect_paints(r: Rect, xx: int, yy: int) -> bool {
    r.1 <= yy < r.1 + r.3 && on_hspan(xx, yy, r.0, r.0 + r.2 - 1, yy)
}

/// Pixel `p` at `(xx, yy)` after the rectangles are filled in order (later ones on top).
pub open spec fn paint_rects(p: Rgba, xx: int, yy: int, rects: Seq<Rect>) -> Rgba
    decreases rects.len(),
{
    if rects.len() == 0 {
        p
    } else {
        let r = rects.last();
        if rect_paints(r, xx, yy) {
            (r.4.0, r.4.1, r.4.2, 255u8)
        } else {
            paint_rects(p, xx, yy, rects.drop_last())
        }
    }
}

/// The bars of the pattern for a `width` by `height` screen, in drawing order: seven
/// 75% colour bars over the top two thirds, seven reversed mini-bars in the next twelfth,
/// then -I, white, +Q, black and the three pluge bars along the bottom.
pub open spec fn smpte_rects(width: int, height: int) -> Seq<Rect> {
    let main_height = height * 2 / 3;
    let mid_height = height / 12;
    let bottom_y = main_height + mid_height;
    let bw = width / 7;
    let bottom_height = height - bottom_y;
    let pluge_start = width - bw;
    let pw = bw / 3;
    seq![
        (0 * bw, 0, bw, main_height, (191u8, 191u8, 191u8)),
        (1 * bw, 0, bw, main_height, (191u8, 191u8, 0u8)),
        (2 * bw, 0, bw, main_height, (0u8, 191u8, 191u8)),
        (3 * bw, 0, bw, main_height, (0u8, 191u8, 0u8)),
        (4 * bw, 0, bw, main_height, (191u8, 0u8, 191u8)),
        (5 * bw, 0, bw, main_height, (191u8, 0u8, 0u8)),
        (6 * bw, 0, width - 6 * bw, main_height, (0u8, 0u8, 191u8)),
        (0 * bw, main_height, bw, mid_height, (0u8, 0u8, 191u8)),
        (1 * bw, main_height, bw, mid_height, (0u8, 0u8, 0u8)),
        (2 * bw, main_height, bw, mid_height, (191u8, 0u8, 191u8)),
        (3 * bw, main_height, bw, mid_height, (0u8, 0u8, 0u8)),
        (4 * bw, main_height, bw, mid_height, (0u8, 191u8, 191u8)),
        (5 * bw, main_height, bw, mid_height, (0u8, 0u8, 0u8)),
        (6 * bw, main_height, width - 6 * bw, mid_height, (191u8, 191u8, 191u8)),
        (0, bottom_y, bw, bottom_height, (0u8, 68u8, 130u8)),
        (bw, bottom_y, bw, bottom_height, (255u8, 255u8, 255u8)),
        (bw * 2, bottom_y, bw, bottom_height, (67u8, 0u8, 130u8)),
        (bw * 3, bottom_y, pluge_start - bw * 3, bottom_height, (0u8, 0u8, 0u8)),
        (pluge_start, bottom_y, pw, bottom_height, (0u8, 0u8, 0u8)),
        (pluge_start + pw, bottom_y, pw, bottom_height, (0u8, 0u8, 0u8)),
        (
            pluge_start + pw * 2,
            bottom_y,
            width - (pluge_start + pw * 2),
            bottom_height,
            (10u8, 10u8, 10u8),
        ),
    ]
}

/// The pixel after painting is the colour of the last rectangle that covers it.
proof fn lemma_paint_topmost(p: Rgba, xx: int, yy: int, rects: Seq<Rect>, j: int)
    requires
        0 <= j < rects.len(),
        rect_paints(rects[j], xx, yy),
        forall|k: int| j < k < rects.len() ==> !rect_paints(#[trigger] rects[k], xx, yy),
    ensures
        paint_rects(p, xx, yy, rects) == (rects[j].4.0, rects[j].4.1, rects[j].4.2, 255u8),
    decreases rects.len(),
{
    if j < rects.len() - 1 {
        assert(!rect_paints(rects[rects.len() - 1], xx, yy));
        let d = rects.drop_last();
        assert forall|k: int| j < k < d.len() implies !rect_paints(#[trigger] d[k], xx, yy) by {
            assert(d[k] == rects[k]);
        }
        lemma_paint_topmost(p, xx, yy, d, j);
    }
}

/// The top two thirds of the pattern are the seven 75% bars, left to right white
/// (191, 191, 191), yellow (191, 191, 0), cyan (0, 191, 191), green (0, 191, 0), magenta
/// (191, 0, 191), red (191, 0, 0) and blue (0, 0, 191), each `width / 7` wide; the last
/// one reaches the right edge.
pub proof fn lemma_top_bars(p: Rgba, width: int, height: int, xx: int, yy: int)
    requires
        width >= 7,
        height >= 0,
        0 <= yy < height * 2 / 3,
        0 <= xx < width,
    ensures
        ({
            let bw = width / 7;
            let c = paint_rects(p, xx, yy, smpte_rects(width, height));
            &&& xx < bw ==> c == (191u8, 191u8, 191u8, 255u8)
            &&& bw <= xx < 2 * bw ==> c == (191u8, 191u8, 0u8, 255u8)
            &&& 2 * bw <= xx < 3 * bw ==> c == (0u8, 191u8, 191u8, 255u8)
            &&& 3 * bw <= xx < 4 * bw ==> c == (0u8, 191u8, 0u8, 255u8)
            &&& 4 * bw <= xx < 5 * bw ==> c == (191u8, 0u8, 191u8, 255u8)
            &&& 5 * bw <= xx < 6 * bw ==> c == (191u8, 0u8, 0u8, 255u8)
            &&& 6 * bw <= xx ==> c == (0u8, 0u8, 191u8, 255u8)
        }),
{
    let rects = smpte_rects(width, height);
    let bw = width / 7;
    let k: int = if xx < bw { 0 } else if xx < 2 * bw { 1 } else if xx < 3 * bw { 2 } else if xx < 4
        * bw { 3 } else if xx < 5 * bw { 4 } else if xx < 6 * bw { 5 } else { 6 };
    assert forall|j: int| k < j < rects.len() implies !rect_paints(#[trigger] rects[j], xx, yy) by {}
    lemma_paint_topmost(p, xx, yy, rects, k);
}

/// The band below the main bars (a twelfth of the height) holds the reversed mini-bars,
/// left to right blue (0, 0, 191), black, magenta (191, 0, 191), black, cyan (0, 191, 191),
/// black and white (191, 191, 191), each `width / 7` wide; the last one reaches the right
/// edge.
pub proof fn lemma_mid_bars(p: Rgba, width: int, height: int, xx: int, yy: int)
    requires
        width >= 7,
        height >= 0,
        height * 2 / 3 <= yy < height * 2 / 3 + height / 12,
        0 <= xx < width,
    ensures
        ({
            let bw = width / 7;
            let c = paint_rects(p, xx, yy, smpte_rects(width, height));
            &&& xx < bw ==> c == (0u8, 0u8, 191u8, 255u8)
            &&& bw <= xx < 2 * bw ==> c == (0u8, 0u8, 0u8, 255u8)
            &&& 2 * bw <= xx < 3 * bw ==> c == (191u8, 0u8, 191u8, 255u8)
            &&& 3 * bw <= xx < 4 * bw ==> c == (0u8, 0u8, 0u8, 255u8)
            &&& 4 * bw <= xx < 5 * bw ==> c == (0u8, 191u8, 191u8, 255u8)
            &&& 5 * bw <= xx < 6 * bw ==> c == (0u8, 0u8, 0u8, 255u8)
            &&& 6 * bw <= xx ==> c == (191u8, 191u8, 191u8, 255u8)
        }),
{
    let rects = smpte_rects(width, height);
    let bw = width / 7;
    let k: int = if xx < bw { 7 } else if xx < 2 * bw { 8 } else if xx < 3 * bw { 9 } else if xx < 4
        * bw { 10 } else if xx < 5 * bw { 11 } else if xx < 6 * bw { 12 } else { 13 };
    assert forall|j: int| k < j < rects.len() implies !rect_paints(#[trigger] rects[j], xx, yy) by {}
    lemma_paint_topmost(p, xx, yy, rects, k);
}

/// The bottom band holds, left to right, -I (0, 68, 130), white (255, 255, 255) and +Q
/// (67, 0, 130) bars `width / 7` wide, then black up to the last pluge segment, which is
/// (10, 10, 10) from `width - width / 7 + 2 * (width / 7 / 3)` to the right edge.
pub proof fn lemma_bottom_bars(p: Rgba, width: int, height: int, xx: int, yy: int)
    requires
        width >= 7,
        height >= 0,
        height * 2 / 3 + height / 12 <= yy < height,
        0 <= xx < width,
    ensures
        ({
            let bw = width / 7;
            let last = width - bw + 2 * (bw / 3);
            let c = paint_rects(p, xx, yy, smpte_rects(width, height));
            &&& xx < bw ==> c == (0u8, 68u8, 130u8, 255u8)
            &&& bw <= xx < 2 * bw ==> c == (255u8, 255u8, 255u8, 255u8)
            &&& 2 * bw <= xx < 3 * bw ==> c == (67u8, 0u8, 130u8, 255u8)
            &&& 3 * bw <= xx < last ==> c == (0u8, 0u8, 0u8, 255u8)
            &&& last <= xx ==> c == (10u8, 10u8, 10u8, 255u8)
        }),
{
    let rects = smpte_rects(width, height);
    let bw = width / 7;
    let pw = bw / 3;
    let ps = width - bw;
    // With pluge segments of width 0 (narrow screens) their backwards spans cover the
    // column just left of the pluge in black, on top of the black bar.
    let k: int = if xx < bw { 14 } else if xx < 2 * bw { 15 } else if xx < 3 * bw { 16 } else if pw
        == 0 && xx == ps - 1 { 19 } else if xx < ps { 17 } else if xx < ps + pw { 18 } else if xx < ps + 2
        * pw { 19 } else { 20 };
    assert forall|j: int| k < j < rects.len() implies !rect_paints(#[trigger] rects[j], xx, yy) by {}
    lemma_paint_topmost(p, xx, yy, rects, k);
}

/// Draw the colour bars of the SMPTE test pattern over the whole buffer.
pub fn render_color_bars(buffer: &mut PixelBuffer)
    requires
        old(buffer).wf(),
        old(buffer).spec_height() * 2 <= i32::MAX,
    ensures
        final(buffer).wf(),
        final(buffer).same_size(old(buffer)),
        forall|xx: int, yy: int|
            final(buffer).contains(xx, yy) ==> #[trigger] final(buffer).rgba(xx, yy) == paint_rects(
                old(buffer).rgba(xx, yy),
                xx,
                yy,
                smpte_rects(old(buffer).spec_width() as int, old(buffer).spec_height() as int),
            ),
{
    let width = buffer.width() as i32;
    let height = buffer.height() as i32;
    let main_height = height * 2 / 3;
    let mid_height = height / 12;
    let bottom_y = main_height + mid_height;
    let bar_width = width / 7;
    let bottom_height = height - bottom_y;
    let pluge_start = width - bar_width;
    let pluge_width = bar_width / 3;
    let mut rects: Vec<(i32, i32, u32, u32, (u8, u8, u8))> = Vec::new();
    let main_colors: [(u8, u8, u8); 7] = [
        (191, 191, 191),
        (191, 191, 0),
        (0, 191, 191),
        (0, 191, 0),
        (191, 0, 191),
        (191, 0, 0),
        (0, 0, 191),
    ];
    let mid_colors: [(u8, u8, u8); 7] = [
        (0, 0, 191),
        (0, 0, 0),
        (191, 0, 191),
        (0, 0, 0),
        (0, 191, 191),
        (0, 0, 0),
        (191, 191, 191),
    ];
    let ghost spec_rects = smpte_rects(width as int, height as int);
    let mut i: usize = 0;
    while i < 7
        invariant
            0 <= width,
            0 <= height,
            bar_width == width / 7,
            main_height == height * 2 / 3,
            i <= 7,
            main_colors@ == seq![
                (191u8, 191u8, 191u8),
                (191u8, 191u8, 0u8),
                (0u8, 191u8, 191u8),
                (0u8, 191u8, 0u8),
                (191u8, 0u8, 191u8),
                (191u8, 0u8, 0u8),
                (0u8, 0u8, 191u8),
            ],
            spec_rects == smpte_rects(width as int, height as int),
            rects@.len() == i,
            forall|k: int|
                0 <= k < i ==> ({
                    let r = #[trigger] rects@[k];
                    (r.0 as int, r.1 as int, r.2 as int, r.3 as int, r.4) == spec_rects[k]
                }),
        decreases 7 - i,
    {
        let x = i as i32 * bar_width;
        let w = if i == 6 { width - x } else { bar_width };
        rects.push((x, 0, w as u32, main_height as u32, main_colors[i]));
        i = i + 1;
    }
    let mut i: usize = 0;
    while i < 7
        invariant
            0 <= width,
            0 <= height,
            bar_width == width / 7,
            main_height == height * 2 / 3,
            mid_height == height / 12,
            i <= 7,
            mid_colors@ == seq![
                (0u8, 0u8, 191u8),
                (0u8, 0u8, 0u8),
                (191u8, 0u8, 191u8),
                (0u8, 0u8, 0u8),
                (0u8, 191u8, 191u8),
                (0u8, 0u8, 0u8),
                (191u8, 191u8, 191u8),
            ],
            spec_rects == smpte_rects(width as int, height as int),
            rects@.len() == 7 + i,
            forall|k: int|
                0 <= k < 7 + i ==> ({
                    let r = #[trigger] rects@[k];
                    (r.0 as int, r.1 as int, r.2 as int, r.3 as int, r.4) == spec_rects[k]
                }),
        decreases 7 - i,
    {
        let x = i as i32 * bar_width;
        let w = if i == 6 { width - x } else { bar_width };
        rects.push((x, main_height, w as u32, mid_height as u32, mid_colors[i]));
        i = i + 1;
    }
    let bh = bottom_height as u32;
    rects.push((0, bottom_y, bar_width as u32, bh, (0, 68, 130)));
    rects.push((bar_width, bottom_y, bar_width as u32, bh, (255, 255, 255)));
    rects.push((bar_width * 2, bottom_y, bar_width as u32, bh, (67, 0, 130)));
    rects.push((bar_width * 3, bottom_y, (pluge_start - bar_width * 3) as u32, bh, (0, 0, 0)));
    rects.push((pluge_start, bottom_y, pluge_width as u32, bh, (0, 0, 0)));
    rects.push((pluge_start + pluge_width, bottom_y, pluge_width as u32, bh, (0, 0, 0)));
    rects.push(
        (
            pluge_start + pluge_width * 2,
            bottom_y,
            (width - (pluge_start + pluge_width * 2)) as u32,
            bh,
            (10, 10, 10),
        ),
    );
    assert(rects@.len() == spec_rects.len());
    let n = rects.len();
    let mut k: usize = 0;
    while k < n
        invariant
            buffer.wf(),
            buffer.same_size(old(buffer)),
            width == buffer.spec_width(),
            height == buffer.spec_height(),
            0 <= width <= i32::MAX,
            0 <= height <= i32::MAX,
            n == rects@.len(),
            n == spec_rects.len(),
            spec_rects == smpte_rects(width as int, height as int),
            k <= n,
            forall|j: int|
                0 <= j < n ==> ({
                    let r = #[trigger] rects@[j];
                    &&& (r.0 as int, r.1 as int, r.2 as int, r.3 as int, r.4) == spec_rects[j]
                    &&& 0 <= r.0
                    &&& r.0 + r.2 <= width
                    &&& 0 <= r.1
                    &&& r.1 + r.3 <= height
                }),
            forall|xx: int, yy: int|
                buffer.contains(xx, yy) ==> #[trigger] buffer.rgba(xx, yy) == paint_rects(
                    old(buffer).rgba(xx, yy),
                    xx,
                    yy,
                    spec_rects.subrange(0, k as int),
                ),
        decreases n - k,
    {
        let r = rects[k];
        buffer.fill_rect(r.0, r.1, r.2, r.3, (r.4).0, (r.4).1, (r.4).2);
        proof {
            assert forall|xx: int, yy: int| buffer.contains(xx, yy) implies #[trigger] buffer.rgba(
                xx,
                yy,
            ) == paint_rects(old(buffer).rgba(xx, yy), xx, yy, spec_rects.subrange(0, k + 1)) by {
                assert(spec_rects.subrange(0, k + 1).drop_last() =~= spec_rects.subrange(0, k as int));
                assert(spec_rects.subrange(0, k + 1).last() == spec_rects[k as int]);
            }
        }
        k = k + 1;
    }
    assert(spec_rects.subrange(0, n as int) =~= spec_rects);
}

/// A colour channel darkened to 82%: `c * 82 / 100`.
pub open spec fn darken82(c: u8) -> u8 {
    (c * 82 / 100) as u8
}

/// Whether row `y` lies in a dark band of the animated CRT scanlines: bands of three
/// dark and three bright rows, shifted by `offset`.
pub open spec fn in_dark_band(y: int, offset: int) -> bool {
    (y + offset) % 6 < 3
}

/// CRT scanline overlay: rows in dark bands have their colour darkened to 82%; alpha kept.
pub fn darken_scanlines(buffer: &mut PixelBuffer, offset: usize)
    requires
        old(buffer).wf(),
        old(buffer).spec_height() + offset <= usize::MAX,
    ensures
        final(buffer).wf(),
        final(buffer).same_size(old(buffer)),
        forall|x: int, y: int|
            final(buffer).contains(x, y) ==> #[trigger] final(buffer).rgba(x, y) == if in_dark_band(
                y,
                offset as int,
            ) {
                let p = old(buffer).rgba(x, y);
                (darken82(p.0), darken82(p.1), darken82(p.2), p.3)
            } else {
                old(buffer).rgba(x, y)
            },
{
    let w = buffer.width();
    let h = buffer.height();
    let mut y: u32 = 0;
    while y < h
        invariant
            buffer.wf(),
            buffer.same_size(old(buffer)),
            w == buffer.spec_width(),
            h == buffer.spec_height(),
            h + offset <= usize::MAX,
            y <= h,
            forall|xx: int, yy: int|
                buffer.contains(xx, yy) ==> #[trigger] buffer.rgba(xx, yy) == if yy < y && in_dark_band(
                    yy,
                    offset as int,
                ) {
                    let p = old(buffer).rgba(xx, yy);
                    (darken82(p.0), darken82(p.1), darken82(p.2), p.3)
                } else {
                    old(buffer).rgba(xx, yy)
                },
        decreases h - y,
    {
        let pattern_pos = (y as usize + offset) % 6;
        if pattern_pos < 3 {
            let mut x: u32 = 0;
            while x < w
                invariant
                    buffer.wf(),
                    buffer.same_size(old(buffer)),
                    w == buffer.spec_width(),
                    h == buffer.spec_height(),
                    y < h,
                    x <= w,
                    in_dark_band(y as int, offset as int),
                    forall|xx: int, yy: int|
                        buffer.contains(xx, yy) ==> #[trigger] buffer.rgba(xx, yy) == if (yy < y || (
                        yy == y && xx < x)) && in_dark_band(yy, offset as int) {
                            let p = old(buffer).rgba(xx, yy);
                            (darken82(p.0), darken82(p.1), darken82(p.2), p.3)
                        } else {
                            old(buffer).rgba(xx, yy)
                        },
                decreases w - x,
            {
                let p = buffer.get_pixel_rgba(x as i32, y as i32).unwrap();
                let r = (p.0 as u32 * 82 / 100) as u8;
                let g = (p.1 as u32 * 82 / 100) as u8;
                let b = (p.2 as u32 * 82 / 100) as u8;
                buffer.set_pixel_rgba(x as i32, y as i32, r, g, b, p.3);
                x = x + 1;
            }
        }
        y = y + 1;
    }
}

} // verus!
