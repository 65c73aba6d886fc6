//! The software arrow cursor drawn in calibration mode on rotated displays.

use vstd::prelude::*;
use crate::pixel_buffer::PixelBuffer;

verus! {

/// Rows covered by column `dx` of the arrow cursor (pointing up-left), first and last.
pub open spec fn cursor_rows(dx: int) -> (int, int) {
    if dx == 0 {
        (0, 9)
    } else if dx == 1 {
        (1, 8)
    } else if dx == 2 {
        (2, 7)
    } else if dx == 3 {
        (3, 6)
    } else if dx == 4 {
        (4, 7)
    } else if dx == 5 {
        (5, 8)
    } else if dx == 6 {
        (6, 9)
    } else if dx == 7 {
        (7, 8)
    } else {
        (8, 8)
    }
}

/// Whether offset `(dx, dy)` from the hot spot is a pixel of the arrow.
pub open spec fn in_cursor(dx: int, dy: int) -> bool {
    0 <= dx <= 8 && cursor_rows(dx).0 <= dy <= cursor_rows(dx).1
}

/// Whether offset `(dx, dy)` is next to (left, right, above or below) a pixel of the arrow.
pub open spec fn near_cursor(dx: int, dy: int) -> bool {
    in_cursor(dx - 1, dy) || in_cursor(dx + 1, dy) || in_cursor(dx, dy - 1) || in_cursor(dx, dy + 1)
}

/// Arrow pixels drawn before column `c`, row `r` (columns left to right, rows top down).
spec fn drawn_before(c: int, r: int, dx: int, dy: int) -> bool {
    in_cursor(dx, dy) && (dx < c || (dx == c && dy < r))
}

spec fn outlined_before(c: int, r: int, dx: int, dy: int) -> bool {
    drawn_before(c, r, dx - 1, dy) || drawn_before(c, r, dx + 1, dy) || drawn_before(c, r, dx, dy - 1)
        || drawn_before(c, r, dx, dy + 1)
}

fn column_rows(dx: i32) -> (r: (i32, i32))
    requires
        0 <= dx <= 8,
    ensures
        r.0 as int == cursor_rows(dx as int).0,
        r.1 as int == cursor_rows(dx as int).1,
{
    if dx == 0 {
        (0, 9)
    } else if dx == 1 {
        (1, 8)
    } else if dx == 2 {
        (2, 7)
    } else if dx == 3 {
        (3, 6)
    } else if dx == 4 {
        (4, 7)
    } else if dx == 5 {
        (5, 8)
    } else if dx == 6 {
        (6, 9)
    } else if dx == 7 {
        (7, 8)
    } else {
        (8, 8)
    }
}

/// Draw the arrow cursor with its hot spot at `(x, y)`: a white arrow with a black
/// outline on the pixels next to it; pixels outside the buffer are skipped.
pub fn draw_software_cursor(buffer: &mut PixelBuffer, x: i32, y: i32)
    requires
        old(buffer).wf(),
        i32::MIN < x,
        x + 9 <= i32::MAX,
        i32::MIN < y,
        y + 10 <= i32::MAX,
    ensures
        final(buffer).wf(),
        final(buffer).same_size(old(buffer)),
        forall|px: int, py: int|
            final(buffer).contains(px, py) ==> #[trigger] final(buffer).rgba(px, py) == if in_cursor(
                px - x,
                py - y,
            ) {
                (255u8, 255u8, 255u8, 255u8)
            } else if near_cursor(px - x, py - y) {
                (0u8, 0u8, 0u8, 255u8)
            } else {
                old(buffer).rgba(px, py)
            },
{
    // Black outline
    let mut dx: i32 = 0;
    while dx <= 8
        invariant
            buffer.wf(),
            buffer.same_size(old(buffer)),
            0 <= dx <= 9,
            i32::MIN < x,
            x + 9 <= i32::MAX,
            i32::MIN < y,
            y + 10 <= i32::MAX,
            forall|px: int, py: int|
                buffer.contains(px, py) ==> #[trigger] buffer.rgba(px, py) == if outlined_before(
                    dx as int,
                    0,
                    px - x,
                    py - y,
                ) {
                    (0u8, 0u8, 0u8, 255u8)
                } else {
                    old(buffer).rgba(px, py)
                },
        decreases 9 - dx,
    {
        let (top, bottom) = column_rows(dx);
        let mut dy: i32 = top;
        while dy <= bottom
            invariant
                buffer.wf(),
                buffer.same_size(old(buffer)),
                0 <= dx <= 8,
                top as int == cursor_rows(dx as int).0,
                bottom as int == cursor_rows(dx as int).1,
                top <= dy <= bottom + 1,
                i32::MIN < x,
                x + 9 <= i32::MAX,
                i32::MIN < y,
                y + 10 <= i32::MAX,
                forall|px: int, py: int|
                    buffer.contains(px, py) ==> #[trigger] buffer.rgba(px, py) == if outlined_before(
                        dx as int,
                        dy as int,
                        px - x,
                        py - y,
                    ) {
                        (0u8, 0u8, 0u8, 255u8)
                    } else {
                        old(buffer).rgba(px, py)
                    },
            decreases bottom + 1 - dy,
        {
            buffer.set_pixel(x + dx - 1, y + dy, 0, 0, 0);
            buffer.set_pixel(x + dx + 1, y + dy, 0, 0, 0);
            buffer.set_pixel(x + dx, y + dy - 1, 0, 0, 0);
            buffer.set_pixel(x + dx, y + dy + 1, 0, 0, 0);
            dy = dy + 1;
        }
        dx = dx + 1;
    }
    assert forall|a: int, b: int| outlined_before(9, 0, a, b) == #[trigger] near_cursor(a, b) by {}
    // White arrow
    let mut dx: i32 = 0;
    while dx <= 8
        invariant
            buffer.wf(),
            buffer.same_size(old(buffer)),
            0 <= dx <= 9,
            i32::MIN < x,
            x + 9 <= i32::MAX,
            i32::MIN < y,
            y + 10 <= i32::MAX,
            forall|px: int, py: int|
                buffer.contains(px, py) ==> #[trigger] buffer.rgba(px, py) == if drawn_before(
                    dx as int,
                    0,
                    px - x,
                    py - y,
                ) {
                    (255u8, 255u8, 255u8, 255u8)
                } else if near_cursor(px - x, py - y) {
                    (0u8, 0u8, 0u8, 255u8)
                } else {
                    old(buffer).rgba(px, py)
                },
        decreases 9 - dx,
    {
        let (top, bottom) = column_rows(dx);
        let mut dy: i32 = top;
        while dy <= bottom
            invariant
                buffer.wf(),
                buffer.same_size(old(buffer)),
                0 <= dx <= 8,
                top as int == cursor_rows(dx as int).0,
                bottom as int == cursor_rows(dx as int).1,
                top <= dy <= bottom + 1,
                i32::MIN < x,
                x + 9 <= i32::MAX,
                i32::MIN < y,
                y + 10 <= i32::MAX,
                forall|px: int, py: int|
                    buffer.contains(px, py) ==> #[trigger] buffer.rgba(px, py) == if drawn_before(
                        dx as int,
                        dy as int,
                        px - x,
                        py - y,
                    ) {
                        (255u8, 255u8, 255u8, 255u8)
                    } else if near_cursor(px - x, py - y) {
                        (0u8, 0u8, 0u8, 255u8)
                    } else {
                        old(buffer).rgba(px, py)
                    },
            decreases bottom + 1 - dy,
        {
            buffer.set_pixel(x + dx, y + dy, 255, 255, 255);
            dy = dy + 1;
        }
        dx = dx + 1;
    }
}

} // verus!
