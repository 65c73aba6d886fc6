//! Display rotation: how window (mouse) coordinates map back to content coordinates.

use vstd::prelude::*;
use crate::pixel_buffer::{PixelBuffer, is_rotated_90, is_rotated_180, is_rotated_270};

verus! {

/// Display rotation for portrait/landscape modes.
#[derive(Debug, Clone, Copy, PartialEq, Eq)]
pub enum Rotation {
    /// 0 degrees
    Upright,
    /// 90 degrees clockwise (portrait)
    Cw90,
    /// 180 degrees (upside down)
    Cw180,
    /// 270 degrees clockwise / 90 degrees counter-clockwise (portrait)
    Cw270,
}

/// The content position shown at window position `(wx, wy)` for content of size `w` by `h`.
pub open spec fn content_of_window(wx: int, wy: int, rotation: Rotation, w: int, h: int) -> (int, int) {
    match rotation {
        Rotation::Upright => (wx, wy),
        Rotation::Cw90 => (wy, h - 1 - wx),
        Rotation::Cw180 => (w - 1 - wx, h - 1 - wy),
        Rotation::Cw270 => (w - 1 - wy, wx),
    }
}

/// The content-space movement for a window-space movement `(dx, dy)`.
pub open spec fn content_delta(dx: int, dy: int, rotation: Rotation) -> (int, int) {
    match rotation {
        Rotation::Upright => (dx, dy),
        Rotation::Cw90 => (dy, -dx),
        Rotation::Cw180 => (-dx, -dy),
        Rotation::Cw270 => (-dy, dx),
    }
}

/// Whether an `i32` can hold `v`.
pub open spec fn fits_i32(v: int) -> bool {
    i32::MIN <= v <= i32::MAX
}

/// Transform window coordinates to content coordinates (the inverse of the rotation
/// applied during rendering).
pub fn transform_mouse(wx: i32, wy: i32, rotation: Rotation, content_w: u32, content_h: u32) -> (c: (i32, i32))
    requires
        content_w <= i32::MAX,
        content_h <= i32::MAX,
        fits_i32(content_of_window(wx as int, wy as int, rotation, content_w as int, content_h as int).0),
        fits_i32(content_of_window(wx as int, wy as int, rotation, content_w as int, content_h as int).1),
    ensures
        (c.0 as int, c.1 as int) == content_of_window(
            wx as int,
            wy as int,
            rotation,
            content_w as int,
            content_h as int,
        ),
{
    match rotation {
        Rotation::Upright => (wx, wy),
        Rotation::Cw90 => (wy, content_h as i32 - 1 - wx),
        Rotation::Cw180 => (content_w as i32 - 1 - wx, content_h as i32 - 1 - wy),
        Rotation::Cw270 => (content_w as i32 - 1 - wy, wx),
    }
}

/// The window size for content of `width` by `height` shown with `rotation`: a quarter
/// turn swaps the sides.
pub fn window_size(rotation: Rotation, width: u32, height: u32) -> (r: (u32, u32))
    ensures
        r == match rotation {
            Rotation::Cw90 | Rotation::Cw270 => (height, width),
            _ => (width, height),
        },
{
    match rotation {
        Rotation::Cw90 | Rotation::Cw270 => (height, width),
        _ => (width, height),
    }
}

/// Transform a mouse movement from window space to content space.
pub fn transform_mouse_delta(dx: i32, dy: i32, rotation: Rotation) -> (d: (i32, i32))
    requires
        fits_i32(content_delta(dx as int, dy as int, rotation).0),
        fits_i32(content_delta(dx as int, dy as int, rotation).1),
    ensures
        (d.0 as int, d.1 as int) == content_delta(dx as int, dy as int, rotation),
{
    match rotation {
        Rotation::Upright => (dx, dy),
        Rotation::Cw90 => (dy, -dx),
        Rotation::Cw180 => (-dx, -dy),
        Rotation::Cw270 => (-dy, dx),
    }
}

/// `shown` is `content` turned as `rotation` says.
pub open spec fn is_rotation_of(content: &PixelBuffer, shown: &PixelBuffer, rotation: Rotation) -> bool {
    match rotation {
        Rotation::Upright => shown.spec_width() == content.spec_width() && shown.spec_height()
            == content.spec_height() && forall|x: int, y: int|
            shown.contains(x, y) ==> #[trigger] shown.rgba(x, y) == content.rgba(x, y),
        Rotation::Cw90 => is_rotated_90(content, shown),
        Rotation::Cw180 => is_rotated_180(content, shown),
        Rotation::Cw270 => is_rotated_270(content, shown),
    }
}

/// A mouse position inside the rotated window maps to a position inside the content,
/// and the pixel shown under the mouse is the content pixel at that position.
pub proof fn lemma_mouse_hits_shown_pixel(
    content: &PixelBuffer,
    shown: &PixelBuffer,
    rotation: Rotation,
    wx: int,
    wy: int,
)
    requires
        is_rotation_of(content, shown, rotation),
        shown.contains(wx, wy),
    ensures
        ({
            let c = content_of_window(
                wx,
                wy,
                rotation,
                content.spec_width() as int,
                content.spec_height() as int,
            );
            content.contains(c.0, c.1) && shown.rgba(wx, wy) == content.rgba(c.0, c.1)
        }),
{
}

/// Mapping the rendered position of a content point back through `content_of_window`
/// gives the content point again.
pub proof fn lemma_window_round_trip(x: int, y: int, rotation: Rotation, w: int, h: int)
    ensures
        ({
            let win = match rotation {
                Rotation::Upright => (x, y),
                Rotation::Cw90 => (h - 1 - y, x),
                Rotation::Cw180 => (w - 1 - x, h - 1 - y),
                Rotation::Cw270 => (y, w - 1 - x),
            };
            content_of_window(win.0, win.1, rotation, w, h) == (x, y)
        }),
{
}

/// Moving the mouse by `(dx, dy)` in the window moves the content position by the
/// transformed delta.
pub proof fn lemma_delta_consistent(wx: int, wy: int, dx: int, dy: int, rotation: Rotation, w: int, h: int)
    ensures
        ({
            let a = content_of_window(wx, wy, rotation, w, h);
            let b = content_of_window(wx + dx, wy + dy, rotation, w, h);
            let d = content_delta(dx, dy, rotation);
            b == (a.0 + d.0, a.1 + d.1)
        }),
{
}

} // verus!
