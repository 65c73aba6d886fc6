use wallfacer::pixel_buffer::{blend_channel, BlendMode, PixelBuffer};

fn px(b: &PixelBuffer, x: i32, y: i32) -> (u8, u8, u8, u8) {
    b.get_pixel_rgba(x, y).unwrap()
}

#[test]
fn new_buffer_has_default_size_and_is_zero() {
    let b = PixelBuffer::new();
    assert_eq!(b.width(), 640);
    assert_eq!(b.height(), 480);
    assert_eq!(b.as_bytes().len(), 640 * 480 * 4);
    assert!(b.as_bytes().iter().all(|&v| v == 0));
}

#[test]
fn set_then_get_returns_written_colour() {
    let mut b = PixelBuffer::with_size(8, 6);
    b.set_pixel(3, 2, 10, 20, 30);
    assert_eq!(b.get_pixel(3, 2), Some((10, 20, 30)));
    assert_eq!(px(&b, 3, 2), (10, 20, 30, 255));
    // byte order is A, B, G, R
    let i = (2 * 8 + 3) * 4;
    assert_eq!(&b.as_bytes()[i..i + 4], &[255, 30, 20, 10]);
    assert_eq!(b.get_pixel(2, 2), Some((0, 0, 0)));
}

#[test]
fn out_of_bounds_access_is_ignored() {
    let mut b = PixelBuffer::with_size(4, 4);
    b.set_pixel(-1, 0, 1, 2, 3);
    b.set_pixel(4, 0, 1, 2, 3);
    b.set_pixel_rgba(0, 4, 1, 2, 3, 4);
    assert!(b.as_bytes().iter().all(|&v| v == 0));
    assert_eq!(b.get_pixel(-1, 0), None);
    assert_eq!(b.get_pixel_rgba(0, 4), None);
}

#[test]
fn set_pixel_rgba_keeps_alpha() {
    let mut b = PixelBuffer::with_size(2, 2);
    b.set_pixel_rgba(1, 1, 9, 8, 7, 6);
    assert_eq!(px(&b, 1, 1), (9, 8, 7, 6));
}

#[test]
fn blend_channel_formula() {
    assert_eq!(blend_channel(200, 100, 255), 200);
    assert_eq!(blend_channel(200, 100, 0), 100);
    // t = 200*128 + 100*127 = 38300; (38300 + 1 + 149) >> 8 = 150
    assert_eq!(blend_channel(200, 100, 128), 150);
}

#[test]
fn blend_pixel_blends_and_makes_opaque() {
    let mut b = PixelBuffer::with_size(2, 1);
    b.set_pixel_rgba(0, 0, 100, 100, 100, 0);
    b.blend_pixel(0, 0, 200, 0, 255, 128);
    // t = 0*128 + 100*127 = 12700 -> (12700 + 1 + 49) >> 8 = 49
    assert_eq!(px(&b, 0, 0), (150, 49, 177, 255));
}

#[test]
fn additive_saturates_and_keeps_alpha() {
    let mut b = PixelBuffer::with_size(1, 1);
    b.set_pixel_rgba(0, 0, 200, 10, 0, 7);
    b.blend_pixel_additive(0, 0, 100, 10, 5);
    assert_eq!(px(&b, 0, 0), (255, 20, 5, 7));
}

#[test]
fn clear_fills_every_pixel() {
    let mut b = PixelBuffer::with_size(3, 2);
    b.clear(1, 2, 3);
    for y in 0..2 {
        for x in 0..3 {
            assert_eq!(px(&b, x, y), (1, 2, 3, 255));
        }
    }
    b.clear_rgba(4, 5, 6, 7);
    assert_eq!(px(&b, 2, 1), (4, 5, 6, 7));
}

#[test]
fn hline_is_clipped_and_order_independent() {
    let mut b = PixelBuffer::with_size(5, 3);
    b.hline(7, -2, 1, 9, 9, 9);
    for x in 0..5 {
        assert_eq!(px(&b, x, 1), (9, 9, 9, 255));
        assert_eq!(px(&b, x, 0), (0, 0, 0, 0));
    }
    let mut c = PixelBuffer::with_size(5, 3);
    c.hline(1, 3, 5, 9, 9, 9);
    assert!(c.as_bytes().iter().all(|&v| v == 0));
}

#[test]
fn vline_blend_and_additive() {
    let mut b = PixelBuffer::with_size(3, 4);
    b.vline(1, 3, 1, 10, 10, 10);
    assert_eq!(px(&b, 1, 0), (0, 0, 0, 0));
    assert_eq!(px(&b, 1, 1), (10, 10, 10, 255));
    assert_eq!(px(&b, 1, 3), (10, 10, 10, 255));
    b.vline_additive(1, 0, 3, 250, 0, 0);
    assert_eq!(px(&b, 1, 2), (255, 10, 10, 255));
    assert_eq!(px(&b, 1, 0), (250, 0, 0, 0));
    b.vline_blend(0, 0, 0, 255, 255, 255, 255);
    assert_eq!(px(&b, 0, 0), (255, 255, 255, 255));
    b.hline_blend(2, 2, 3, 100, 100, 100, 0);
    assert_eq!(px(&b, 2, 3), (0, 0, 0, 255));
    b.hline_additive(0, 2, 3, 1, 1, 1);
    assert_eq!(px(&b, 2, 3), (1, 1, 1, 255));
}

#[test]
fn fill_rect_covers_exact_area() {
    let mut b = PixelBuffer::with_size(6, 6);
    b.fill_rect(1, 2, 3, 2, 5, 5, 5);
    for y in 0..6 {
        for x in 0..6 {
            let inside = (1..4).contains(&x) && (2..4).contains(&y);
            let want = if inside { (5, 5, 5, 255) } else { (0, 0, 0, 0) };
            assert_eq!(px(&b, x, y), want, "at {},{}", x, y);
        }
    }
}

#[test]
fn fill_rect_zero_width_draws_two_columns() {
    let mut b = PixelBuffer::with_size(6, 2);
    b.fill_rect(3, 0, 0, 1, 7, 7, 7);
    assert_eq!(px(&b, 2, 0), (7, 7, 7, 255));
    assert_eq!(px(&b, 3, 0), (7, 7, 7, 255));
    assert_eq!(px(&b, 4, 0), (0, 0, 0, 0));
}

#[test]
fn line_draws_bresenham_points_with_clipping() {
    let mut b = PixelBuffer::with_size(10, 10);
    b.line(0, 0, 4, 2, 1, 1, 1);
    let lit: Vec<(i32, i32)> = (0..10)
        .flat_map(|y| (0..10).map(move |x| (x, y)))
        .filter(|&(x, y)| b.get_pixel(x, y) == Some((1, 1, 1)))
        .collect();
    assert_eq!(lit, vec![(0, 0), (1, 1), (2, 1), (3, 2), (4, 2)]);
    let mut c = PixelBuffer::with_size(10, 10);
    c.line(-5, 3, 20, 3, 2, 2, 2);
    for x in 0..10 {
        assert_eq!(c.get_pixel(x, 3), Some((2, 2, 2)));
    }
    let mut d = PixelBuffer::with_size(10, 10);
    d.line(-5, -5, -1, -1, 2, 2, 2);
    assert!(d.as_bytes().iter().all(|&v| v == 0));
}

#[test]
fn fill_circle_small_radius() {
    let mut b = PixelBuffer::with_size(7, 7);
    b.fill_circle(3, 3, 1, 4, 4, 4);
    let lit: Vec<(i32, i32)> = (0..7)
        .flat_map(|y| (0..7).map(move |x| (x, y)))
        .filter(|&(x, y)| b.get_pixel(x, y) == Some((4, 4, 4)))
        .collect();
    // the midpoint fill of radius 1 draws the centre row and the row below only
    assert_eq!(lit, vec![(2, 3), (3, 3), (4, 3), (3, 4)]);
    let mut c = PixelBuffer::with_size(3, 3);
    c.fill_circle(1, 1, 0, 4, 4, 4);
    assert_eq!(c.get_pixel(1, 1), Some((4, 4, 4)));
    c.fill_circle(1, 1, -1, 9, 9, 9);
    assert_eq!(c.get_pixel(1, 1), Some((4, 4, 4)));
}

#[test]
fn draw_circle_outline_points() {
    let mut b = PixelBuffer::with_size(9, 9);
    b.draw_circle(4, 4, 2, 3, 3, 3);
    assert_eq!(b.get_pixel(6, 4), Some((3, 3, 3)));
    assert_eq!(b.get_pixel(2, 4), Some((3, 3, 3)));
    assert_eq!(b.get_pixel(4, 6), Some((3, 3, 3)));
    assert_eq!(b.get_pixel(4, 2), Some((3, 3, 3)));
    assert_eq!(b.get_pixel(4, 4), Some((0, 0, 0)));
}

#[test]
fn fill_circle_blend_blends_overlapping_spans_repeatedly() {
    let mut b = PixelBuffer::with_size(7, 7);
    b.fill_circle_blend(3, 3, 2, 255, 255, 255, 128);
    let p = b.get_pixel(3, 3).unwrap();
    assert!(p.0 > 0);
    let outside = b.get_pixel(0, 0).unwrap();
    assert_eq!(outside, (0, 0, 0));
}

#[test]
fn blit_and_composite_modes() {
    let mut src = PixelBuffer::with_size(2, 1);
    src.set_pixel_rgba(0, 0, 200, 100, 50, 255);
    src.set_pixel_rgba(1, 0, 200, 100, 50, 0);
    let mut dst = PixelBuffer::with_size(3, 1);
    dst.clear(10, 10, 10);
    dst.composite(&src, 1, 0, BlendMode::Alpha);
    assert_eq!(px(&dst, 1, 0), (200, 100, 50, 255));
    assert_eq!(px(&dst, 2, 0), (10, 10, 10, 255));

    let mut add = PixelBuffer::with_size(1, 1);
    add.clear(10, 10, 10);
    let mut s2 = PixelBuffer::with_size(1, 1);
    s2.set_pixel_rgba(0, 0, 255, 128, 0, 128);
    add.composite_full(&s2, BlendMode::Additive);
    // (255*128+127)/255 = 128, (128*128+127)/255 = 64
    assert_eq!(px(&add, 0, 0), (138, 74, 10, 255));

    let mut mul = PixelBuffer::with_size(1, 1);
    mul.clear(200, 200, 200);
    let mut s3 = PixelBuffer::with_size(1, 1);
    s3.set_pixel_rgba(0, 0, 0, 255, 128, 255);
    mul.composite_full(&s3, BlendMode::Multiply);
    // multiply: 200*0/255=0, 200*255/255=200, 200*128/255=100; blended at alpha 255
    assert_eq!(px(&mul, 0, 0), (0, 200, 100, 255));

    let mut d = PixelBuffer::with_size(2, 2);
    d.blit(&src, -1, 1);
    assert_eq!(px(&d, 0, 1), (200, 100, 50, 255));
    d.blit_blend(&src, 1, 0, 0);
    assert_eq!(px(&d, 1, 0), (0, 0, 0, 255));
}

#[test]
fn fade_and_shade_map() {
    let mut b = PixelBuffer::with_size(2, 1);
    b.set_pixel_rgba(0, 0, 200, 100, 1, 9);
    b.fade_by(128);
    assert_eq!(px(&b, 0, 0), (100, 50, 0, 9));
    b.apply_shade_map(&[512, 0]);
    assert_eq!(px(&b, 0, 0), (200, 100, 0, 9));
    b.set_pixel(1, 0, 200, 200, 200);
    b.apply_shade_map(&[256, 384]);
    // 200 * 384 >> 8 = 300, keeps the low 8 bits: 44
    assert_eq!(px(&b, 1, 0), (44, 44, 44, 255));
}

#[test]
fn copy_scroll_and_rotations() {
    let mut a = PixelBuffer::with_size(3, 2);
    a.set_pixel(0, 0, 1, 0, 0);
    a.set_pixel(2, 1, 2, 0, 0);
    let r90 = a.rotated_90();
    assert_eq!((r90.width(), r90.height()), (2, 3));
    assert_eq!(r90.get_pixel(1, 0), Some((1, 0, 0)));
    assert_eq!(r90.get_pixel(0, 2), Some((2, 0, 0)));
    let back = r90.rotated_270();
    assert_eq!(back.as_bytes(), a.as_bytes());
    let twice = a.rotated_180().rotated_180();
    assert_eq!(twice.as_bytes(), a.as_bytes());
    assert_eq!(a.rotated_90().rotated_90().as_bytes(), a.rotated_180().as_bytes());

    let mut c = PixelBuffer::with_size(3, 2);
    c.copy_from(&a);
    assert_eq!(c.as_bytes(), a.as_bytes());
    let mut s = PixelBuffer::with_size(3, 2);
    s.scroll_from(&a, 1, 0);
    assert_eq!(s.get_pixel(1, 0), Some((1, 0, 0)));
    assert_eq!(px(&s, 0, 0), (0, 0, 0, 255));
    let mut t = PixelBuffer::with_size(3, 2);
    t.copy_from(&a);
    #[allow(deprecated)]
    t.scroll(-2, -1);
    assert_eq!(t.get_pixel(0, 0), Some((2, 0, 0)));
}

#[test]
fn box_blur_averages_with_clamped_edges() {
    let mut b = PixelBuffer::with_size(3, 1);
    b.set_pixel(0, 0, 90, 0, 0);
    b.box_blur(1);
    // horizontal window over [clamp(-1), 0, 1] = 90, 90, 0 -> 60; then vertical over one row
    assert_eq!(px(&b, 0, 0), (60, 0, 0, 255));
    assert_eq!(px(&b, 1, 0), (30, 0, 0, 255));
    assert_eq!(px(&b, 2, 0), (0, 0, 0, 255));
    let mut c = PixelBuffer::with_size(2, 2);
    c.set_pixel_rgba(0, 0, 1, 2, 3, 4);
    let before = c.as_bytes().to_vec();
    c.box_blur(0);
    assert_eq!(c.as_bytes(), &before[..]);
}

#[test]
fn bloom_adds_glow_of_bright_pixels() {
    let mut b = PixelBuffer::with_size(3, 1);
    b.set_pixel(1, 0, 240, 240, 240);
    b.bloom_scaled(200, 0, 256);
    assert_eq!(b.get_pixel(1, 0), Some((255, 255, 255)));
    assert_eq!(b.get_pixel(0, 0), Some((0, 0, 0)));
    let mut c = PixelBuffer::with_size(3, 1);
    c.set_pixel(1, 0, 100, 100, 100);
    c.bloom_scaled(200, 1, 256);
    assert_eq!(c.get_pixel(1, 0), Some((100, 100, 100)));
}

#[test]
fn uniform_picture_is_a_fixed_point_of_the_blur() {
    let mut b = PixelBuffer::with_size(5, 3);
    b.clear_rgba(40, 90, 200, 7);
    for radius in [1u32, 2, 7] {
        let mut c = PixelBuffer::with_size(5, 3);
        c.copy_from(&b);
        c.box_blur(radius);
        for y in 0..3 {
            for x in 0..5 {
                assert_eq!(px(&c, x, y), (40, 90, 200, 255));
            }
        }
    }
}

#[test]
fn dark_picture_blurs_with_a_radius_past_the_bright_bound() {
    let mut b = PixelBuffer::with_size(1, 1);
    b.clear_rgba(3, 1, 2, 9);
    b.box_blur(9_000_000);
    assert_eq!(px(&b, 0, 0), (3, 1, 2, 255));
}

#[test]
fn a_line_inside_the_buffer_plots_max_axis_plus_one_connected_pixels() {
    for &(x0, y0, x1, y1) in &[(1, 1, 8, 4), (9, 0, 2, 6), (3, 7, 3, 0), (0, 5, 9, 5), (4, 4, 4, 4)] {
        let mut b = PixelBuffer::with_size(10, 8);
        b.line(x0, y0, x1, y1, 255, 0, 0);
        let mut lit = Vec::new();
        for y in 0..8 {
            for x in 0..10 {
                if px(&b, x, y).0 == 255 {
                    lit.push((x, y));
                }
            }
        }
        let expected = (x1 - x0).abs().max((y1 - y0).abs()) as usize + 1;
        assert_eq!(lit.len(), expected);
        assert!(lit.contains(&(x0, y0)) && lit.contains(&(x1, y1)));
        // Every lit pixel other than an end has a lit neighbour on each side of the walk.
        for &(x, y) in &lit {
            let neighbours = lit
                .iter()
                .filter(|&&(u, v)| (u, v) != (x, y) && (u - x).abs() <= 1 && (v - y).abs() <= 1)
                .count();
            assert!(expected == 1 || neighbours >= 1);
        }
    }
}
