use wallfacer::cursor::draw_software_cursor;
use wallfacer::pixel_buffer::PixelBuffer;
use wallfacer::regions::scene_fingerprint;
use wallfacer::rotation::{window_size, Rotation};
use wallfacer::util::{xorshift64, Rng};

#[test]
fn bare_xorshift_matches_the_generator() {
    let mut state = 1u64;
    let mut r = Rng::new(1);
    for _ in 0..5 {
        let v = xorshift64(&mut state);
        assert_eq!(v, state);
        assert_eq!(v, r.next_u64());
    }
}

#[test]
fn window_size_swaps_for_quarter_turns() {
    assert_eq!(window_size(Rotation::Upright, 640, 480), (640, 480));
    assert_eq!(window_size(Rotation::Cw90, 640, 480), (480, 640));
    assert_eq!(window_size(Rotation::Cw180, 640, 480), (640, 480));
    assert_eq!(window_size(Rotation::Cw270, 640, 480), (480, 640));
}

#[test]
fn fingerprint_mixes_counts_and_bounds() {
    assert_eq!(scene_fingerprint(0, &[]), 0);
    assert_eq!(scene_fingerprint(5, &[]), 5);
    assert_eq!(scene_fingerprint(2, &[1, 2, 3, 4]), 1_878_852);
    assert_eq!(
        scene_fingerprint(
            3,
            &[0x3f80_0000, 0x4000_0000, 0x42c8_0000, 0x4348_0000, u32::MAX, u32::MAX, u32::MAX, u32::MAX]
        ),
        11_850_111_109_099_738_307
    );
}

#[test]
fn cursor_is_a_white_arrow_with_black_outline() {
    let mut b = PixelBuffer::with_size(20, 20);
    b.clear_rgba(1, 2, 3, 4);
    draw_software_cursor(&mut b, 5, 5);
    let px = |x: i32, y: i32| b.get_pixel_rgba(x, y).unwrap();
    // hot spot and arrow body
    assert_eq!(px(5, 5), (255, 255, 255, 255));
    assert_eq!(px(5, 14), (255, 255, 255, 255));
    assert_eq!(px(13, 13), (255, 255, 255, 255));
    // outline pixels
    assert_eq!(px(4, 5), (0, 0, 0, 255));
    assert_eq!(px(5, 4), (0, 0, 0, 255));
    assert_eq!(px(5, 15), (0, 0, 0, 255));
    assert_eq!(px(14, 13), (0, 0, 0, 255));
    // column 3 of the arrow starts at row 3: (8, 8) is white, (8, 7) above it is outline
    assert_eq!(px(8, 8), (255, 255, 255, 255));
    assert_eq!(px(8, 7), (0, 0, 0, 255));
    // untouched
    assert_eq!(px(0, 0), (1, 2, 3, 4));
    assert_eq!(px(15, 5), (1, 2, 3, 4));
    let white = (0..20).flat_map(|y| (0..20).map(move |x| (x, y))).filter(|&(x, y)| px(x, y) == (255, 255, 255, 255)).count();
    assert_eq!(white, 43);
}

#[test]
fn cursor_is_clipped_at_the_edges() {
    let mut b = PixelBuffer::with_size(4, 4);
    draw_software_cursor(&mut b, 2, 2);
    assert_eq!(b.get_pixel_rgba(2, 2), Some((255, 255, 255, 255)));
    assert_eq!(b.get_pixel_rgba(1, 2), Some((0, 0, 0, 255)));
    assert_eq!(b.get_pixel_rgba(3, 2), Some((0, 0, 0, 255)));
    assert_eq!(b.get_pixel_rgba(3, 3), Some((255, 255, 255, 255)));
    assert_eq!(b.get_pixel_rgba(0, 0), Some((0, 0, 0, 0)));
}
