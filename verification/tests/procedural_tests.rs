use wallfacer::procedural::{build_brick_texture, build_palette_2d, build_wall_texture, BRICK_TEX_SIZE, WALL_TEX_SIZE};

fn brick_f32(x: u32, y: u32) -> (u8, u8, u8) {
    let row = y / 8;
    let offset = if row % 2 == 0 { 0 } else { 8 };
    let bx = (x + offset) % 16;
    let by = y % 8;
    if bx < 1 || by < 1 {
        (40, 38, 35)
    } else {
        let brick_id = ((y / 8) * 13 + ((x + offset) / 16) * 29) & 0xFF;
        let base = 130 + (brick_id & 0x3F) as u16;
        let v = base.min(255) as u8;
        (v, (v as f32 * 0.75) as u8, (v as f32 * 0.55) as u8)
    }
}

#[test]
fn brick_texture_matches_the_float_tint() {
    let t = build_brick_texture();
    assert_eq!((t.width(), t.height()), (BRICK_TEX_SIZE, BRICK_TEX_SIZE));
    for y in 0..BRICK_TEX_SIZE {
        for x in 0..BRICK_TEX_SIZE {
            assert_eq!(t.get_pixel_internal(x, y), brick_f32(x, y), "texel {} {}", x, y);
        }
    }
}

#[test]
fn wall_texture_mortar_and_bricks() {
    let t = build_wall_texture();
    assert_eq!((t.width(), t.height()), (WALL_TEX_SIZE, WALL_TEX_SIZE));
    assert_eq!(t.get_pixel_internal(0, 0), (40, 40, 40));
    assert_eq!(t.get_pixel_internal(10, 2), (40, 40, 40));
    // brick 0 centre: base 130, no edge dimming
    assert_eq!(t.get_pixel_internal(32, 16), (130, 130, 130));
    // (10, 10): |10 - 32| / 8 + |10 - 16| / 4 = 2 + 1
    assert_eq!(t.get_pixel_internal(10, 10), (127, 127, 127));
    // second brick row is shifted by half a brick: (0, 40) lies in brick (id 17)
    assert_eq!(t.get_pixel_internal(0, 40), (145, 145, 145));
}

#[test]
fn palette_2d_scales_each_base_by_luminance() {
    let bases = [(255u8, 128u8, 0u8), (10, 20, 30)];
    let p = build_palette_2d(&bases);
    assert_eq!(p.len(), 512);
    assert_eq!(p[0], (0, 0, 0));
    assert_eq!(p[255], (254, 127, 0));
    assert_eq!(p[128], (127, 64, 0));
    assert_eq!(p[256 + 200], (7, 15, 23));
    assert!(build_palette_2d(&[]).is_empty());
}
