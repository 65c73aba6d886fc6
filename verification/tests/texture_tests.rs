use wallfacer::texture::{IndexedMipTexture, IndexedTexture, MipTexture, Texture};

fn gradient_texture(w: u32, h: u32) -> Texture {
    let mut t = Texture::new(w, h);
    for y in 0..h {
        for x in 0..w {
            t.set_pixel(x, y, (x * 16) as u8, (y * 16) as u8, (x + y) as u8, 255);
        }
    }
    t
}

#[test]
fn new_texture_is_transparent_black() {
    let t = Texture::new(4, 3);
    assert_eq!((t.width(), t.height()), (4, 3));
    for y in 0..3 {
        for x in 0..4 {
            assert_eq!(t.get_pixel_internal(x, y), (0, 0, 0));
        }
    }
}

#[test]
fn from_rgba_checks_the_length() {
    assert!(Texture::from_rgba(2, 2, vec![0; 15]).is_none());
    assert!(Texture::from_rgba(2, 2, vec![0; 17]).is_none());
    let t = Texture::from_rgba(2, 1, vec![1, 2, 3, 4, 5, 6, 7, 8]).unwrap();
    assert_eq!(t.get_pixel_internal(0, 0), (1, 2, 3));
    assert_eq!(t.get_pixel_internal(1, 0), (5, 6, 7));
}

#[test]
fn set_pixel_then_read_back() {
    let mut t = Texture::new(4, 4);
    t.set_pixel(2, 3, 10, 20, 30, 40);
    assert_eq!(t.get_pixel_internal(2, 3), (10, 20, 30));
    assert_eq!(t.get_pixel_internal(3, 2), (0, 0, 0));
    // out of range writes are ignored
    t.set_pixel(4, 0, 1, 1, 1, 1);
    t.set_pixel(0, 4, 1, 1, 1, 1);
    assert_eq!(t.get_pixel_internal(0, 0), (0, 0, 0));
}

#[test]
fn sample_texel_wraps_by_bitmask() {
    let t = gradient_texture(4, 4);
    assert_eq!(t.sample_texel(1, 3), (16, 48, 4));
    assert_eq!(t.sample_texel(5, -1), (16, 48, 4));
    assert_eq!(t.sample_texel(-3, 7), (16, 48, 4));
}

#[test]
fn checkerboard_tiles() {
    let red = (255, 0, 0);
    let blue = (0, 0, 255);
    let t = Texture::checkerboard(8, 2, red, blue);
    assert_eq!((t.width(), t.height()), (8, 8));
    assert_eq!(t.sample_texel(0, 0), red);
    assert_eq!(t.sample_texel(1, 1), red);
    assert_eq!(t.sample_texel(2, 0), blue);
    assert_eq!(t.sample_texel(0, 2), blue);
    assert_eq!(t.sample_texel(2, 2), red);
    assert_eq!(t.sample_texel(7, 4), blue);
}

#[test]
fn xor_pattern_levels() {
    let t = Texture::xor_pattern(16);
    assert_eq!(t.sample_texel(3, 5), (6, 6, 6));
    assert_eq!(t.sample_texel(15, 0), (15, 15, 15));
    let big = Texture::xor_pattern(512);
    assert_eq!(big.sample_texel(300, 2), (46, 46, 46));
}

#[test]
fn mip_chain_halves_down_to_one_texel() {
    let t = gradient_texture(4, 4);
    let m = MipTexture::from_texture(&t);
    assert_eq!(m.level_count(), 3);
    assert_eq!((m.level(0).width(), m.level(0).height()), (4, 4));
    assert_eq!((m.level(1).width(), m.level(1).height()), (2, 2));
    assert_eq!((m.level(2).width(), m.level(2).height()), (1, 1));
    // level 1 texel (1, 0) averages texels (2..4, 0..2) of level 0
    assert_eq!(m.level(1).get_pixel_internal(1, 0), ((32 + 48 + 32 + 48) / 4, (0 + 0 + 16 + 16) / 4, (2 + 3 + 3 + 4) / 4));
    // levels past the end give the last one
    assert_eq!(m.level(9).width(), 1);
    assert_eq!(m.sample_mipped(5, 5, 0), m.level(0).sample_texel(5, 5));
    assert_eq!(m.sample_mipped(6, 2, 1), m.level(1).sample_texel(3, 1));
    assert_eq!(m.sample_mipped(6, 2, 7), m.level(2).sample_texel(0, 0));
}

#[test]
fn indexed_texture_from_red_channel() {
    let t = gradient_texture(4, 4);
    let i = IndexedTexture::from_grayscale(&t);
    assert_eq!((i.width(), i.height()), (4, 4));
    assert_eq!(i.sample_index(3, 0), 48);
    assert_eq!(i.sample_index(-1, 2), 48);
}

#[test]
fn indexed_set_and_sample() {
    let mut i = IndexedTexture::new(4, 2);
    i.set_index(1, 1, 9);
    i.set_index(4, 1, 7);
    assert_eq!(i.sample_index(1, 1), 9);
    assert_eq!(i.sample_index(5, 3), 9);
    assert_eq!(i.sample_index(0, 0), 0);
}

#[test]
fn indexed_mip_chain() {
    let t = gradient_texture(8, 4);
    let m = IndexedMipTexture::from_grayscale(&t);
    // 8x4 -> 4x2 -> 2x1
    assert_eq!(m.level_count(), 3);
    assert_eq!(m.sample_index_mipped(2, 0, 0), 32);
    // level 1 texel (1, 0) averages reds 32, 48, 32, 48
    assert_eq!(m.sample_index_mipped(2, 0, 1), 40);
    let direct = IndexedMipTexture::from_indexed(&IndexedTexture::from_grayscale(&t));
    for lvl in 0..4 {
        for y in 0..4 {
            for x in 0..8 {
                assert_eq!(m.sample_index_mipped(x, y, lvl), direct.sample_index_mipped(x, y, lvl));
            }
        }
    }
}

#[test]
fn power_of_two_chains_have_one_plus_min_levels() {
    for (w, h, expected) in [(16u32, 4u32, 3usize), (4, 16, 3), (8, 8, 4), (1, 32, 1), (32, 2, 2)] {
        let t = gradient_texture(w, h);
        assert_eq!(MipTexture::from_texture(&t).level_count(), expected);
        assert_eq!(IndexedMipTexture::from_grayscale(&t).level_count(), expected);
    }
    // Levels past the last one clamp to it.
    let m = IndexedMipTexture::from_grayscale(&gradient_texture(8, 8));
    for lvl in 3..10 {
        assert_eq!(m.sample_index_mipped(5, 6, lvl), m.sample_index_mipped(5, 6, 3));
    }
}
