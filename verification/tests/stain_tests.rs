use wallfacer::pixel_buffer::PixelBuffer;
use wallfacer::stain::StainMap;

fn cells(m: &StainMap) -> Vec<u8> {
    let mut v = Vec::new();
    for y in 0..m.height() as i32 {
        for x in 0..m.width() as i32 {
            v.push(m.get(x, y));
        }
    }
    v
}

#[test]
fn deposits_saturate_and_clip() {
    let mut m = StainMap::new(3, 2);
    assert_eq!(cells(&m), vec![0; 6]);
    m.deposit(1, 1, 200);
    m.deposit(1, 1, 100);
    m.deposit(3, 0, 50);
    m.deposit(-1, 0, 50);
    assert_eq!(cells(&m), vec![0, 0, 0, 0, 255, 0]);
    assert_eq!(m.get(5, 5), 0);
}

#[test]
fn block_deposits_cover_the_neighbourhood() {
    let mut m = StainMap::new(4, 3);
    m.deposit_3x3(0, 0, 10);
    assert_eq!(cells(&m), vec![10, 10, 0, 0, 10, 10, 0, 0, 0, 0, 0, 0]);
    m.deposit_3x3(2, 1, 250);
    assert_eq!(cells(&m), vec![10, 255, 250, 250, 10, 255, 250, 250, 0, 250, 250, 250]);
}

#[test]
fn fading_scales_by_a_factor_out_of_256() {
    let mut m = StainMap::new(2, 1);
    m.deposit(0, 0, 200);
    m.deposit(1, 0, 1);
    m.fade(244);
    assert_eq!(cells(&m), vec![190, 0]);
    m.fade(256);
    assert_eq!(cells(&m), vec![190, 0]);
    m.fade(0);
    assert_eq!(cells(&m), vec![0, 0]);
}

#[test]
fn stains_glow_onto_a_buffer_of_the_same_size() {
    let mut m = StainMap::new(2, 1);
    m.deposit(0, 0, 100);
    m.deposit(1, 0, 2);
    let mut b = PixelBuffer::with_size(2, 1);
    b.clear(10, 10, 10);
    m.add_glow(&mut b, (2, 5), (1, 6), (3, 4));
    assert_eq!(b.get_pixel_rgba(0, 0), Some((50, 26, 85, 255)));
    assert_eq!(b.get_pixel_rgba(1, 0), Some((10, 10, 10, 255)));
    m.deposit(0, 0, 155);
    m.add_glow(&mut b, (2, 3), (1, 3), (1, 1));
    assert_eq!(b.get_pixel_rgba(0, 0), Some((220, 111, 255, 255)));
    let mut other = PixelBuffer::with_size(3, 1);
    m.add_glow(&mut other, (1, 1), (1, 1), (1, 1));
    assert_eq!(other.get_pixel_rgba(0, 0), Some((0, 0, 0, 0)));
}
