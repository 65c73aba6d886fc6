use wallfacer::color::{fire_palette, gray};

#[test]
fn gray_repeats_the_level() {
    assert_eq!(gray(0), (0, 0, 0));
    assert_eq!(gray(128), (128, 128, 128));
    assert_eq!(gray(255), (255, 255, 255));
}

fn fire_entry_f32(i: usize) -> (u8, u8, u8) {
    let t = i as f32 / 255.0;
    let r = (t * 3.0).min(1.0);
    let g = ((t - 0.33) * 3.0).clamp(0.0, 1.0);
    let b = ((t - 0.66) * 3.0).clamp(0.0, 1.0);
    ((r * 255.0) as u8, (g * 255.0) as u8, (b * 255.0) as u8)
}

#[test]
fn fire_palette_matches_the_float_ramps_everywhere() {
    let p = fire_palette();
    assert_eq!(p.len(), 256);
    for (i, c) in p.iter().enumerate() {
        assert_eq!(*c, fire_entry_f32(i), "entry {}", i);
    }
}

#[test]
fn fire_palette_endpoints() {
    let p = fire_palette();
    assert_eq!(p[0], (0, 0, 0));
    assert_eq!(p[255], (255, 255, 255));
    assert_eq!(p[50], (150, 0, 0));
    assert_eq!(p[128], (255, 131, 0));
}
