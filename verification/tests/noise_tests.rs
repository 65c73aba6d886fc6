use wallfacer::noise::{ink_hash_bits, noise_hash_bits, noise_hash_bits_2d};

fn noise_hash(x: i32, y: i32, z: i32, seed: u32) -> f32 {
    noise_hash_bits(x, y, z, seed) as f32 / 0x7fff as f32
}

#[test]
fn test_noise_hash_deterministic() {
    let v1 = noise_hash(10, 20, 30, 42);
    let v2 = noise_hash(10, 20, 30, 42);
    assert_eq!(v1, v2);
}

#[test]
fn test_noise_hash_range() {
    for x in -10..10 {
        for y in -10..10 {
            let v = noise_hash(x, y, 0, 12345);
            assert!(v >= 0.0 && v < 1.0);
        }
    }
}

#[test]
fn noise_hash_exact_values() {
    assert_eq!(noise_hash_bits(10, 20, 30, 42), 2465);
    assert_eq!(noise_hash_bits(0, 0, 0, 0), 0);
    assert_eq!(noise_hash_bits(1, 2, 3, 4), 32199);
    assert_eq!(noise_hash_bits(-5, 7, 0, 99), 3408);
}

#[test]
fn noise_hash_2d_is_the_z_zero_plane() {
    for x in -4..4 {
        for y in -4..4 {
            assert_eq!(noise_hash_bits_2d(x, y, 77), noise_hash_bits(x, y, 0, 77));
        }
    }
}

#[test]
fn noise_hash_stays_below_one() {
    for x in -20..20 {
        assert!(noise_hash_bits(x, x * 3, -x, 0xFFFF_FFFF) < 0x7fff);
    }
    // The raw 15-bit hash of the origin under seed 4438 is 0x7fff; it wraps to 0.
    assert_eq!(noise_hash_bits(0, 0, 0, 4438), 0);
    assert!(noise_hash(0, 0, 0, 4438) < 1.0);
}

#[test]
fn ink_hash_exact_values() {
    assert_eq!(ink_hash_bits(1, 2, 3, 42), 22722);
    assert_eq!(ink_hash_bits(0, 0, 0, 0), 0);
    assert_eq!(ink_hash_bits(-7, 5, 9, 99), 19674);
    assert_ne!(ink_hash_bits(1, 2, 3, 42), noise_hash_bits(1, 2, 3, 42));
}
