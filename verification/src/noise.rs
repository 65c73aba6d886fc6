//! Integer core of the lattice noise hash.

use vstd::prelude::*;

verus! {

/// The 15-bit hash of lattice point `(x, y, z)` under `seed`: wrapping multiply-add mixing
/// of the coordinates' two's-complement bits, then two xor-shift rounds, keeping the low
/// 15 bits.
pub open spec fn noise_hash_spec(x: i32, y: i32, z: i32, seed: u32) -> u32 {
    let h1 = vstd::wrapping::u32_specs::wrapping_mul(
        vstd::wrapping::u32_specs::wrapping_add(seed, x as u32),
        374761393u32,
    );
    let h2 = vstd::wrapping::u32_specs::wrapping_mul(
        vstd::wrapping::u32_specs::wrapping_add(h1, y as u32),
        668265263u32,
    );
    let h3 = vstd::wrapping::u32_specs::wrapping_mul(
        vstd::wrapping::u32_specs::wrapping_add(h2, z as u32),
        2147483647u32,
    );
    let h4 = vstd::wrapping::u32_specs::wrapping_mul(h3 ^ (h3 >> 13u32), 1274126177u32);
    let h5 = h4 ^ (h4 >> 16u32);
    h5 & 0x7fffu32
}

/// Hash-based pseudo-random value for integer grid coordinates, in `0..0x7fff`: the
/// 15-bit hash modulo `0x7fff` (the one value `0x7fff` wraps to `0`). Dividing by `0x7fff`
/// gives the noise value in `[0, 1)`.
pub fn noise_hash_bits(x: i32, y: i32, z: i32, seed: u32) -> (h: u32)
    ensures
        h == noise_hash_spec(x, y, z, seed) % 0x7fff,
        h < 0x7fff,
{
    let mut h = seed.wrapping_add(x as u32).wrapping_mul(374761393);
    h = h.wrapping_add(y as u32).wrapping_mul(668265263);
    h = h.wrapping_add(z as u32).wrapping_mul(2147483647);
    h = (h ^ (h >> 13u32)).wrapping_mul(1274126177);
    h = h ^ (h >> 16u32);
    let r = h & 0x7fff;
    assert(r <= 0x7fff) by (bit_vector)
        requires
            r == h & 0x7fff,
    ;
    r % 0x7fff
}

/// 2D version of the lattice hash (the `z = 0` plane).
pub fn noise_hash_bits_2d(x: i32, y: i32, seed: u32) -> (h: u32)
    ensures
        h == noise_hash_spec(x, y, 0, seed) % 0x7fff,
        h < 0x7fff,
{
    noise_hash_bits(x, y, 0, seed)
}

/// The lattice hash of the ink flow field: like `noise_hash_spec` but with the `z`
/// multiplier `1274126177` and a final multiply by `1103515245` between the xor-shifts.
pub open spec fn ink_hash_spec(x: i32, y: i32, z: i32, seed: u32) -> u32 {
    let h1 = vstd::wrapping::u32_specs::wrapping_mul(
        vstd::wrapping::u32_specs::wrapping_add(seed, x as u32),
        374761393u32,
    );
    let h2 = vstd::wrapping::u32_specs::wrapping_mul(
        vstd::wrapping::u32_specs::wrapping_add(h1, y as u32),
        668265263u32,
    );
    let h3 = vstd::wrapping::u32_specs::wrapping_mul(
        vstd::wrapping::u32_specs::wrapping_add(h2, z as u32),
        1274126177u32,
    );
    let h4 = vstd::wrapping::u32_specs::wrapping_mul(h3 ^ (h3 >> 13u32), 1103515245u32);
    let h5 = h4 ^ (h4 >> 16u32);
    h5 & 0x7fffu32
}

/// The ink flow field's 15-bit lattice hash, in `0..=0x7fff`.
pub fn ink_hash_bits(x: i32, y: i32, z: i32, seed: u32) -> (h: u32)
    ensures
        h == ink_hash_spec(x, y, z, seed),
        h <= 0x7fff,
{
    let mut h = seed.wrapping_add(x as u32).wrapping_mul(374761393);
    h = h.wrapping_add(y as u32).wrapping_mul(668265263);
    h = h.wrapping_add(z as u32).wrapping_mul(1274126177);
    h = (h ^ (h >> 13u32)).wrapping_mul(1103515245);
    h = h ^ (h >> 16u32);
    let r = h & 0x7fff;
    assert(r <= 0x7fff) by (bit_vector)
        requires
            r == h & 0x7fff,
    ;
    r
}

} // verus!
