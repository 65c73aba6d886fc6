//! Scene fingerprints: effects that precompute data from the calibrated regions notice a
//! changed scene by a hash of the regions' coordinates (their bit patterns).

use vstd::prelude::*;

verus! {

/// One mixing step: `h * 31 + v`, wrapping.
pub open spec fn mix(h: u64, v: u32) -> u64 {
    vstd::wrapping::u64_specs::wrapping_add(vstd::wrapping::u64_specs::wrapping_mul(h, 31u64), v as u64)
}

/// The fingerprint after mixing in the values from first to last, starting from `h`.
pub open spec fn fingerprint_fold(h: u64, values: Seq<u32>) -> u64
    decreases values.len(),
{
    if values.len() == 0 {
        h
    } else {
        mix(fingerprint_fold(h, values.drop_last()), values.last())
    }
}

/// Fingerprint of a scene with `region_count` regions: start from the count and mix in
/// the coordinate bit patterns in order (each region's bounding box, or its vertices).
pub fn scene_fingerprint(region_count: usize, values: &[u32]) -> (h: u64)
    ensures
        h == fingerprint_fold(region_count as u64, values@),
{
    let mut h: u64 = region_count as u64;
    let mut i: usize = 0;
    while i < values.len()
        invariant
            i <= values@.len(),
            h == fingerprint_fold(region_count as u64, values@.subrange(0, i as int)),
        decreases values@.len() - i,
    {
        h = h.wrapping_mul(31).wrapping_add(values[i] as u64);
        proof {
            assert(values@.subrange(0, i + 1).drop_last() =~= values@.subrange(0, i as int));
        }
        i = i + 1;
    }
    proof {
        assert(values@.subrange(0, values@.len() as int) =~= values@);
    }
    h
}

} // verus!
