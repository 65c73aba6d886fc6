//! The integer half of scanline polygon filling: a row's edge crossings are sorted and
//! the spans between consecutive pairs are painted.

use vstd::prelude::*;
use crate::pixel_buffer::{PixelBuffer, on_hspan};

verus! {

broadcast use vstd::seq_lib::group_to_multiset_ensures;

/// `s` is in ascending order.
pub open spec fn sorted_asc(s: Seq<i32>) -> bool {
    forall|i: int, j: int| 0 <= i <= j < s.len() ==> s[i] <= s[j]
}

/// Whether `(x, y)` lies on one of the first `n` spans: span `k` runs on row `row` between
/// crossings `2k` and `2k + 1`.
pub open spec fn on_pair_spans(s: Seq<i32>, n: int, x: int, y: int, row: int) -> bool
    decreases n,
{
    if n <= 0 {
        false
    } else {
        on_pair_spans(s, n - 1, x, y, row) || on_hspan(x, y, s[2 * (n - 1)] as int, s[2 * (n - 1) + 1] as int, row)
    }
}

/// Sort the crossings in ascending order (the same values, rearranged).
pub fn sort_crossings(xs: &mut Vec<i32>)
    ensures
        sorted_asc(final(xs)@),
        final(xs)@.to_multiset() == old(xs)@.to_multiset(),
{
    let mut sorted: Vec<i32> = Vec::new();
    let mut i: usize = 0;
    while i < xs.len()
        invariant
            i <= xs@.len(),
            xs@ == old(xs)@,
            sorted_asc(sorted@),
            sorted@.to_multiset() == xs@.subrange(0, i as int).to_multiset(),
        decreases xs@.len() - i,
    {
        let v = xs[i];
        let mut pos: usize = 0;
        while pos < sorted.len() && sorted[pos] <= v
            invariant
                pos <= sorted@.len(),
                forall|j: int| 0 <= j < pos ==> sorted@[j] <= v,
            decreases sorted@.len() - pos,
        {
            pos = pos + 1;
        }
        let ghost before = sorted@;
        sorted.insert(pos, v);
        proof {
            assert(sorted@ == before.insert(pos as int, v));
            vstd::seq_lib::to_multiset_insert(before, pos as int, v);
            assert(xs@.subrange(0, i + 1) =~= xs@.subrange(0, i as int).push(v));
            vstd::seq_lib::to_multiset_build(xs@.subrange(0, i as int), v);
            assert forall|a: int, b: int| 0 <= a <= b < sorted@.len() implies sorted@[a] <= sorted@[b] by {
                if a < pos && b > pos {
                    assert(before[a] <= v);
                    if pos < before.len() {
                        assert(before[pos as int] > v);
                        assert(before[pos as int] <= before[b - 1]);
                    }
                } else if a == pos && b > pos {
                    assert(before[pos as int] > v);
                    assert(before[pos as int] <= before[b - 1]);
                } else if a < pos && b == pos {
                    assert(before[a] <= v);
                } else if a > pos {
                    assert(before[a - 1] <= before[b - 1]);
                }
            }
        }
        i = i + 1;
    }
    proof {
        assert(xs@.subrange(0, xs@.len() as int) =~= xs@);
    }
    *xs = sorted;
}

/// Paint row `y` between crossings `0` and `1`, `2` and `3`, and so on (an odd last
/// crossing is ignored); everything else stays.
pub fn fill_between_pairs(buffer: &mut PixelBuffer, xs: &[i32], y: i32, r: u8, g: u8, b: u8)
    requires
        old(buffer).wf(),
    ensures
        final(buffer).wf(),
        final(buffer).same_size(old(buffer)),
        forall|px: int, py: int|
            final(buffer).contains(px, py) ==> #[trigger] final(buffer).rgba(px, py) == if on_pair_spans(
                xs@,
                (xs@.len() / 2) as int,
                px,
                py,
                y as int,
            ) {
                (r, g, b, 255u8)
            } else {
                old(buffer).rgba(px, py)
            },
{
    let n = xs.len() / 2;
    let mut k: usize = 0;
    while k < n
        invariant
            buffer.wf(),
            buffer.same_size(old(buffer)),
            n == xs@.len() / 2,
            k <= n,
            forall|px: int, py: int|
                buffer.contains(px, py) ==> #[trigger] buffer.rgba(px, py) == if on_pair_spans(
                    xs@,
                    k as int,
                    px,
                    py,
                    y as int,
                ) {
                    (r, g, b, 255u8)
                } else {
                    old(buffer).rgba(px, py)
                },
        decreases n - k,
    {
        let len = xs.len();
        assert(2 * k + 1 < len);
        let i0 = 2 * k;
        buffer.hline(xs[i0], xs[i0 + 1], y, r, g, b);
        k = k + 1;
    }
}

} // verus!
