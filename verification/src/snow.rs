//! Snow that piles up on the ground and on calibrated surfaces, one height per screen
//! column: caps from the surface slope, deposits of landing flakes, and sliding down to
//! an angle of repose.

use vstd::prelude::*;

verus! {

/// Most snow a ground column holds.
pub const GROUND_SNOW_CAP: i32 = 60;
/// Most snow a flat surface column holds.
pub const REGION_SNOW_CAP: i32 = 30;
/// Largest height difference between neighbouring columns that does not slide.
pub const SLIDE_THRESHOLD: i32 = 1;
/// Sliding passes per update.
pub const SLIDE_PASSES: usize = 5;

/// `|a - b|`.
pub open spec fn abs_diff(a: int, b: int) -> int {
    if a >= b { a - b } else { b - a }
}

/// The smaller of two integers.
pub open spec fn min_of(a: int, b: int) -> int {
    if a <= b { a } else { b }
}

/// Whether column `x` has a surface (its top is above the bottom of the screen `h`).
pub open spec fn has_surface(top: Seq<i32>, h: int, x: int) -> bool {
    top[x] < h
}

/// Snow cap of column `x`: none without a surface; a full cap where both neighbours are
/// surfaces at most one row higher or lower (a slope of at most 45 degrees); a quarter cap
/// where only one neighbour is; none on steep edges.
pub open spec fn cap_of(top: Seq<i32>, h: int, x: int) -> int {
    if top[x] >= h {
        0
    } else {
        let left_ok = x > 0 && top[x - 1] < h && abs_diff(top[x - 1] as int, top[x] as int) <= 1;
        let right_ok = x + 1 < top.len() && top[x + 1] < h && abs_diff(top[x + 1] as int, top[x] as int) <= 1;
        if left_ok && right_ok {
            REGION_SNOW_CAP as int
        } else if left_ok || right_ok {
            (REGION_SNOW_CAP / 4) as int
        } else {
            0
        }
    }
}

/// Snow a flake of `size` adds to the column it lands on: 1 for size 1, 2 for sizes 2
/// and 3, 3 for larger flakes.
pub open spec fn deposit_amount(size: u8) -> int {
    if size == 1 {
        1
    } else if size == 2 || size == 3 {
        2
    } else {
        3
    }
}

/// How many columns to each side a flake of `size` spreads to.
pub open spec fn deposit_spread(size: u8) -> int {
    if size == 1 {
        0
    } else if size == 2 || size == 3 {
        1
    } else {
        2
    }
}

/// Region snow after a flake of `size` lands on the surface of column `col`, counting
/// side columns up to distance `reach`: the column gains `deposit_amount` (up to its cap),
/// and surface columns at distance `1 <= d <= reach` gain `deposit_amount / (d + 1)` (up
/// to their caps).
pub open spec fn region_deposit_within(
    r: Seq<i32>,
    cap: Seq<i32>,
    top: Seq<i32>,
    h: int,
    col: int,
    size: u8,
    reach: int,
) -> Seq<i32> {
    Seq::new(
        r.len(),
        |j: int|
            {
                let d = abs_diff(j, col);
                if j == col {
                    if r[j] < cap[j] {
                        min_of(r[j] + deposit_amount(size), cap[j] as int) as i32
                    } else {
                        r[j]
                    }
                } else if d <= reach && top[j] < h && cap[j] > 0 {
                    min_of(r[j] + deposit_amount(size) / (d + 1), cap[j] as int) as i32
                } else {
                    r[j]
                }
            },
    )
}

/// Region snow after a flake of `size` lands on the surface of column `col`; it spreads
/// `deposit_spread(size)` columns to each side.
pub open spec fn region_deposit(r: Seq<i32>, cap: Seq<i32>, top: Seq<i32>, h: int, col: int, size: u8) -> Seq<i32> {
    region_deposit_within(r, cap, top, h, col, size, deposit_spread(size))
}

/// Ground snow after a flake of `size` lands on the ground of column `col`, counting side
/// columns up to distance `reach`: the column gains `deposit_amount`, columns at distance
/// `1 <= d <= reach` gain `deposit_amount / (d + 1)`, all up to the ground cap.
pub open spec fn ground_deposit_within(g: Seq<i32>, col: int, size: u8, reach: int) -> Seq<i32> {
    Seq::new(
        g.len(),
        |j: int|
            {
                let d = abs_diff(j, col);
                if j == col {
                    if g[j] < GROUND_SNOW_CAP {
                        min_of(g[j] + deposit_amount(size), GROUND_SNOW_CAP as int) as i32
                    } else {
                        g[j]
                    }
                } else if d <= reach {
                    min_of(g[j] + deposit_amount(size) / (d + 1), GROUND_SNOW_CAP as int) as i32
                } else {
                    g[j]
                }
            },
    )
}

/// Ground snow after a flake of `size` lands on the ground of column `col`.
pub open spec fn ground_deposit(g: Seq<i32>, col: int, size: u8) -> Seq<i32> {
    ground_deposit_within(g, col, size, deposit_spread(size))
}

/// Whether a flake at row `fy` of column `col` lands on that column's surface: the column
/// takes snow, and the flake is between the snow top and the surface bottom.
pub open spec fn lands_on_surface(top: Seq<i32>, bot: Seq<i32>, r: Seq<i32>, cap: Seq<i32>, h: int, col: int, fy: int) -> bool {
    &&& cap[col] > 0
    &&& top[col] < h
    &&& fy >= top[col] - r[col]
    &&& fy <= bot[col]
}

/// One slide between columns `x` and `x + 1`: when one is more than the threshold higher,
/// one unit moves to the other.
pub open spec fn slide(g: Seq<i32>, x: int) -> Seq<i32> {
    let diff = g[x] - g[x + 1];
    if diff > SLIDE_THRESHOLD {
        g.update(x, (g[x] - 1) as i32).update(x + 1, (g[x + 1] + 1) as i32)
    } else if diff < -SLIDE_THRESHOLD {
        g.update(x, (g[x] + 1) as i32).update(x + 1, (g[x + 1] - 1) as i32)
    } else {
        g
    }
}

/// The ground after sliding the first `k` column pairs, left to right.
pub open spec fn ground_pass(g: Seq<i32>, k: nat) -> Seq<i32>
    decreases k,
{
    if k == 0 {
        g
    } else {
        slide(ground_pass(g, (k - 1) as nat), k - 1)
    }
}

/// `r` with columns `x` and `x + 1` cut down to their caps.
pub open spec fn clamp_pair(r: Seq<i32>, cap: Seq<i32>, x: int) -> Seq<i32> {
    let r1 = if r[x] > cap[x] { r.update(x, cap[x]) } else { r };
    if r1[x + 1] > cap[x + 1] { r1.update(x + 1, cap[x + 1]) } else { r1 }
}

/// One region step at column pair `x`: between two surface columns snow slides and both
/// are cut to their caps; at a surface edge, snow above the edge column's cap falls off
/// as a flake at `(column, new snow top)`.
pub open spec fn region_step(r: Seq<i32>, cap: Seq<i32>, top: Seq<i32>, h: int, x: int) -> (Seq<i32>, Seq<(int, int)>) {
    let left = has_surface(top, h, x);
    let right = has_surface(top, h, x + 1);
    if left && right {
        (clamp_pair(slide(r, x), cap, x), seq![])
    } else if left != right {
        let e = if left { x } else { x + 1 };
        if r[e] > cap[e] {
            let r2 = r.update(e, (r[e] - 1) as i32);
            (r2, seq![(e, top[e] - r2[e])])
        } else {
            (r, seq![])
        }
    } else {
        (r, seq![])
    }
}

/// Region snow and the flakes falling off edges after the first `k` column pairs.
pub open spec fn region_pass(r: Seq<i32>, cap: Seq<i32>, top: Seq<i32>, h: int, k: nat) -> (Seq<i32>, Seq<(int, int)>)
    decreases k,
{
    if k == 0 {
        (r, seq![])
    } else {
        let (r1, e1) = region_pass(r, cap, top, h, (k - 1) as nat);
        let (r2, e2) = region_step(r1, cap, top, h, k - 1);
        (r2, e1 + e2)
    }
}

/// `n` full ground passes over `w` columns.
pub open spec fn ground_rounds(g: Seq<i32>, w: nat, n: nat) -> Seq<i32>
    decreases n,
{
    if n == 0 {
        g
    } else {
        ground_pass(ground_rounds(g, w, (n - 1) as nat), (w - 1) as nat)
    }
}

/// `n` full region passes over `w` columns, with the flakes that fell off in order.
pub open spec fn region_rounds(r: Seq<i32>, cap: Seq<i32>, top: Seq<i32>, h: int, w: nat, n: nat) -> (Seq<i32>, Seq<(int, int)>)
    decreases n,
{
    if n == 0 {
        (r, seq![])
    } else {
        let (r1, e1) = region_rounds(r, cap, top, h, w, (n - 1) as nat);
        let (r2, e2) = region_pass(r1, cap, top, h, (w - 1) as nat);
        (r2, e1 + e2)
    }
}

/// Sum of a sequence of heights.
pub open spec fn total(s: Seq<i32>) -> int
    decreases s.len(),
{
    if s.len() == 0 {
        0
    } else {
        total(s.drop_last()) + s.last()
    }
}

fn deposit_region(r: &mut Vec<i32>, cap: &Vec<i32>, top: &Vec<i32>, h: i32, col: usize, size: u8)
    requires
        old(r)@.len() == cap@.len(),
        top@.len() == cap@.len(),
        col < cap@.len(),
        forall|j: int| 0 <= j < cap@.len() ==> 0 <= #[trigger] old(r)@[j] <= cap@[j],
        forall|j: int| 0 <= j < cap@.len() ==> #[trigger] cap@[j] <= REGION_SNOW_CAP,
    ensures
        final(r)@ == region_deposit(old(r)@, cap@, top@, h as int, col as int, size),
        forall|j: int| 0 <= j < cap@.len() ==> 0 <= #[trigger] final(r)@[j] <= cap@[j],
{
    let w = r.len();
    let acc: i32 = if size == 1 { 1 } else if size == 2 || size == 3 { 2 } else { 3 };
    let spread: usize = if size == 1 { 0 } else if size == 2 || size == 3 { 1 } else { 2 };
    let ghost r0 = r@;
    if r[col] < cap[col] {
        let v = if r[col] + acc < cap[col] { r[col] + acc } else { cap[col] };
        r.set(col, v);
    }
    proof {
        assert(r@ =~= region_deposit_within(r0, cap@, top@, h as int, col as int, size, 0));
    }
    let mut offset: usize = 1;
    while offset <= spread
        invariant
            w == r@.len(),
            w == cap@.len(),
            w == top@.len(),
            r0.len() == w,
            col < w,
            1 <= offset <= spread + 1,
            spread <= 2,
            acc == deposit_amount(size),
            spread == deposit_spread(size),
            forall|j: int| 0 <= j < w ==> 0 <= #[trigger] r0[j] <= cap@[j],
            forall|j: int| 0 <= j < w ==> #[trigger] cap@[j] <= REGION_SNOW_CAP,
            r@ == region_deposit_within(r0, cap@, top@, h as int, col as int, size, offset - 1),
        decreases spread + 1 - offset,
    {
        let side = acc / (offset as i32 + 1);
        if col >= offset {
            let left = col - offset;
            if top[left] < h && cap[left] > 0 {
                let v = if r[left] + side < cap[left] { r[left] + side } else { cap[left] };
                r.set(left, v);
            }
        }
        if offset < w - col {
            let right = col + offset;
            if top[right] < h && cap[right] > 0 {
                let v = if r[right] + side < cap[right] { r[right] + side } else { cap[right] };
                r.set(right, v);
            }
        }
        offset = offset + 1;
        proof {
            assert(r@ =~= region_deposit_within(r0, cap@, top@, h as int, col as int, size, offset - 1));
        }
    }
}

fn deposit_ground(g: &mut Vec<i32>, col: usize, size: u8)
    requires
        col < old(g)@.len(),
        forall|j: int| 0 <= j < old(g)@.len() ==> 0 <= #[trigger] old(g)@[j] <= GROUND_SNOW_CAP,
    ensures
        final(g)@ == ground_deposit(old(g)@, col as int, size),
        forall|j: int| 0 <= j < final(g)@.len() ==> 0 <= #[trigger] final(g)@[j] <= GROUND_SNOW_CAP,
{
    let w = g.len();
    let acc: i32 = if size == 1 { 1 } else if size == 2 || size == 3 { 2 } else { 3 };
    let spread: usize = if size == 1 { 0 } else if size == 2 || size == 3 { 1 } else { 2 };
    let ghost g0 = g@;
    if g[col] < GROUND_SNOW_CAP {
        let v = if g[col] + acc < GROUND_SNOW_CAP { g[col] + acc } else { GROUND_SNOW_CAP };
        g.set(col, v);
    }
    proof {
        assert(g@ =~= ground_deposit_within(g0, col as int, size, 0));
    }
    let mut offset: usize = 1;
    while offset <= spread
        invariant
            w == g@.len(),
            g0.len() == w,
            col < w,
            1 <= offset <= spread + 1,
            spread <= 2,
            acc == deposit_amount(size),
            spread == deposit_spread(size),
            forall|j: int| 0 <= j < w ==> 0 <= #[trigger] g0[j] <= GROUND_SNOW_CAP,
            g@ == ground_deposit_within(g0, col as int, size, offset - 1),
        decreases spread + 1 - offset,
    {
        let side = acc / (offset as i32 + 1);
        if col >= offset {
            let left = col - offset;
            let v = if g[left] + side < GROUND_SNOW_CAP { g[left] + side } else { GROUND_SNOW_CAP };
            g.set(left, v);
        }
        if offset < w - col {
            let right = col + offset;
            let v = if g[right] + side < GROUND_SNOW_CAP { g[right] + side } else { GROUND_SNOW_CAP };
            g.set(right, v);
        }
        offset = offset + 1;
        proof {
            assert(g@ =~= ground_deposit_within(g0, col as int, size, offset - 1));
        }
    }
}

/// Every value of `s` lies between `0` and `bound(i)`.
pub open spec fn within(s: Seq<i32>, bound: Seq<i32>) -> bool {
    forall|i: int| 0 <= i < s.len() ==> 0 <= #[trigger] s[i] <= bound[i]
}

proof fn lemma_total_update(s: Seq<i32>, i: int, v: i32)
    requires
        0 <= i < s.len(),
    ensures
        total(s.update(i, v)) == total(s) - s[i] + v,
    decreases s.len(),
{
    if i < s.len() - 1 {
        lemma_total_update(s.drop_last(), i, v);
        assert(s.update(i, v).drop_last() =~= s.drop_last().update(i, v));
    } else {
        assert(s.update(i, v).drop_last() =~= s.drop_last());
    }
}

/// A slide moves snow between two columns and keeps the total.
pub proof fn lemma_slide_keeps_total(g: Seq<i32>, x: int)
    requires
        0 <= x,
        x + 1 < g.len(),
    ensures
        total(slide(g, x)) == total(g),
        slide(g, x).len() == g.len(),
{
    let diff = g[x] - g[x + 1];
    if diff > SLIDE_THRESHOLD {
        let g1 = g.update(x, (g[x] - 1) as i32);
        lemma_total_update(g, x, (g[x] - 1) as i32);
        lemma_total_update(g1, x + 1, (g[x + 1] + 1) as i32);
    } else if diff < -SLIDE_THRESHOLD {
        let g1 = g.update(x, (g[x] + 1) as i32);
        lemma_total_update(g, x, (g[x] + 1) as i32);
        lemma_total_update(g1, x + 1, (g[x + 1] - 1) as i32);
    }
}

/// Sliding never takes a column below zero nor above the larger bound of the pair.
proof fn lemma_slide_bounds(g: Seq<i32>, x: int, m: int)
    requires
        0 <= x,
        x + 1 < g.len(),
        forall|i: int| 0 <= i < g.len() ==> 0 <= #[trigger] g[i] <= m,
    ensures
        slide(g, x).len() == g.len(),
        forall|i: int| 0 <= i < g.len() ==> 0 <= #[trigger] slide(g, x)[i] <= m,
        forall|i: int| 0 <= i < g.len() && i != x && i != x + 1 ==> #[trigger] slide(g, x)[i] == g[i],
{
}

/// A ground pass keeps the total amount of snow and its bounds.
pub proof fn lemma_ground_pass(g: Seq<i32>, k: nat)
    requires
        k < g.len(),
        forall|i: int| 0 <= i < g.len() ==> 0 <= #[trigger] g[i] <= GROUND_SNOW_CAP,
    ensures
        ground_pass(g, k).len() == g.len(),
        total(ground_pass(g, k)) == total(g),
        forall|i: int| 0 <= i < g.len() ==> 0 <= #[trigger] ground_pass(g, k)[i] <= GROUND_SNOW_CAP,
    decreases k,
{
    if k > 0 {
        lemma_ground_pass(g, (k - 1) as nat);
        let p = ground_pass(g, (k - 1) as nat);
        lemma_slide_keeps_total(p, k - 1);
        lemma_slide_bounds(p, k - 1, GROUND_SNOW_CAP as int);
    }
}

/// Sliding the ground snow, any number of rounds over all column pairs, keeps the total
/// amount of ground snow, and every column stays between zero and the ground cap.
pub proof fn lemma_ground_rounds_keep_total(g: Seq<i32>, n: nat)
    requires
        g.len() >= 1,
        forall|i: int| 0 <= i < g.len() ==> 0 <= #[trigger] g[i] <= GROUND_SNOW_CAP,
    ensures
        ground_rounds(g, g.len(), n).len() == g.len(),
        total(ground_rounds(g, g.len(), n)) == total(g),
        forall|i: int| 0 <= i < g.len() ==> 0 <= #[trigger] ground_rounds(g, g.len(), n)[i] <= GROUND_SNOW_CAP,
    decreases n,
{
    if n > 0 {
        lemma_ground_rounds_keep_total(g, (n - 1) as nat);
        lemma_ground_pass(ground_rounds(g, g.len(), (n - 1) as nat), (g.len() - 1) as nat);
    }
}

/// While every surface column holds at most its cap, a region step keeps that and no
/// snow falls off an edge.
proof fn lemma_region_step(r: Seq<i32>, cap: Seq<i32>, top: Seq<i32>, h: int, x: int)
    requires
        r.len() == cap.len(),
        top.len() == cap.len(),
        0 <= x,
        x + 1 < r.len(),
        within(r, cap),
    ensures
        region_step(r, cap, top, h, x).0.len() == r.len(),
        within(region_step(r, cap, top, h, x).0, cap),
        region_step(r, cap, top, h, x).1 == Seq::<(int, int)>::empty(),
{
}

proof fn lemma_region_pass(r: Seq<i32>, cap: Seq<i32>, top: Seq<i32>, h: int, k: nat)
    requires
        r.len() == cap.len(),
        top.len() == cap.len(),
        k < r.len(),
        within(r, cap),
    ensures
        region_pass(r, cap, top, h, k).0.len() == r.len(),
        within(region_pass(r, cap, top, h, k).0, cap),
        region_pass(r, cap, top, h, k).1 == Seq::<(int, int)>::empty(),
    decreases k,
{
    if k > 0 {
        lemma_region_pass(r, cap, top, h, (k - 1) as nat);
        let r1 = region_pass(r, cap, top, h, (k - 1) as nat).0;
        lemma_region_step(r1, cap, top, h, k - 1);
        assert(Seq::<(int, int)>::empty() + Seq::<(int, int)>::empty() =~= Seq::<(int, int)>::empty());
    }
}

/// While every surface column holds at most its cap, region sliding keeps every column
/// between zero and its cap, and no snow ever falls off a surface edge.
pub proof fn lemma_region_rounds_within_caps(r: Seq<i32>, cap: Seq<i32>, top: Seq<i32>, h: int, n: nat)
    requires
        r.len() == cap.len(),
        top.len() == cap.len(),
        r.len() >= 1,
        within(r, cap),
    ensures
        region_rounds(r, cap, top, h, r.len(), n).0.len() == r.len(),
        within(region_rounds(r, cap, top, h, r.len(), n).0, cap),
        region_rounds(r, cap, top, h, r.len(), n).1 == Seq::<(int, int)>::empty(),
    decreases n,
{
    if n > 0 {
        lemma_region_rounds_within_caps(r, cap, top, h, (n - 1) as nat);
        let r1 = region_rounds(r, cap, top, h, r.len(), (n - 1) as nat).0;
        lemma_region_pass(r1, cap, top, h, (r.len() - 1) as nat);
        assert(Seq::<(int, int)>::empty() + Seq::<(int, int)>::empty() =~= Seq::<(int, int)>::empty());
    }
}

/// Snow heights per column on the ground and on the topmost surface of each column.
pub struct SnowPack {
    top: Vec<i32>,
    bot: Vec<i32>,
    ground: Vec<i32>,
    region: Vec<i32>,
    cap: Vec<i32>,
    height: i32,
}

impl SnowPack {
    /// Top row of each column's surface (`height` when there is none).
    pub closed spec fn tops(&self) -> Seq<i32> {
        self.top@
    }

    /// Bottom row of each column's surface (`height` when there is none).
    pub closed spec fn bottoms(&self) -> Seq<i32> {
        self.bot@
    }

    /// Ground snow per column.
    pub closed spec fn ground_snow(&self) -> Seq<i32> {
        self.ground@
    }

    /// Snow on the surface per column.
    pub closed spec fn region_snow(&self) -> Seq<i32> {
        self.region@
    }

    /// Snow cap of each column's surface.
    pub closed spec fn caps(&self) -> Seq<i32> {
        self.cap@
    }

    /// Screen height in rows.
    pub closed spec fn spec_height(&self) -> i32 {
        self.height
    }

    /// The pack's invariant: one entry per column in each list, surface rows on the
    /// screen, caps from the surface slope, and snow between zero and the caps.
    pub open spec fn wf(&self) -> bool {
        let w = self.tops().len();
        let h = self.spec_height() as int;
        &&& self.bottoms().len() == w
        &&& self.ground_snow().len() == w
        &&& self.region_snow().len() == w
        &&& self.caps().len() == w
        &&& h >= 0
        &&& forall|x: int| 0 <= x < w ==> 0 <= #[trigger] self.tops()[x] <= h
        &&& forall|x: int| 0 <= x < w ==> 0 <= #[trigger] self.bottoms()[x] <= h
        &&& forall|x: int| 0 <= x < w ==> #[trigger] self.caps()[x] == cap_of(self.tops(), h, x)
        &&& forall|x: int| 0 <= x < w ==> 0 <= #[trigger] self.ground_snow()[x] <= GROUND_SNOW_CAP
        &&& forall|x: int| 0 <= x < w ==> 0 <= #[trigger] self.region_snow()[x] <= self.caps()[x]
    }

    /// A snow-free pack for surfaces whose top and bottom rows per column are given
    /// (`height` for a column without surface); the caps follow from the tops.
    pub fn new(surface_top: Vec<i32>, surface_bot: Vec<i32>, height: i32) -> (p: Self)
        requires
            surface_bot@.len() == surface_top@.len(),
            height >= 0,
            forall|x: int| 0 <= x < surface_top@.len() ==> 0 <= #[trigger] surface_top@[x] <= height,
            forall|x: int| 0 <= x < surface_bot@.len() ==> 0 <= #[trigger] surface_bot@[x] <= height,
        ensures
            p.wf(),
            p.tops() == surface_top@,
            p.bottoms() == surface_bot@,
            p.spec_height() == height,
            forall|x: int| 0 <= x < surface_top@.len() ==> #[trigger] p.ground_snow()[x] == 0,
            forall|x: int| 0 <= x < surface_top@.len() ==> #[trigger] p.region_snow()[x] == 0,
    {
        let w = surface_top.len();
        let h = height;
        let mut cap: Vec<i32> = Vec::new();
        let mut x: usize = 0;
        while x < w
            invariant
                w == surface_top@.len(),
                x <= w,
                h >= 0,
                forall|k: int| 0 <= k < w ==> 0 <= #[trigger] surface_top@[k] <= h,
                cap@.len() == x,
                forall|k: int| 0 <= k < x ==> #[trigger] cap@[k] == cap_of(surface_top@, h as int, k),
            decreases w - x,
        {
            let center = surface_top[x];
            let c: i32 = if center >= h {
                0
            } else {
                let left = if x > 0 { surface_top[x - 1] } else { h };
                let right = if x + 1 < w { surface_top[x + 1] } else { h };
                let left_ok = left < h && (left - center <= 1 && center - left <= 1);
                let right_ok = right < h && (right - center <= 1 && center - right <= 1);
                if left_ok && right_ok {
                    REGION_SNOW_CAP
                } else if left_ok || right_ok {
                    REGION_SNOW_CAP / 4
                } else {
                    0
                }
            };
            cap.push(c);
            x = x + 1;
        }
        let ground: Vec<i32> = vec![0i32; w];
        let region: Vec<i32> = vec![0i32; w];
        SnowPack { top: surface_top, bot: surface_bot, ground, region, cap, height }
    }

    /// A flake of `size` at column `col`, row `fy`: it lands on the column's surface when
    /// `lands_on_surface`, else on the ground once it reaches the ground snow; the snow is
    /// deposited and `true` returned. Outside the columns nothing lands.
    pub fn land(&mut self, col: usize, fy: i32, size: u8) -> (landed: bool)
        requires
            old(self).wf(),
        ensures
            final(self).wf(),
            final(self).tops() == old(self).tops(),
            final(self).bottoms() == old(self).bottoms(),
            final(self).caps() == old(self).caps(),
            final(self).spec_height() == old(self).spec_height(),
            ({
                let w = old(self).tops().len();
                let h = old(self).spec_height() as int;
                let on_surface = col < w && lands_on_surface(
                    old(self).tops(),
                    old(self).bottoms(),
                    old(self).region_snow(),
                    old(self).caps(),
                    h,
                    col as int,
                    fy as int,
                );
                let on_ground = col < w && !on_surface && fy >= (h - 1) - old(self).ground_snow()[col as int];
                &&& landed == (on_surface || on_ground)
                &&& final(self).region_snow() == if on_surface {
                    region_deposit(old(self).region_snow(), old(self).caps(), old(self).tops(), h, col as int, size)
                } else {
                    old(self).region_snow()
                }
                &&& final(self).ground_snow() == if on_ground {
                    ground_deposit(old(self).ground_snow(), col as int, size)
                } else {
                    old(self).ground_snow()
                }
            }),
    {
        let w = self.top.len();
        if col >= w {
            return false;
        }
        let h = self.height;
        let cap_col = self.cap[col];
        if cap_col > 0 && self.top[col] < h && fy >= self.top[col] - self.region[col] && fy <= self.bot[col] {
            deposit_region(&mut self.region, &self.cap, &self.top, h, col, size);
            return true;
        }
        if fy >= (h - 1) - self.ground[col] {
            deposit_ground(&mut self.ground, col, size);
            return true;
        }
        false
    }

    /// Let the snow settle: `SLIDE_PASSES` rounds, each sliding the ground snow and then
    /// the surface snow over all column pairs from left to right. Since every column holds
    /// at most its cap, no snow falls off a surface edge (`lemma_region_rounds_within_caps`).
    pub fn settle(&mut self)
        requires
            old(self).wf(),
        ensures
            final(self).wf(),
            final(self).tops() == old(self).tops(),
            final(self).bottoms() == old(self).bottoms(),
            final(self).caps() == old(self).caps(),
            final(self).spec_height() == old(self).spec_height(),
            ({
                let w = old(self).tops().len();
                let h = old(self).spec_height() as int;
                &&& w <= 1 ==> final(self).ground_snow() == old(self).ground_snow() && final(self).region_snow()
                    == old(self).region_snow()
                &&& w > 1 ==> final(self).ground_snow() == ground_rounds(old(self).ground_snow(), w, 5)
                &&& w > 1 ==> final(self).region_snow() == region_rounds(
                    old(self).region_snow(),
                    old(self).caps(),
                    old(self).tops(),
                    h,
                    w,
                    5,
                ).0
            }),
    {
        let w = self.top.len();
        let h = self.height;
        if w <= 1 {
            return;
        }
        let ghost g0 = self.ground@;
        let ghost r0 = self.region@;
        let ghost cap = self.cap@;
        let ghost top = self.top@;
        let mut pass: usize = 0;
        while pass < SLIDE_PASSES
            invariant
                old(self).wf(),
                w == self.top@.len(),
                w > 1,
                h == self.height,
                self.top@ == old(self).top@,
                self.bot@ == old(self).bot@,
                self.cap@ == old(self).cap@,
                cap == self.cap@,
                top == self.top@,
                g0 == old(self).ground@,
                r0 == old(self).region@,
                pass <= SLIDE_PASSES,
                self.ground@ == ground_rounds(g0, w as nat, pass as nat),
                self.region@ == region_rounds(r0, cap, top, h as int, w as nat, pass as nat).0,
                self.ground@.len() == w,
                self.region@.len() == w,
                forall|i: int| 0 <= i < w ==> 0 <= #[trigger] self.ground@[i] <= GROUND_SNOW_CAP,
                within(self.region@, cap),
            decreases SLIDE_PASSES - pass,
        {
            let ghost gs = self.ground@;
            let mut x: usize = 0;
            while x < w - 1
                invariant
                    w == self.top@.len(),
                    w > 1,
                    x <= w - 1,
                    self.ground@.len() == w,
                    gs.len() == w,
                    forall|i: int| 0 <= i < w ==> 0 <= #[trigger] gs[i] <= GROUND_SNOW_CAP,
                    self.ground@ == ground_pass(gs, x as nat),
                    self.top@ == old(self).top@,
                    self.bot@ == old(self).bot@,
                    self.cap@ == old(self).cap@,
                    self.region@ == region_rounds(r0, cap, top, h as int, w as nat, pass as nat).0,
                    h == self.height,
                decreases w - 1 - x,
            {
                proof {
                    lemma_ground_pass(gs, x as nat);
                }
                let a = self.ground[x];
                let b = self.ground[x + 1];
                if a - b > SLIDE_THRESHOLD {
                    self.ground.set(x, a - 1);
                    self.ground.set(x + 1, b + 1);
                } else if a - b < -SLIDE_THRESHOLD {
                    self.ground.set(x, a + 1);
                    self.ground.set(x + 1, b - 1);
                }
                proof {
                    assert(self.ground@ =~= slide(ground_pass(gs, x as nat), x as int));
                }
                x = x + 1;
            }
            proof {
                lemma_ground_pass(gs, (w - 1) as nat);
            }
            let ghost rs = self.region@;
            let mut x: usize = 0;
            while x < w - 1
                invariant
                    w == self.top@.len(),
                    w > 1,
                    x <= w - 1,
                    self.region@.len() == w,
                    rs.len() == w,
                    cap.len() == w,
                    top.len() == w,
                    cap == self.cap@,
                    top == self.top@,
                    within(rs, cap),
                    self.region@ == region_pass(rs, cap, top, h as int, x as nat).0,
                    self.top@ == old(self).top@,
                    self.bot@ == old(self).bot@,
                    self.cap@ == old(self).cap@,
                    self.ground@ == ground_pass(gs, (w - 1) as nat),
                    h == self.height,
                decreases w - 1 - x,
            {
                proof {
                    lemma_region_pass(rs, cap, top, h as int, x as nat);
                }
                let ghost cur = self.region@;
                let left = self.top[x] < h;
                let right = self.top[x + 1] < h;
                if left && right {
                    let a = self.region[x];
                    let b = self.region[x + 1];
                    if a - b > SLIDE_THRESHOLD {
                        self.region.set(x, a - 1);
                        self.region.set(x + 1, b + 1);
                    } else if a - b < -SLIDE_THRESHOLD {
                        self.region.set(x, a + 1);
                        self.region.set(x + 1, b - 1);
                    }
                    let ghost slid = self.region@;
                    proof {
                        assert(slid =~= slide(cur, x as int));
                    }
                    if self.region[x] > self.cap[x] {
                        let c = self.cap[x];
                        self.region.set(x, c);
                    }
                    if self.region[x + 1] > self.cap[x + 1] {
                        let c = self.cap[x + 1];
                        self.region.set(x + 1, c);
                    }
                    proof {
                        assert(self.region@ =~= clamp_pair(slid, cap, x as int));
                    }
                }
                proof {
                    assert(self.region@ =~= region_step(cur, cap, top, h as int, x as int).0);
                }
                x = x + 1;
            }
            proof {
                lemma_region_pass(rs, cap, top, h as int, (w - 1) as nat);
                lemma_ground_rounds_keep_total(g0, (pass + 1) as nat);
            }
            pass = pass + 1;
        }
    }

    /// Number of columns.
    pub fn width(&self) -> (w: usize)
        ensures
            w == self.tops().len(),
    {
        self.top.len()
    }

    /// Ground snow of column `x`.
    pub fn ground_at(&self, x: usize) -> (v: i32)
        requires
            self.wf(),
            x < self.tops().len(),
        ensures
            v == self.ground_snow()[x as int],
    {
        self.ground[x]
    }

    /// Surface snow of column `x`.
    pub fn region_at(&self, x: usize) -> (v: i32)
        requires
            self.wf(),
            x < self.tops().len(),
        ensures
            v == self.region_snow()[x as int],
    {
        self.region[x]
    }

    /// Top row of the surface of column `x` (the screen height when there is none).
    pub fn top_at(&self, x: usize) -> (v: i32)
        requires
            self.wf(),
            x < self.tops().len(),
        ensures
            v == self.tops()[x as int],
    {
        self.top[x]
    }

    /// Snow cap of column `x`.
    pub fn cap_at(&self, x: usize) -> (v: i32)
        requires
            self.wf(),
            x < self.tops().len(),
        ensures
            v == self.caps()[x as int],
    {
        self.cap[x]
    }
}

} // verus!
