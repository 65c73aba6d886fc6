//! The lattice walk of the growing pipes: each pipe steps one grid cell at a time along
//! an axis, sometimes turns (never straight back), and starts over elsewhere once it
//! has laid a fixed number of segments.

use vstd::prelude::*;
use crate::util::{Rng, xorshift_step, xorshift_iter};

verus! {

/// Segments a pipe lays before it starts over.
pub const PIPE_MAX_SEGMENTS: usize = 40;

/// Number of pipes in a network.
pub const PIPE_COUNT: usize = 4;

/// A point of the integer grid the pipes run on.
#[derive(Clone, Copy, Debug, PartialEq, Eq, Structural)]
pub struct GridPoint {
    pub x: i32,
    pub y: i32,
    pub z: i32,
}

/// One straight piece of pipe from `a` to `b` along direction `dir`, coloured by `hue`
/// (degrees).
#[derive(Clone, Copy, Debug, PartialEq, Eq, Structural)]
pub struct PipeSegment {
    pub a: GridPoint,
    pub b: GridPoint,
    pub hue: u32,
    pub dir: usize,
}

/// The six axis directions by index: 0 is +x, 1 is -x, 2 is +y, 3 is -y, 4 is +z, 5 is -z.
pub open spec fn step_x(d: int) -> int {
    if d == 0 { 1 } else if d == 1 { -1 } else { 0 }
}

/// The y part of the unit step along direction `d`.
pub open spec fn step_y(d: int) -> int {
    if d == 2 { 1 } else if d == 3 { -1 } else { 0 }
}

/// The z part of the unit step along direction `d`.
pub open spec fn step_z(d: int) -> int {
    if d == 4 { 1 } else if d == 5 { -1 } else { 0 }
}

/// The direction opposite to `d`.
pub open spec fn reverse_dir(d: int) -> int {
    if d % 2 == 0 { d + 1 } else { d - 1 }
}

/// `p` moved one cell along direction `d`.
pub open spec fn stepped(p: GridPoint, d: int) -> GridPoint {
    GridPoint {
        x: (p.x + step_x(d)) as i32,
        y: (p.y + step_y(d)) as i32,
        z: (p.z + step_z(d)) as i32,
    }
}

/// Every coordinate of `p` lies in `[-r, r]`.
pub open spec fn within(p: GridPoint, r: int) -> bool {
    &&& -r <= p.x <= r
    &&& -r <= p.y <= r
    &&& -r <= p.z <= r
}

/// A pipe as the contracts see it.
pub struct PipeModel {
    pub segs: Seq<PipeSegment>,
    pub pos: GridPoint,
    pub dir: int,
    pub hue: int,
}

/// What every pipe keeps: a direction and hue in range, fewer segments than the limit, a
/// head no further from the origin than four cells plus one per segment, segments that
/// are unit steps in the pipe's hue, each starting where the one before ended, never one
/// straight back along the one before, and a head at the end of the last segment whose
/// direction does not turn straight back either.
pub open spec fn pipe_ok(p: PipeModel) -> bool {
    let n = p.segs.len() as int;
    &&& 0 <= p.dir < 6
    &&& 0 <= p.hue < 360
    &&& n < PIPE_MAX_SEGMENTS
    &&& within(p.pos, 4 + n)
    &&& forall|k: int|
        0 <= k < n ==> {
            &&& (#[trigger] p.segs[k]).dir < 6
            &&& p.segs[k].hue == p.hue
            &&& p.segs[k].b == stepped(p.segs[k].a, p.segs[k].dir as int)
        }
    &&& forall|k: int|
        0 <= k < n - 1 ==> {
            &&& (#[trigger] p.segs[k + 1]).a == p.segs[k].b
            &&& p.segs[k + 1].dir != reverse_dir(p.segs[k].dir as int)
        }
    &&& n > 0 ==> p.segs[n - 1].b == p.pos && p.dir != reverse_dir(p.segs[n - 1].dir as int)
}

/// A draw of `s` turns the pipe when its low 24 bits, read as a fraction of 2^24, are
/// below one half.
pub open spec fn coin_turns(s: u64) -> bool {
    (s & 0xFF_FFFFu64) < 0x80_0000u64
}

/// The direction drawn from generator state `s`: the low 32 bits modulo 6.
pub open spec fn drawn_dir(s: u64) -> int {
    (s as u32) as int % 6
}

/// Draw directions from state `s` until one differs from `rev`, at most `fuel` draws: the
/// direction found (`-1` if none) and the generator state after the last draw.
pub open spec fn turn_search(s: u64, rev: int, fuel: nat) -> (int, u64)
    decreases fuel,
{
    if fuel == 0 {
        (-1, s)
    } else {
        let s1 = xorshift_step(s);
        if drawn_dir(s1) != rev {
            (drawn_dir(s1), s1)
        } else {
            turn_search(s1, rev, (fuel - 1) as nat)
        }
    }
}

/// The direction a pipe heading along `dir` takes next and the generator state after the
/// decision, starting from state `s`: one draw for the coin, then, when it turns, draws
/// until a direction other than straight back comes up.
pub open spec fn turn_outcome(s: u64, dir: int) -> (int, u64) {
    let s1 = xorshift_step(s);
    if coin_turns(s1) {
        let (found, s2) = turn_search(s1, reverse_dir(dir), u64::MAX as nat);
        (if found >= 0 { found } else { dir }, s2)
    } else {
        (dir, s1)
    }
}

/// A fresh start point drawn from state `s` with three draws of `range_i32(lo, hi)`.
pub open spec fn start_point(s: u64, lo: int, hi: int) -> GridPoint {
    let span = (hi - lo + 1) as u64;
    GridPoint {
        x: (lo + xorshift_iter(s, 1) % span) as i32,
        y: (lo + xorshift_iter(s, 2) % span) as i32,
        z: (lo + xorshift_iter(s, 3) % span) as i32,
    }
}

/// One growth step of pipe `p` with the generator at `s`: the pipe extends by one cell
/// along its direction, decides its next direction, and when it then holds
/// `PIPE_MAX_SEGMENTS` segments it is cleared, restarts at a point drawn in `[-4, 4]^3`
/// and shifts its hue by 60 degrees. Gives the new pipe and generator state.
pub open spec fn grow_model(p: PipeModel, s: u64) -> (PipeModel, u64) {
    let head = stepped(p.pos, p.dir);
    let seg = PipeSegment { a: p.pos, b: head, hue: p.hue as u32, dir: p.dir as usize };
    let (nd, s2) = turn_outcome(s, p.dir);
    if p.segs.len() + 1 >= PIPE_MAX_SEGMENTS {
        (
            PipeModel {
                segs: Seq::empty(),
                pos: start_point(s2, -4, 4),
                dir: nd,
                hue: (p.hue + 60) % 360,
            },
            xorshift_iter(s2, 3),
        )
    } else {
        (PipeModel { segs: p.segs.push(seg), pos: head, dir: nd, hue: p.hue }, s2)
    }
}

/// Grow pipes `i..` of `ps` in order, the generator threading through: the pipes and the
/// final state.
pub open spec fn grow_from(ps: Seq<PipeModel>, s: u64, i: nat) -> (Seq<PipeModel>, u64)
    decreases ps.len() - i,
{
    if i >= ps.len() {
        (ps, s)
    } else {
        let (p, s1) = grow_model(ps[i as int], s);
        grow_from(ps.update(i as int, p), s1, i + 1)
    }
}

/// The direction of a draw that is not `reverse`, drawing from `rng` as long as the draw
/// is `reverse`; `None` only if `u64::MAX` draws in a row are `reverse`.
fn pick_turn(rng: &mut Rng, reverse: usize) -> (d: Option<usize>)
    requires
        reverse < 6,
    ensures
        ({
            let (found, s) = turn_search(old(rng).state(), reverse as int, u64::MAX as nat);
            &&& final(rng).state() == s
            &&& match d {
                Some(v) => v == found && v < 6 && v != reverse,
                None => found == -1,
            }
        }),
{
    let ghost s0 = rng.state();
    let mut tries: u64 = 0;
    while tries < u64::MAX
        invariant
            turn_search(s0, reverse as int, u64::MAX as nat) == turn_search(
                rng.state(),
                reverse as int,
                (u64::MAX - tries) as nat,
            ),
            reverse < 6,
            s0 == old(rng).state(),
        decreases u64::MAX - tries,
    {
        let ghost cur = rng.state();
        let r = rng.next_u32();
        let idx = (r % 6) as usize;
        assert(turn_search(cur, reverse as int, (u64::MAX - tries) as nat) == (if drawn_dir(
            rng.state(),
        ) != reverse as int {
            (drawn_dir(rng.state()), rng.state())
        } else {
            turn_search(rng.state(), reverse as int, (u64::MAX - (tries + 1)) as nat)
        }));
        if idx != reverse {
            return Some(idx);
        }
        tries = tries + 1;
    }
    None
}

/// One pipe of the network.
pub struct LatticePipe {
    segments: Vec<PipeSegment>,
    pos: GridPoint,
    dir: usize,
    hue: u32,
}

impl View for LatticePipe {
    type V = PipeModel;

    closed spec fn view(&self) -> PipeModel {
        PipeModel { segs: self.segments@, pos: self.pos, dir: self.dir as int, hue: self.hue as int }
    }
}

impl LatticePipe {
    /// Number of segments laid so far.
    pub fn segment_count(&self) -> (n: usize)
        ensures
            n == self@.segs.len(),
    {
        self.segments.len()
    }

    /// Segment `k`, oldest first.
    pub fn segment(&self, k: usize) -> (s: PipeSegment)
        requires
            k < self@.segs.len(),
        ensures
            s == self@.segs[k as int],
    {
        self.segments[k]
    }

    /// The head of the pipe.
    pub fn position(&self) -> (p: GridPoint)
        ensures
            p == self@.pos,
    {
        self.pos
    }

    /// The direction the pipe grows next.
    pub fn direction(&self) -> (d: usize)
        ensures
            d == self@.dir,
    {
        self.dir
    }

    /// The hue (degrees) of the pipe.
    pub fn hue(&self) -> (h: u32)
        ensures
            h == self@.hue,
    {
        self.hue
    }

    /// Whether segment `k` ends in a bend: it is the last one, or the next one runs in
    /// another direction.
    pub fn bends_at(&self, k: usize) -> (b: bool)
        requires
            k < self@.segs.len(),
        ensures
            b == (k + 1 == self@.segs.len() || self@.segs[k + 1].dir != self@.segs[k as int].dir),
    {
        if k < self.segments.len() - 1 {
            self.segments[k + 1].dir != self.segments[k].dir
        } else {
            true
        }
    }

    /// Grow by one step (see `grow_model`).
    pub fn grow(&mut self, rng: &mut Rng)
        requires
            pipe_ok(old(self)@),
        ensures
            (final(self)@, final(rng).state()) == grow_model(old(self)@, old(rng).state()),
            pipe_ok(final(self)@),
    {
        let ghost p0 = self@;
        let ghost s0 = rng.state();
        let old_pos = self.pos;
        let d = self.dir;
        let dx: i32 = if d == 0 { 1 } else if d == 1 { -1 } else { 0 };
        let dy: i32 = if d == 2 { 1 } else if d == 3 { -1 } else { 0 };
        let dz: i32 = if d == 4 { 1 } else if d == 5 { -1 } else { 0 };
        let head = GridPoint { x: old_pos.x + dx, y: old_pos.y + dy, z: old_pos.z + dz };
        assert(head == stepped(p0.pos, p0.dir));
        self.pos = head;
        self.segments.push(PipeSegment { a: old_pos, b: head, hue: self.hue, dir: d });
        let coin = rng.next_u64();
        if (coin & 0xFF_FFFFu64) < 0x80_0000u64 {
            let reverse: usize = if d % 2 == 0 { d + 1 } else { d - 1 };
            match pick_turn(rng, reverse) {
                Some(nd) => {
                    self.dir = nd;
                },
                None => {},
            }
        }
        assert(self.dir == turn_outcome(s0, p0.dir).0);
        assert(rng.state() == turn_outcome(s0, p0.dir).1);
        if self.segments.len() >= PIPE_MAX_SEGMENTS {
            let ghost s2 = rng.state();
            self.segments.clear();
            let x = rng.range_i32(-4, 4);
            let y = rng.range_i32(-4, 4);
            let z = rng.range_i32(-4, 4);
            self.pos = GridPoint { x, y, z };
            self.hue = (self.hue + 60) % 360;
            proof {
                assert(xorshift_iter(s2, 0) == s2);
                assert(xorshift_iter(s2, 1) == xorshift_step(s2));
                assert(xorshift_iter(s2, 2) == xorshift_step(xorshift_iter(s2, 1)));
                assert(xorshift_iter(s2, 3) == xorshift_step(xorshift_iter(s2, 2)));
                assert(self@.segs =~= Seq::<PipeSegment>::empty());
            }
        } else {
            assert(self@.segs =~= p0.segs.push(self@.segs[p0.segs.len() as int]));
        }
        proof {
            lemma_grow_keeps_pipe_ok(p0, s0);
        }
    }
}

/// A set of pipes growing in turn from one generator.
pub struct PipeNetwork {
    pipes: Vec<LatticePipe>,
    rng: Rng,
}

impl PipeNetwork {
    /// The pipes as the contracts see them.
    pub closed spec fn models(&self) -> Seq<PipeModel> {
        self.pipes@.map_values(|p: LatticePipe| p@)
    }

    /// The generator state.
    pub closed spec fn rng_state(&self) -> u64 {
        self.rng.state()
    }

    /// Every pipe keeps `pipe_ok`.
    pub open spec fn wf(&self) -> bool {
        forall|i: int| 0 <= i < self.models().len() ==> pipe_ok(#[trigger] self.models()[i])
    }

    /// `PIPE_COUNT` empty pipes from a generator seeded with 42: pipe `i` starts at a point
    /// drawn in `[-3, 3]^3` (three draws per pipe, in order), heads along direction `i`
    /// and has hue `80 * i`.
    pub fn new() -> (net: Self)
        ensures
            net.wf(),
            net.models().len() == PIPE_COUNT,
            net.rng_state() == xorshift_iter(42, 3 * PIPE_COUNT as nat),
            forall|i: int|
                0 <= i < PIPE_COUNT ==> #[trigger] net.models()[i] == (PipeModel {
                    segs: Seq::empty(),
                    pos: start_point(xorshift_iter(42, (3 * i) as nat), -3, 3),
                    dir: i,
                    hue: 80 * i,
                }),
    {
        let mut rng = Rng::new(42);
        let mut pipes: Vec<LatticePipe> = Vec::new();
        let mut i: usize = 0;
        while i < PIPE_COUNT
            invariant
                i <= PIPE_COUNT,
                pipes.len() == i,
                rng.state() == xorshift_iter(42, 3 * i as nat),
                forall|j: int|
                    0 <= j < i ==> #[trigger] pipes@[j]@ == (PipeModel {
                        segs: Seq::empty(),
                        pos: start_point(xorshift_iter(42, (3 * j) as nat), -3, 3),
                        dir: j,
                        hue: 80 * j,
                    }),
            decreases PIPE_COUNT - i,
        {
            let ghost s = rng.state();
            let x = rng.range_i32(-3, 3);
            let y = rng.range_i32(-3, 3);
            let z = rng.range_i32(-3, 3);
            proof {
                assert(xorshift_iter(s, 0) == s);
                assert(xorshift_iter(s, 1) == xorshift_step(s));
                assert(xorshift_iter(s, 2) == xorshift_step(xorshift_iter(s, 1)));
                assert(xorshift_iter(s, 3) == xorshift_step(xorshift_iter(s, 2)));
                lemma_iter_add(42, 3 * i as nat, 3);
            }
            let pipe = LatticePipe {
                segments: Vec::new(),
                pos: GridPoint { x, y, z },
                dir: i % 6,
                hue: (i as u32) * 80,
            };
            assert(pipe@.segs =~= Seq::<PipeSegment>::empty());
            pipes.push(pipe);
            i = i + 1;
        }
        let net = PipeNetwork { pipes, rng };
        proof {
            assert forall|i: int| 0 <= i < net.models().len() implies pipe_ok(
                #[trigger] net.models()[i],
            ) by {
                assert(net.models()[i] == net.pipes@[i]@);
            }
            assert forall|i: int| 0 <= i < PIPE_COUNT implies #[trigger] net.models()[i] == (
            PipeModel {
                segs: Seq::empty(),
                pos: start_point(xorshift_iter(42, (3 * i) as nat), -3, 3),
                dir: i,
                hue: 80 * i,
            }) by {
                assert(net.models()[i] == net.pipes@[i]@);
            }
        }
        net
    }

    /// Number of pipes.
    pub fn pipe_count(&self) -> (n: usize)
        ensures
            n == self.models().len(),
    {
        self.pipes.len()
    }

    /// Pipe `i`.
    pub fn pipe(&self, i: usize) -> (p: &LatticePipe)
        requires
            i < self.models().len(),
        ensures
            p@ == self.models()[i as int],
    {
        &self.pipes[i]
    }

    /// Grow every pipe by one step, in order (see `grow_from`).
    pub fn grow_all(&mut self)
        requires
            old(self).wf(),
        ensures
            final(self).wf(),
            (final(self).models(), final(self).rng_state()) == grow_from(
                old(self).models(),
                old(self).rng_state(),
                0,
            ),
    {
        let n = self.pipes.len();
        let mut i: usize = 0;
        while i < n
            invariant
                0 <= i <= n,
                n == self.models().len(),
                n == old(self).models().len(),
                self.wf(),
                grow_from(self.models(), self.rng_state(), i as nat) == grow_from(
                    old(self).models(),
                    old(self).rng_state(),
                    0,
                ),
            decreases n - i,
        {
            let ghost before = self.models();
            let ghost s = self.rng_state();
            let mut pipe = self.pipes.remove(i);
            assert(pipe@ == before[i as int]);
            pipe.grow(&mut self.rng);
            self.pipes.insert(i, pipe);
            proof {
                let (p1, s1) = grow_model(before[i as int], s);
                assert(self.models() =~= before.update(i as int, p1));
                assert forall|j: int| 0 <= j < self.models().len() implies pipe_ok(
                    #[trigger] self.models()[j],
                ) by {
                    if j != i {
                        assert(self.models()[j] == before[j]);
                    }
                }
            }
            i = i + 1;
        }
    }
}

/// `n` steps and then `m` more are `n + m` steps.
proof fn lemma_iter_add(s: u64, n: nat, m: nat)
    ensures
        xorshift_iter(xorshift_iter(s, n), m) == xorshift_iter(s, n + m),
    decreases m,
{
    if m > 0 {
        lemma_iter_add(s, n, (m - 1) as nat);
    }
}

/// A direction found by `turn_search` is one of the six and differs from `rev`.
proof fn lemma_turn_search_range(s: u64, rev: int, fuel: nat)
    ensures
        turn_search(s, rev, fuel).0 == -1 || (0 <= turn_search(s, rev, fuel).0 < 6
            && turn_search(s, rev, fuel).0 != rev),
    decreases fuel,
{
    if fuel > 0 {
        lemma_turn_search_range(xorshift_step(s), rev, (fuel - 1) as nat);
    }
}

/// Growing keeps every property of `pipe_ok`: in particular a pipe never doubles back
/// (no segment runs straight back along the one before it, nor does the head's next
/// direction), its segments stay a connected chain of unit steps, it never holds
/// `PIPE_MAX_SEGMENTS` segments, and its head stays within 4 + (segments laid) cells of the
/// origin on each axis.
pub proof fn lemma_grow_keeps_pipe_ok(p: PipeModel, s: u64)
    requires
        pipe_ok(p),
    ensures
        pipe_ok(grow_model(p, s).0),
{
    let q = grow_model(p, s).0;
    let n = p.segs.len() as int;
    let s1 = xorshift_step(s);
    lemma_turn_search_range(s1, reverse_dir(p.dir), u64::MAX as nat);
    if n + 1 < PIPE_MAX_SEGMENTS {
        assert forall|k: int| 0 <= k < n + 1 implies {
            &&& (#[trigger] q.segs[k]).dir < 6
            &&& q.segs[k].hue == q.hue
            &&& q.segs[k].b == stepped(q.segs[k].a, q.segs[k].dir as int)
        } by {
            if k < n {
                assert(q.segs[k] == p.segs[k]);
            }
        }
        assert forall|k: int| 0 <= k < n implies {
            &&& (#[trigger] q.segs[k + 1]).a == q.segs[k].b
            &&& q.segs[k + 1].dir != reverse_dir(q.segs[k].dir as int)
        } by {
            if k + 1 < n {
                assert(q.segs[k + 1] == p.segs[k + 1]);
            }
            assert(q.segs[k] == p.segs[k]);
        }
    }
}

} // verus!
