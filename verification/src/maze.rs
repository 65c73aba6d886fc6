//! The raycaster's 16x16 maze: generation by randomized depth-first search and the
//! choice of a starting cell and heading.

use vstd::prelude::*;
use crate::util::{Rng, xorshift_step};

verus! {

/// Side of the square maze grid.
pub const MAP_SIZE: usize = 16;

/// Whether grid cell `(x, y)` of a 16x16 map is open (`0`).
pub open spec fn is_open(map: Seq<u8>, x: int, y: int) -> bool {
    map[y * 16 + x] == 0
}

/// Number of open 4-neighbours of an open interior cell; 0 for a wall.
pub open spec fn open_score(map: Seq<u8>, x: int, y: int) -> int {
    if !is_open(map, x, y) {
        0
    } else {
        (if is_open(map, x + 1, y) { 1int } else { 0int }) + (if is_open(map, x - 1, y) {
            1int
        } else {
            0int
        }) + (if is_open(map, x, y + 1) { 1int } else { 0int }) + (if is_open(map, x, y - 1) {
            1int
        } else {
            0int
        })
    }
}

/// Interior cells `(x, y)`, `1 <= x, y <= 14`, in row-major scan order: `a` comes before `b`.
pub open spec fn scan_before(a: (int, int), b: (int, int)) -> bool {
    a.1 < b.1 || (a.1 == b.1 && a.0 < b.0)
}

/// An interior cell of the 16x16 grid.
pub open spec fn interior(c: (int, int)) -> bool {
    1 <= c.0 <= 14 && 1 <= c.1 <= 14
}

/// Find an open cell in a corridor: the first interior cell (row-major) with the most
/// open neighbours, or `(1, 1)` when no open interior cell has an open neighbour.
pub fn find_open_cell(map: &[u8]) -> (best: (usize, usize))
    requires
        map@.len() >= 256,
    ensures
        interior((best.0 as int, best.1 as int)),
        forall|x: int, y: int|
            interior((x, y)) ==> #[trigger] open_score(map@, x, y) <= open_score(
                map@,
                best.0 as int,
                best.1 as int,
            ),
        open_score(map@, best.0 as int, best.1 as int) == 0 ==> best == (1usize, 1usize),
        forall|x: int, y: int|
            interior((x, y)) && scan_before((x, y), (best.0 as int, best.1 as int)) ==> #[trigger] open_score(
                map@,
                x,
                y,
            ) < open_score(map@, best.0 as int, best.1 as int),
{
    let mut best: (usize, usize) = (1, 1);
    let mut best_score: u32 = 0;
    let mut y: usize = 1;
    while y < MAP_SIZE - 1
        invariant
            map@.len() >= 256,
            1 <= y <= 15,
            interior((best.0 as int, best.1 as int)),
            best_score > 0 ==> best_score == open_score(map@, best.0 as int, best.1 as int),
            best_score == 0 ==> best == (1usize, 1usize),
            forall|xx: int, yy: int|
                interior((xx, yy)) && yy < y ==> #[trigger] open_score(map@, xx, yy) <= best_score,
            forall|xx: int, yy: int|
                interior((xx, yy)) && yy < y && scan_before((xx, yy), (best.0 as int, best.1 as int))
                    ==> #[trigger] open_score(map@, xx, yy) < best_score,
            best_score > 0 ==> best.1 < y,
        decreases 15 - y,
    {
        let mut x: usize = 1;
        while x < MAP_SIZE - 1
            invariant
                map@.len() >= 256,
                1 <= y <= 14,
                1 <= x <= 15,
                interior((best.0 as int, best.1 as int)),
                best_score > 0 ==> best_score == open_score(map@, best.0 as int, best.1 as int),
                best_score == 0 ==> best == (1usize, 1usize),
                forall|xx: int, yy: int|
                    interior((xx, yy)) && (yy < y || (yy == y && xx < x)) ==> #[trigger] open_score(
                        map@,
                        xx,
                        yy,
                    ) <= best_score,
                forall|xx: int, yy: int|
                    interior((xx, yy)) && (yy < y || (yy == y && xx < x)) && scan_before(
                        (xx, yy),
                        (best.0 as int, best.1 as int),
                    ) ==> #[trigger] open_score(map@, xx, yy) < best_score,
                best_score > 0 ==> scan_before((best.0 as int, best.1 as int), (x as int, y as int)),
            decreases 15 - x,
        {
            if map[y * MAP_SIZE + x] == 0 {
                let mut score: u32 = 0;
                if map[y * MAP_SIZE + (x + 1)] == 0 {
                    score = score + 1;
                }
                if map[y * MAP_SIZE + (x - 1)] == 0 {
                    score = score + 1;
                }
                if map[(y + 1) * MAP_SIZE + x] == 0 {
                    score = score + 1;
                }
                if map[(y - 1) * MAP_SIZE + x] == 0 {
                    score = score + 1;
                }
                assert(score == open_score(map@, x as int, y as int));
                if score > best_score {
                    best_score = score;
                    best = (x, y);
                }
            }
            x = x + 1;
        }
        y = y + 1;
    }
    best
}

/// Number of open cells met stepping from `(x, y)` by `(dx, dy)` before a wall or the
/// edge of the grid (looking at most `fuel` steps ahead).
pub open spec fn open_run(map: Seq<u8>, x: int, y: int, dx: int, dy: int, fuel: nat) -> nat
    decreases fuel,
{
    let nx = x + dx;
    let ny = y + dy;
    if fuel == 0 || nx < 0 || ny < 0 || nx >= 16 || ny >= 16 || map[ny * 16 + nx] == 1 {
        0
    } else {
        1 + open_run(map, nx, ny, dx, dy, (fuel - 1) as nat)
    }
}

/// The unit step of heading `d`: 0 east, 1 south, 2 west, 3 north.
pub open spec fn heading_step(d: int) -> (int, int) {
    if d == 0 {
        (1, 0)
    } else if d == 1 {
        (0, 1)
    } else if d == 2 {
        (-1, 0)
    } else {
        (0, -1)
    }
}

/// Length of the open run from `(cx, cy)` along heading `d`.
pub open spec fn heading_run(map: Seq<u8>, cx: int, cy: int, d: int) -> nat {
    open_run(map, cx, cy, heading_step(d).0, heading_step(d).1, 16)
}

/// Count the open cells from `(x, y)` along `(dx, dy)` up to the first wall or the edge.
fn run_length(map: &[u8], x0: i32, y0: i32, dx: i32, dy: i32) -> (n: u32)
    requires
        map@.len() >= 256,
        0 <= x0 < 16,
        0 <= y0 < 16,
        (dx, dy) == (1i32, 0i32) || (dx, dy) == (0i32, 1i32) || (dx, dy) == (-1i32, 0i32) || (dx, dy) == (0i32, -1i32),
    ensures
        n == open_run(map@, x0 as int, y0 as int, dx as int, dy as int, 16),
{
    let mut dist: u32 = 0;
    let mut x = x0;
    let mut y = y0;
    let ghost mut fuel: nat = 16;
    loop
        invariant
            map@.len() >= 256,
            0 <= x < 16,
            0 <= y < 16,
            (dx, dy) == (1i32, 0i32) || (dx, dy) == (0i32, 1i32) || (dx, dy) == (-1i32, 0i32) || (dx, dy) == (0i32, -1i32),
            dist + fuel == 16,
            dx == 1 ==> x + fuel >= 16,
            dx == -1 ==> fuel >= x + 1,
            dy == 1 ==> y + fuel >= 16,
            dy == -1 ==> fuel >= y + 1,
            dist + open_run(map@, x as int, y as int, dx as int, dy as int, fuel) == open_run(
                map@,
                x0 as int,
                y0 as int,
                dx as int,
                dy as int,
                16,
            ),
        decreases fuel,
    {
        let nx = x + dx;
        let ny = y + dy;
        if nx < 0 || ny < 0 || nx >= MAP_SIZE as i32 || ny >= MAP_SIZE as i32 {
            return dist;
        }
        if map[ny as usize * MAP_SIZE + nx as usize] == 1 {
            return dist;
        }
        x = nx;
        y = ny;
        dist = dist + 1;
        proof {
            fuel = (fuel - 1) as nat;
        }
    }
}

/// The heading with the most open space from cell `(cx, cy)`: 0 east, 1 south, 2 west,
/// 3 north; the first of the longest runs, and east when every run is empty.
pub fn find_open_direction(map: &[u8], cx: usize, cy: usize) -> (d: usize)
    requires
        map@.len() >= 256,
        cx < MAP_SIZE,
        cy < MAP_SIZE,
    ensures
        d < 4,
        forall|e: int| 0 <= e < 4 ==> #[trigger] heading_run(map@, cx as int, cy as int, e) <= heading_run(
            map@,
            cx as int,
            cy as int,
            d as int,
        ),
        forall|e: int| 0 <= e < d ==> #[trigger] heading_run(map@, cx as int, cy as int, e) < heading_run(
            map@,
            cx as int,
            cy as int,
            d as int,
        ),
{
    let dirs: [(i32, i32); 4] = [(1, 0), (0, 1), (-1, 0), (0, -1)];
    let mut best: usize = 0;
    let mut best_dist: u32 = 0;
    let mut i: usize = 0;
    while i < 4
        invariant
            map@.len() >= 256,
            cx < 16,
            cy < 16,
            dirs@ == seq![(1i32, 0i32), (0i32, 1i32), (-1i32, 0i32), (0i32, -1i32)],
            i <= 4,
            best < 4,
            best_dist == 0 ==> best == 0,
            best_dist > 0 ==> best < i && best_dist == heading_run(map@, cx as int, cy as int, best as int),
            forall|e: int| 0 <= e < i ==> #[trigger] heading_run(map@, cx as int, cy as int, e) <= best_dist,
            forall|e: int| 0 <= e < best ==> #[trigger] heading_run(map@, cx as int, cy as int, e) < best_dist,
        decreases 4 - i,
    {
        let (dx, dy) = dirs[i];
        let dist = run_length(map, cx as i32, cy as i32, dx, dy);
        if dist > best_dist {
            best_dist = dist;
            best = i;
        }
        i = i + 1;
    }
    proof {
        if best_dist == 0 {
            assert(heading_run(map@, cx as int, cy as int, 0) <= 0);
        }
    }
    best
}

/// Whether grid position `(x, y)` blocks movement: outside the grid, or a wall cell (`1`).
pub open spec fn is_wall_spec(map: Seq<u8>, x: int, y: int) -> bool {
    x < 0 || y < 0 || x >= 16 || y >= 16 || map[y * 16 + x] == 1
}

/// Whether grid position `(x, y)` blocks movement: outside the grid, or a wall cell.
pub fn is_wall(map: &[u8], x: i32, y: i32) -> (b: bool)
    requires
        map@.len() >= 256,
    ensures
        b == is_wall_spec(map@, x as int, y as int),
{
    if x < 0 || y < 0 || x >= MAP_SIZE as i32 || y >= MAP_SIZE as i32 {
        return true;
    }
    map[y as usize * MAP_SIZE + x as usize] == 1
}

// ============================================================================
// Maze generation (recursive backtracker with an explicit stack)
// ============================================================================

/// Maze cells per side: cell `(cx, cy)` sits at grid position `(2cx + 1, 2cy + 1)`.
pub const CELLS: usize = 7;

/// The generator's state: grid, visited cells (row-major, 7x7), the stack of cells, and
/// the random generator state.
pub type MazeState = (Seq<u8>, Seq<bool>, Seq<(int, int)>, u64);

/// The unvisited neighbours of cell `(cx, cy)` in the order west, east, north, south.
pub open spec fn maze_neighbors(vis: Seq<bool>, cx: int, cy: int) -> Seq<(int, int)> {
    let s0: Seq<(int, int)> = seq![];
    let s1 = if cx > 0 && !vis[cy * 7 + (cx - 1)] { s0.push((cx - 1, cy)) } else { s0 };
    let s2 = if cx + 1 < 7 && !vis[cy * 7 + (cx + 1)] { s1.push((cx + 1, cy)) } else { s1 };
    let s3 = if cy > 0 && !vis[(cy - 1) * 7 + cx] { s2.push((cx, cy - 1)) } else { s2 };
    if cy + 1 < 7 && !vis[(cy + 1) * 7 + cx] { s3.push((cx, cy + 1)) } else { s3 }
}

/// One step of the backtracker from a non-empty stack: with no unvisited neighbour the
/// top cell is popped; otherwise a neighbour is chosen by `next_u32() % count`, the wall
/// between the cells and the neighbour's cell are opened, and the neighbour is visited
/// and pushed.
pub open spec fn maze_step(st: MazeState) -> MazeState {
    let (grid, vis, stack, rng) = st;
    let c = stack.last();
    let nb = maze_neighbors(vis, c.0, c.1);
    if nb.len() == 0 {
        (grid, vis, stack.drop_last(), rng)
    } else {
        let rng2 = xorshift_step(rng);
        let idx = (rng2 as u32) as int % (nb.len() as int);
        let n = nb[idx];
        let g1 = grid.update((c.1 + n.1 + 1) * 16 + (c.0 + n.0 + 1), 0u8);
        let g2 = g1.update((n.1 * 2 + 1) * 16 + (n.0 * 2 + 1), 0u8);
        (g2, vis.update(n.1 * 7 + n.0, true), stack.push(n), rng2)
    }
}

/// Run the backtracker until the stack is empty (at most `fuel` steps).
pub open spec fn maze_run(st: MazeState, fuel: nat) -> MazeState
    decreases fuel,
{
    if fuel == 0 || st.2.len() == 0 {
        st
    } else {
        maze_run(maze_step(st), (fuel - 1) as nat)
    }
}

/// The starting state: all walls but cell (0, 0), which is visited and on the stack.
pub open spec fn maze_init(rng: u64) -> MazeState {
    (
        Seq::new(256, |i: int| 1u8).update(17, 0u8),
        Seq::new(49, |i: int| i == 0),
        seq![(0int, 0int)],
        rng,
    )
}

/// Number of `false` entries.
pub open spec fn count_unvisited(v: Seq<bool>) -> nat
    decreases v.len(),
{
    if v.len() == 0 {
        0
    } else {
        count_unvisited(v.drop_last()) + if v.last() { 0nat } else { 1nat }
    }
}

proof fn lemma_count_update(v: Seq<bool>, i: int)
    requires
        0 <= i < v.len(),
        !v[i],
    ensures
        count_unvisited(v.update(i, true)) + 1 == count_unvisited(v),
    decreases v.len(),
{
    if i < v.len() - 1 {
        lemma_count_update(v.drop_last(), i);
        assert(v.update(i, true).drop_last() =~= v.drop_last().update(i, true));
    } else {
        assert(v.update(i, true).drop_last() =~= v.drop_last());
    }
}

proof fn lemma_count_bound(v: Seq<bool>)
    ensures
        count_unvisited(v) <= v.len(),
    decreases v.len(),
{
    if v.len() > 0 {
        lemma_count_bound(v.drop_last());
    }
}

/// The unvisited neighbours of cell `(cx, cy)`: west, east, north, south.
fn unvisited_neighbors(visited: &Vec<bool>, cx: usize, cy: usize) -> (nb: Vec<(usize, usize)>)
    requires
        visited@.len() == 49,
        cx < 7,
        cy < 7,
    ensures
        nb@.map_values(|c: (usize, usize)| (c.0 as int, c.1 as int)) == maze_neighbors(
            visited@,
            cx as int,
            cy as int,
        ),
        nb@.len() <= 4,
        forall|k: int| 0 <= k < nb@.len() ==> (#[trigger] nb@[k]).0 < 7 && nb@[k].1 < 7,
{
    let cells_w: usize = 7;
    let cells_h: usize = 7;
    let mut neighbors: Vec<(usize, usize)> = Vec::new();
    if cx > 0 && !visited[cy * cells_w + (cx - 1)] {
        neighbors.push((cx - 1, cy));
    }
    if cx + 1 < cells_w && !visited[cy * cells_w + (cx + 1)] {
        neighbors.push((cx + 1, cy));
    }
    if cy > 0 && !visited[(cy - 1) * cells_w + cx] {
        neighbors.push((cx, cy - 1));
    }
    if cy + 1 < cells_h && !visited[(cy + 1) * cells_w + cx] {
        neighbors.push((cx, cy + 1));
    }
    assert(neighbors@.map_values(|c: (usize, usize)| (c.0 as int, c.1 as int)) =~= maze_neighbors(
        visited@,
        cx as int,
        cy as int,
    ));
    neighbors
}

/// Generate a maze with the recursive backtracker. The result is the grid of the run
/// from `maze_init`; the generator ends in the run's final random state. Every one of
/// the 7x7 cells is open and every position outside the cell block is a wall.
#[verifier::spinoff_prover]
#[verifier::rlimit(50)]
pub fn generate_maze(rng: &mut Rng) -> (grid: Vec<u8>)
    ensures
        grid@ == maze_run(maze_init(old(rng).state()), 100).0,
        final(rng).state() == maze_run(maze_init(old(rng).state()), 100).3,
        maze_run(maze_init(old(rng).state()), 100).2.len() == 0,
        grid@.len() == 256,
        forall|cx: int, cy: int| is_cell(cx, cy) ==> #[trigger] grid_at(grid@, 2 * cx + 1, 2 * cy + 1) == 0,
        forall|x: int, y: int|
            0 <= x < 16 && 0 <= y < 16 && !in_cell_block(x, y) ==> #[trigger] grid_at(grid@, x, y) == 1,
{
    let mut grid: Vec<u8> = vec![1u8; MAP_SIZE * MAP_SIZE];
    let cells_w: usize = (MAP_SIZE - 1) / 2;
    let cells_h: usize = (MAP_SIZE - 1) / 2;
    assert(cells_w == 7 && cells_h == 7);
    let mut visited: Vec<bool> = vec![false; cells_w * cells_h];
    visited.set(0, true);
    grid.set(1 * MAP_SIZE + 1, 0);
    let mut stack: Vec<(usize, usize)> = Vec::new();
    stack.push((0, 0));
    let ghost init = maze_init(old(rng).state());
    let ghost mut fuel: nat = 100;
    proof {
        assert(grid@ =~= init.0);
        assert(visited@ =~= init.1);
        assert(stack@.map_values(|c: (usize, usize)| (c.0 as int, c.1 as int)) =~= init.2);
        let z = Seq::new(49, |i: int| false);
        assert forall|n: nat| n <= 49 implies count_unvisited(#[trigger] z.subrange(0, n as int)) == n by {
            lemma_count_all_false(n);
            assert(z.subrange(0, n as int) =~= Seq::new(n, |i: int| false));
        }
        assert(z.subrange(0, 49) =~= z);
        lemma_count_update(z, 0);
        assert(z.update(0, true) =~= init.1);
    }
    while stack.len() > 0
        invariant
            grid@.len() == 256,
            visited@.len() == 49,
            cells_w == 7,
            cells_h == 7,
            forall|k: int| 0 <= k < stack@.len() ==> (#[trigger] stack@[k]).0 < 7 && stack@[k].1 < 7,
            fuel >= 2 * count_unvisited(visited@) + stack@.len(),
            fuel <= 100,
            maze_run(
                (grid@, visited@, stack@.map_values(|c: (usize, usize)| (c.0 as int, c.1 as int)), rng.state()),
                fuel,
            ) == maze_run(init, 100),
        decreases 2 * count_unvisited(visited@) + stack@.len(),
    {
        let ghost st = (
            grid@,
            visited@,
            stack@.map_values(|c: (usize, usize)| (c.0 as int, c.1 as int)),
            rng.state(),
        );
        let top = stack[stack.len() - 1];
        let cx = top.0;
        let cy = top.1;
        let neighbors = unvisited_neighbors(&visited, cx, cy);
        let ghost nb = maze_neighbors(visited@, cx as int, cy as int);
        proof {
            assert(st.2.last() == (cx as int, cy as int));
            assert(maze_run(st, fuel) == maze_run(maze_step(st), (fuel - 1) as nat));
        }
        if neighbors.len() == 0 {
            stack.pop();
            proof {
                assert(stack@.map_values(|c: (usize, usize)| (c.0 as int, c.1 as int)) =~= st.2.drop_last());
                fuel = (fuel - 1) as nat;
            }
        } else {
            let r = rng.next_u32();
            let idx = r as usize % neighbors.len();
            let (nx, ny) = neighbors[idx];
            proof {
                assert(neighbors@.map_values(|c: (usize, usize)| (c.0 as int, c.1 as int))[idx as int] == (nx as int, ny as int));
                assert(nb[idx as int] == (nx as int, ny as int));
                assert(!visited@[ny * 7 + nx]);
                lemma_count_update(visited@, ny * 7 + nx);
            }
            let wall_gx = cx + nx + 1;
            let wall_gy = cy + ny + 1;
            grid.set(wall_gy * MAP_SIZE + wall_gx, 0);
            let dest_gx = nx * 2 + 1;
            let dest_gy = ny * 2 + 1;
            grid.set(dest_gy * MAP_SIZE + dest_gx, 0);
            visited.set(ny * cells_w + nx, true);
            stack.push((nx, ny));
            proof {
                lemma_count_bound(visited@);
                assert(stack@.map_values(|c: (usize, usize)| (c.0 as int, c.1 as int)) =~= st.2.push(
                    (nx as int, ny as int),
                ));
                fuel = (fuel - 1) as nat;
            }
        }
    }
    proof {
        assert(stack@.map_values(|c: (usize, usize)| (c.0 as int, c.1 as int)) =~= Seq::<(int, int)>::empty());
        lemma_generated_maze_shape(init.3);
    }
    grid
}

proof fn lemma_count_all_false(n: nat)
    ensures
        count_unvisited(Seq::new(n, |i: int| false)) == n,
    decreases n,
{
    if n > 0 {
        lemma_count_all_false((n - 1) as nat);
        assert(Seq::new(n, |i: int| false).drop_last() =~= Seq::new((n - 1) as nat, |i: int| false));
    }
}


// ============================================================================
// What every generated maze looks like
// ============================================================================

/// Whether `(cx, cy)` is one of the 7x7 maze cells.
pub open spec fn is_cell(cx: int, cy: int) -> bool {
    0 <= cx < 7 && 0 <= cy < 7
}

/// The grid value at position `(x, y)` of a 16x16 map.
pub open spec fn grid_at(grid: Seq<u8>, x: int, y: int) -> u8 {
    grid[y * 16 + x]
}

/// Whether grid position `(x, y)` lies in the block that the cells and the walls between
/// them occupy: columns and rows 1 to 13.
pub open spec fn in_cell_block(x: int, y: int) -> bool {
    1 <= x <= 13 && 1 <= y <= 13
}

/// Whether maze cell `(cx, cy)` has been visited.
spec fn visited_at(vis: Seq<bool>, cx: int, cy: int) -> bool {
    vis[cy * 7 + cx]
}

spec fn cell_ok(c: (int, int)) -> bool {
    is_cell(c.0, c.1)
}

/// Every neighbour of cell `(cx, cy)` inside the 7x7 block has been visited.
spec fn all_nb_visited(vis: Seq<bool>, cx: int, cy: int) -> bool {
    &&& (cx > 0 ==> visited_at(vis, cx - 1, cy))
    &&& (cx + 1 < 7 ==> visited_at(vis, cx + 1, cy))
    &&& (cy > 0 ==> visited_at(vis, cx, cy - 1))
    &&& (cy + 1 < 7 ==> visited_at(vis, cx, cy + 1))
}

/// What holds of the generator's state at every step: the grid keeps its size and its
/// walls outside the cell block, a visited cell is open, the start cell is visited, the
/// stack holds cells, and a visited cell that has left the stack has no unvisited
/// neighbour.
spec fn state_ok(st: MazeState) -> bool {
    let (grid, vis, stack, rng) = st;
    &&& grid.len() == 256
    &&& vis.len() == 49
    &&& visited_at(vis, 0, 0)
    &&& forall|k: int| 0 <= k < stack.len() ==> #[trigger] cell_ok(stack[k])
    &&& forall|x: int, y: int|
        0 <= x < 16 && 0 <= y < 16 && !in_cell_block(x, y) ==> #[trigger] grid_at(grid, x, y) == 1
    &&& forall|cx: int, cy: int|
        is_cell(cx, cy) && #[trigger] visited_at(vis, cx, cy) ==> grid_at(grid, 2 * cx + 1, 2 * cy + 1) == 0
    &&& forall|cx: int, cy: int|
        is_cell(cx, cy) && #[trigger] visited_at(vis, cx, cy) && !stack.contains((cx, cy))
            ==> all_nb_visited(vis, cx, cy)
}

proof fn lemma_neighbors(vis: Seq<bool>, cx: int, cy: int)
    requires
        vis.len() == 49,
        is_cell(cx, cy),
    ensures
        maze_neighbors(vis, cx, cy).len() == 0 <==> all_nb_visited(vis, cx, cy),
        maze_neighbors(vis, cx, cy).len() <= 4,
        forall|k: int| 0 <= k < maze_neighbors(vis, cx, cy).len() ==> {
            let n = #[trigger] maze_neighbors(vis, cx, cy)[k];
            &&& is_cell(n.0, n.1)
            &&& !visited_at(vis, n.0, n.1)
            &&& (n == (cx - 1, cy) || n == (cx + 1, cy) || n == (cx, cy - 1) || n == (cx, cy + 1))
        },
{
}

proof fn lemma_pop_ok(st: MazeState)
    requires
        state_ok(st),
        st.2.len() > 0,
        all_nb_visited(st.1, st.2.last().0, st.2.last().1),
    ensures
        state_ok((st.0, st.1, st.2.drop_last(), st.3)),
{
    let (grid, vis, stack, rng) = st;
    let c = stack.last();
    let ns = stack.drop_last();
    assert forall|k: int| 0 <= k < ns.len() implies #[trigger] cell_ok(ns[k]) by {
        assert(cell_ok(stack[k]));
    }
    assert forall|cx: int, cy: int|
        is_cell(cx, cy) && #[trigger] visited_at(vis, cx, cy) && !ns.contains((cx, cy)) implies all_nb_visited(
        vis,
        cx,
        cy,
    ) by {
        if (cx, cy) != c {
            if stack.contains((cx, cy)) {
                let i = choose|i: int| 0 <= i < stack.len() && stack[i] == (cx, cy);
                assert(ns[i] == (cx, cy));
            }
        }
    }
}

proof fn lemma_push_grid(grid: Seq<u8>, c: (int, int), n: (int, int))
    requires
        grid.len() == 256,
        is_cell(c.0, c.1),
        is_cell(n.0, n.1),
        forall|x: int, y: int|
            0 <= x < 16 && 0 <= y < 16 && !in_cell_block(x, y) ==> #[trigger] grid_at(grid, x, y) == 1,
    ensures
        ({
            let g2 = grid.update((c.1 + n.1 + 1) * 16 + (c.0 + n.0 + 1), 0u8).update(
                (n.1 * 2 + 1) * 16 + (n.0 * 2 + 1),
                0u8,
            );
            &&& g2.len() == 256
            &&& grid_at(g2, 2 * n.0 + 1, 2 * n.1 + 1) == 0
            &&& forall|x: int, y: int|
                0 <= x < 16 && 0 <= y < 16 && !in_cell_block(x, y) ==> #[trigger] grid_at(g2, x, y) == 1
            &&& forall|i: int| 0 <= i < 256 && grid[i] == 0 ==> #[trigger] g2[i] == 0
        }),
{
    let wpos = (c.1 + n.1 + 1) * 16 + (c.0 + n.0 + 1);
    let npos = (n.1 * 2 + 1) * 16 + (n.0 * 2 + 1);
    let g2 = grid.update(wpos, 0u8).update(npos, 0u8);
    assert forall|x: int, y: int|
        0 <= x < 16 && 0 <= y < 16 && !in_cell_block(x, y) implies #[trigger] grid_at(g2, x, y) == 1 by {
        assert(grid_at(grid, x, y) == 1);
        assert(y * 16 + x != wpos);
        assert(y * 16 + x != npos);
    }
}

#[verifier::rlimit(30)]
proof fn lemma_push_ok(st: MazeState, n: (int, int), rng2: u64)
    requires
        state_ok(st),
        st.2.len() > 0,
        is_cell(n.0, n.1),
        !visited_at(st.1, n.0, n.1),
    ensures
        ({
            let (grid, vis, stack, rng) = st;
            let c = stack.last();
            state_ok(
                (
                    grid.update((c.1 + n.1 + 1) * 16 + (c.0 + n.0 + 1), 0u8).update(
                        (n.1 * 2 + 1) * 16 + (n.0 * 2 + 1),
                        0u8,
                    ),
                    vis.update(n.1 * 7 + n.0, true),
                    stack.push(n),
                    rng2,
                ),
            )
        }),
{
    let (grid, vis, stack, rng) = st;
    let c = stack.last();
    assert(cell_ok(stack[stack.len() - 1]));
    lemma_push_grid(grid, c, n);
    let g2 = grid.update((c.1 + n.1 + 1) * 16 + (c.0 + n.0 + 1), 0u8).update(
        (n.1 * 2 + 1) * 16 + (n.0 * 2 + 1),
        0u8,
    );
    let v2 = vis.update(n.1 * 7 + n.0, true);
    let s2 = stack.push(n);
    assert forall|k: int| 0 <= k < s2.len() implies #[trigger] cell_ok(s2[k]) by {
        if k < stack.len() {
            assert(cell_ok(stack[k]));
        }
    }
    assert forall|cx: int, cy: int| is_cell(cx, cy) && #[trigger] visited_at(v2, cx, cy) implies grid_at(
        g2,
        2 * cx + 1,
        2 * cy + 1,
    ) == 0 by {
        if (cx, cy) != n {
            assert(visited_at(vis, cx, cy));
            assert(grid[(2 * cy + 1) * 16 + 2 * cx + 1] == 0);
        }
    }
    assert forall|cx: int, cy: int|
        is_cell(cx, cy) && #[trigger] visited_at(v2, cx, cy) && !s2.contains((cx, cy)) implies all_nb_visited(
        v2,
        cx,
        cy,
    ) by {
        assert(s2[s2.len() - 1] == n);
        if (cx, cy) == n {
            assert(s2.contains((cx, cy)));
        } else {
            assert(visited_at(vis, cx, cy));
            if stack.contains((cx, cy)) {
                let i = choose|i: int| 0 <= i < stack.len() && stack[i] == (cx, cy);
                assert(s2[i] == (cx, cy));
            }
            assert(all_nb_visited(vis, cx, cy));
        }
    }
}

proof fn lemma_step_ok(st: MazeState)
    requires
        state_ok(st),
        st.2.len() > 0,
    ensures
        state_ok(maze_step(st)),
{
    let (grid, vis, stack, rng) = st;
    let c = stack.last();
    assert(cell_ok(stack[stack.len() - 1]));
    lemma_neighbors(vis, c.0, c.1);
    let nb = maze_neighbors(vis, c.0, c.1);
    if nb.len() == 0 {
        lemma_pop_ok(st);
    } else {
        let rng2 = xorshift_step(rng);
        let idx = (rng2 as u32) as int % (nb.len() as int);
        let n = nb[idx];
        lemma_push_ok(st, n, rng2);
    }
}

proof fn lemma_run_ok(st: MazeState, fuel: nat)
    requires
        state_ok(st),
    ensures
        state_ok(maze_run(st, fuel)),
    decreases fuel,
{
    if fuel > 0 && st.2.len() > 0 {
        lemma_step_ok(st);
        lemma_run_ok(maze_step(st), (fuel - 1) as nat);
    }
}

proof fn lemma_run_empties(st: MazeState, fuel: nat)
    requires
        state_ok(st),
        fuel >= 2 * count_unvisited(st.1) + st.2.len(),
    ensures
        maze_run(st, fuel).2.len() == 0,
    decreases fuel,
{
    if st.2.len() > 0 {
        let (grid, vis, stack, rng) = st;
        let c = stack.last();
        assert(cell_ok(stack[stack.len() - 1]));
        lemma_neighbors(vis, c.0, c.1);
        lemma_step_ok(st);
        let nb = maze_neighbors(vis, c.0, c.1);
        if nb.len() > 0 {
            let idx = (xorshift_step(rng) as u32) as int % (nb.len() as int);
            let n = nb[idx];
            lemma_count_update(vis, n.1 * 7 + n.0);
        }
        lemma_run_empties(maze_step(st), (fuel - 1) as nat);
    }
}

proof fn lemma_visited_from_start(vis: Seq<bool>, cx: int, cy: int)
    requires
        vis.len() == 49,
        visited_at(vis, 0, 0),
        forall|x: int, y: int| is_cell(x, y) && #[trigger] visited_at(vis, x, y) ==> all_nb_visited(vis, x, y),
        is_cell(cx, cy),
    ensures
        visited_at(vis, cx, cy),
    decreases cx + cy,
{
    if cy > 0 {
        lemma_visited_from_start(vis, cx, cy - 1);
    } else if cx > 0 {
        lemma_visited_from_start(vis, cx - 1, cy);
    }
}

/// Position `p` of the 16x16 grid is open (a passage, `0`).
pub open spec fn open_at(grid: Seq<u8>, p: (int, int)) -> bool {
    0 <= p.0 < 16 && 0 <= p.1 < 16 && grid_at(grid, p.0, p.1) == 0
}

/// `q` is one step north, south, east or west of `p`.
pub open spec fn step4(p: (int, int), q: (int, int)) -> bool {
    ||| q == (p.0 + 1, p.1)
    ||| q == (p.0 - 1, p.1)
    ||| q == (p.0, p.1 + 1)
    ||| q == (p.0, p.1 - 1)
}

/// `path` walks through open positions of `grid` from the start position `(1, 1)`, one
/// step north, south, east or west at a time.
pub open spec fn open_path(grid: Seq<u8>, path: Seq<(int, int)>) -> bool {
    &&& path.len() >= 1
    &&& path[0] == (1int, 1int)
    &&& forall|k: int| 0 <= k < path.len() ==> open_at(grid, #[trigger] path[k])
    &&& forall|k: int| 0 <= k < path.len() - 1 ==> step4(#[trigger] path[k], path[k + 1])
}

/// Position `p` can be reached from `(1, 1)` through open positions of `grid`.
pub open spec fn reachable(grid: Seq<u8>, p: (int, int)) -> bool {
    exists|path: Seq<(int, int)>| open_path(grid, path) && path.last() == p
}

/// The grid position of cell `c`.
spec fn cell_pos(c: (int, int)) -> (int, int) {
    (2 * c.0 + 1, 2 * c.1 + 1)
}

/// During generation every open position is reachable from the start, and the cells on
/// the stack are open.
spec fn reach_ok(st: MazeState) -> bool {
    let (grid, vis, stack, rng) = st;
    &&& forall|x: int, y: int| open_at(grid, (x, y)) ==> #[trigger] reachable(grid, (x, y))
    &&& forall|k: int| 0 <= k < stack.len() ==> open_at(grid, cell_pos(#[trigger] stack[k]))
}

/// A path stays a path when the grid only gains passages.
proof fn lemma_path_grows(g: Seq<u8>, g2: Seq<u8>, path: Seq<(int, int)>)
    requires
        open_path(g, path),
        g.len() == 256,
        g2.len() == 256,
        forall|i: int| 0 <= i < 256 && g[i] == 0 ==> #[trigger] g2[i] == 0,
    ensures
        open_path(g2, path),
{
    reveal(open_path);
    assert forall|k: int| 0 <= k < path.len() implies open_at(g2, #[trigger] path[k]) by {
        assert(open_at(g, path[k]));
        let i = path[k].1 * 16 + path[k].0;
        assert(0 <= i < 256);
        assert(g[i] == 0);
    }
}

/// Extending a path by a step to an open position.
proof fn lemma_path_push(g: Seq<u8>, path: Seq<(int, int)>, q: (int, int))
    requires
        open_path(g, path),
        open_at(g, q),
        step4(path.last(), q),
    ensures
        open_path(g, path.push(q)),
        path.push(q).last() == q,
{
    reveal(open_path);
    let p2 = path.push(q);
    assert forall|k: int| 0 <= k < p2.len() implies open_at(g, #[trigger] p2[k]) by {
        if k < path.len() {
            assert(p2[k] == path[k]);
        }
    }
    assert forall|k: int| 0 <= k < p2.len() - 1 implies step4(#[trigger] p2[k], p2[k + 1]) by {
        if k < path.len() - 1 {
            assert(p2[k] == path[k]);
            assert(p2[k + 1] == path[k + 1]);
        } else {
            assert(p2[k] == path.last());
        }
    }
}

/// Positions reachable before the grid gains passages stay reachable.
proof fn lemma_reach_grows(grid: Seq<u8>, g2: Seq<u8>)
    requires
        grid.len() == 256,
        g2.len() == 256,
        forall|i: int| 0 <= i < 256 && grid[i] == 0 ==> #[trigger] g2[i] == 0,
        forall|x: int, y: int| open_at(grid, (x, y)) ==> #[trigger] reachable(grid, (x, y)),
    ensures
        forall|x: int, y: int| open_at(grid, (x, y)) ==> #[trigger] reachable(g2, (x, y)),
{
    assert forall|x: int, y: int| open_at(grid, (x, y)) implies #[trigger] reachable(g2, (x, y)) by {
        assert(reachable(grid, (x, y)));
        let px = choose|path: Seq<(int, int)>| open_path(grid, path) && path.last() == (x, y);
        lemma_path_grows(grid, g2, px);
    }
}

/// After knocking through wall `w` next to reachable position `cp` and then opening the
/// cell position `np` next to `w`, every position open in the new grid is reachable.
#[verifier::rlimit(50)]
proof fn lemma_reach_knock(grid: Seq<u8>, g2: Seq<u8>, cp: (int, int), w: (int, int), np: (int, int))
    requires
        grid.len() == 256,
        g2.len() == 256,
        g2 == grid.update(w.1 * 16 + w.0, 0u8).update(np.1 * 16 + np.0, 0u8),
        0 <= w.0 < 16 && 0 <= w.1 < 16,
        0 <= np.0 < 16 && 0 <= np.1 < 16,
        step4(cp, w),
        step4(w, np),
        forall|i: int| 0 <= i < 256 && grid[i] == 0 ==> #[trigger] g2[i] == 0,
        reachable(grid, cp),
        forall|x: int, y: int| open_at(grid, (x, y)) ==> #[trigger] reachable(grid, (x, y)),
    ensures
        forall|x: int, y: int| open_at(g2, (x, y)) ==> #[trigger] reachable(g2, (x, y)),
{
    lemma_reach_grows(grid, g2);
    let pc = choose|path: Seq<(int, int)>| open_path(grid, path) && path.last() == cp;
    lemma_path_grows(grid, g2, pc);
    assert(open_at(g2, w));
    lemma_path_push(g2, pc, w);
    let pw = pc.push(w);
    assert(open_at(g2, np));
    lemma_path_push(g2, pw, np);
    let pn = pw.push(np);
    assert forall|x: int, y: int| open_at(g2, (x, y)) implies #[trigger] reachable(g2, (x, y)) by {
        if (x, y) == w {
            assert(open_path(g2, pw) && pw.last() == (x, y));
        } else if (x, y) == np {
            assert(open_path(g2, pn) && pn.last() == (x, y));
        } else {
            let i = y * 16 + x;
            assert(i != w.1 * 16 + w.0);
            assert(i != np.1 * 16 + np.0);
            assert(grid[i] == g2[i]);
            assert(open_at(grid, (x, y)));
        }
    }
}

/// Knocking through from cell `c` to its neighbour `n` keeps every open position
/// reachable and the stack's cells open.
proof fn lemma_reach_push(grid: Seq<u8>, stack: Seq<(int, int)>, n: (int, int))
    requires
        grid.len() == 256,
        stack.len() > 0,
        is_cell(stack.last().0, stack.last().1),
        is_cell(n.0, n.1),
        ({
            let c = stack.last();
            n == (c.0 - 1, c.1) || n == (c.0 + 1, c.1) || n == (c.0, c.1 - 1) || n == (c.0, c.1 + 1)
        }),
        forall|x: int, y: int|
            0 <= x < 16 && 0 <= y < 16 && !in_cell_block(x, y) ==> #[trigger] grid_at(grid, x, y) == 1,
        forall|x: int, y: int| open_at(grid, (x, y)) ==> #[trigger] reachable(grid, (x, y)),
        forall|k: int| 0 <= k < stack.len() ==> open_at(grid, cell_pos(#[trigger] stack[k])),
    ensures
        ({
            let c = stack.last();
            let g2 = grid.update((c.1 + n.1 + 1) * 16 + (c.0 + n.0 + 1), 0u8).update(
                (n.1 * 2 + 1) * 16 + (n.0 * 2 + 1),
                0u8,
            );
            &&& forall|x: int, y: int| open_at(g2, (x, y)) ==> #[trigger] reachable(g2, (x, y))
            &&& forall|k: int|
                0 <= k < stack.push(n).len() ==> open_at(g2, cell_pos(#[trigger] stack.push(n)[k]))
        }),
{
    let c = stack.last();
    let w = (c.0 + n.0 + 1, c.1 + n.1 + 1);
    let np = cell_pos(n);
    let g2 = grid.update((c.1 + n.1 + 1) * 16 + (c.0 + n.0 + 1), 0u8).update(
        (n.1 * 2 + 1) * 16 + (n.0 * 2 + 1),
        0u8,
    );
    lemma_push_grid(grid, c, n);
    let cp = cell_pos(c);
    assert(stack[stack.len() - 1] == c);
    assert(open_at(grid, cp));
    assert(reachable(grid, cp));
    assert(g2 == grid.update(w.1 * 16 + w.0, 0u8).update(np.1 * 16 + np.0, 0u8));
    lemma_reach_knock(grid, g2, cp, w, np);
    let s2 = stack.push(n);
    assert forall|k: int| 0 <= k < s2.len() implies open_at(g2, cell_pos(#[trigger] s2[k])) by {
        if k < stack.len() {
            assert(s2[k] == stack[k]);
            let q = cell_pos(stack[k]);
            assert(open_at(grid, q));
            assert(grid[q.1 * 16 + q.0] == 0);
        } else {
            assert(s2[k] == n);
        }
    }
}

proof fn lemma_reach_step(st: MazeState)
    requires
        state_ok(st),
        reach_ok(st),
        st.2.len() > 0,
    ensures
        reach_ok(maze_step(st)),
{
    let (grid, vis, stack, rng) = st;
    let c = stack.last();
    assert(cell_ok(stack[stack.len() - 1]));
    lemma_neighbors(vis, c.0, c.1);
    let nb = maze_neighbors(vis, c.0, c.1);
    if nb.len() == 0 {
        let ns = stack.drop_last();
        assert forall|k: int| 0 <= k < ns.len() implies open_at(grid, cell_pos(#[trigger] ns[k])) by {
            assert(ns[k] == stack[k]);
        }
    } else {
        let rng2 = xorshift_step(rng);
        let idx = (rng2 as u32) as int % (nb.len() as int);
        let n = nb[idx];
        lemma_reach_push(grid, stack, n);
    }
}

proof fn lemma_reach_run(st: MazeState, fuel: nat)
    requires
        state_ok(st),
        reach_ok(st),
    ensures
        reach_ok(maze_run(st, fuel)),
    decreases fuel,
{
    if fuel > 0 && st.2.len() > 0 {
        lemma_step_ok(st);
        lemma_reach_step(st);
        lemma_reach_run(maze_step(st), (fuel - 1) as nat);
    }
}

/// Every passage of a generated maze is connected to the start: whatever the random state,
/// each open position of the grid (every cell, and every wall that was knocked through) can
/// be reached from `(1, 1)` by steps north, south, east or west through open positions.
pub proof fn lemma_generated_maze_connected(seed: u64)
    ensures
        forall|x: int, y: int|
            open_at(maze_run(maze_init(seed), 100).0, (x, y)) ==> #[trigger] reachable(
                maze_run(maze_init(seed), 100).0,
                (x, y),
            ),
{
    let init = maze_init(seed);
    let (grid, vis, stack, rng) = init;
    lemma_init_ok(seed);
    let start = seq![(1int, 1int)];
    assert(open_at(grid, (1, 1)));
    assert(open_path(grid, start)) by {
        reveal(open_path);
    }
    assert forall|x: int, y: int| open_at(grid, (x, y)) implies #[trigger] reachable(grid, (x, y)) by {
        assert(grid[y * 16 + x] == 0);
        assert(y * 16 + x == 17);
        assert(x == 1 && y == 1);
        assert(start.last() == (x, y));
    }
    assert forall|k: int| 0 <= k < stack.len() implies open_at(grid, cell_pos(#[trigger] stack[k])) by {
        assert(stack[k] == (0int, 0int));
    }
    lemma_reach_run(init, 100);
}

/// The starting state is well formed.
proof fn lemma_init_ok(seed: u64)
    ensures
        state_ok(maze_init(seed)),
{
    let init = maze_init(seed);
    let (grid, vis, stack, rng) = init;
    assert forall|k: int| 0 <= k < stack.len() implies #[trigger] cell_ok(stack[k]) by {}
    assert forall|x: int, y: int|
        0 <= x < 16 && 0 <= y < 16 && !in_cell_block(x, y) implies #[trigger] grid_at(grid, x, y) == 1 by {
        assert(y * 16 + x != 17);
    }
    assert forall|cx: int, cy: int| is_cell(cx, cy) && #[trigger] visited_at(vis, cx, cy) implies grid_at(
        grid,
        2 * cx + 1,
        2 * cy + 1,
    ) == 0 by {
        assert(cy * 7 + cx == 0);
    }
    assert forall|cx: int, cy: int|
        is_cell(cx, cy) && #[trigger] visited_at(vis, cx, cy) && !stack.contains((cx, cy)) implies all_nb_visited(
        vis,
        cx,
        cy,
    ) by {
        assert(cy * 7 + cx == 0);
        assert(stack[0] == (0int, 0int));
    }
}

/// Every maze the backtracker generates, whatever the random state it starts from: the
/// grid has 16x16 positions, each of the 7x7 cells is open (so every cell was reached),
/// and every position outside the cell block (columns and rows 0, 14 and 15) is a wall.
pub proof fn lemma_generated_maze_shape(seed: u64)
    ensures
        maze_run(maze_init(seed), 100).0.len() == 256,
        forall|cx: int, cy: int|
            is_cell(cx, cy) ==> #[trigger] grid_at(maze_run(maze_init(seed), 100).0, 2 * cx + 1, 2 * cy + 1)
                == 0,
        forall|x: int, y: int|
            0 <= x < 16 && 0 <= y < 16 && !in_cell_block(x, y) ==> #[trigger] grid_at(
                maze_run(maze_init(seed), 100).0,
                x,
                y,
            ) == 1,
{
    let init = maze_init(seed);
    let (grid, vis, stack, rng) = init;
    lemma_init_ok(seed);

    let z = Seq::new(49, |i: int| false);
    lemma_count_all_false(49);
    lemma_count_update(z, 0);
    assert(z.update(0, true) =~= vis);
    lemma_run_empties(init, 100);
    lemma_run_ok(init, 100);
    let fin = maze_run(init, 100);
    let fv = fin.1;
    assert forall|x: int, y: int| is_cell(x, y) && #[trigger] visited_at(fv, x, y) implies all_nb_visited(fv, x, y) by {
        assert(!fin.2.contains((x, y)));
    }
    assert forall|cx: int, cy: int| is_cell(cx, cy) implies #[trigger] grid_at(fin.0, 2 * cx + 1, 2 * cy + 1) == 0 by {
        lemma_visited_from_start(fv, cx, cy);
    }
}

} // verus!
