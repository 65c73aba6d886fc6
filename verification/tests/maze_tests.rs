use wallfacer::maze::{find_open_cell, find_open_direction, generate_maze, is_wall, MAP_SIZE};
use wallfacer::util::Rng;

fn corridor_map() -> Vec<u8> {
    let mut m = vec![1u8; MAP_SIZE * MAP_SIZE];
    for x in 1..=10 {
        m[5 * MAP_SIZE + x] = 0;
    }
    m
}

#[test]
fn generated_maze_opens_every_cell_and_keeps_the_border() {
    for seed in [1u64, 2, 0x1234_ABCD, 987_654_321] {
        let mut rng = Rng::new(seed);
        let g = generate_maze(&mut rng);
        assert_eq!(g.len(), 256);
        for cy in 0..7 {
            for cx in 0..7 {
                assert_eq!(g[(2 * cy + 1) * 16 + 2 * cx + 1], 0);
            }
        }
        for y in 0..16 {
            for x in 0..16 {
                let v = g[y * 16 + x];
                assert!(v == 0 || v == 1);
                if !(1..=13).contains(&x) || !(1..=13).contains(&y) {
                    assert_eq!(v, 1);
                }
                // grid positions whose both coordinates are even are never opened
                if x % 2 == 0 && y % 2 == 0 {
                    assert_eq!(v, 1);
                }
            }
        }
    }
}

#[test]
fn generated_maze_is_a_spanning_tree() {
    // a perfect maze over 49 cells opens exactly 48 walls between cells
    let mut rng = Rng::new(42);
    let g = generate_maze(&mut rng);
    let open: usize = g.iter().filter(|&&v| v == 0).count();
    assert_eq!(open, 49 + 48);
}

#[test]
fn generated_maze_is_deterministic_per_seed() {
    let mut a = Rng::new(7);
    let mut b = Rng::new(7);
    assert_eq!(generate_maze(&mut a), generate_maze(&mut b));
    assert_eq!(a.next_u64(), b.next_u64());
}

#[test]
fn open_cell_prefers_corridors() {
    let m = corridor_map();
    assert_eq!(find_open_cell(&m), (2, 5));
}

#[test]
fn open_cell_defaults_when_nothing_is_open() {
    let m = vec![1u8; MAP_SIZE * MAP_SIZE];
    assert_eq!(find_open_cell(&m), (1, 1));
    assert_eq!(find_open_direction(&m, 1, 1), 0);
}

#[test]
fn open_direction_follows_the_longest_run() {
    let m = corridor_map();
    assert_eq!(find_open_direction(&m, 2, 5), 0);
    assert_eq!(find_open_direction(&m, 9, 5), 2);
    let mut v = vec![1u8; MAP_SIZE * MAP_SIZE];
    for y in 2..=12 {
        v[y * MAP_SIZE + 4] = 0;
    }
    assert_eq!(find_open_direction(&v, 4, 3), 1);
    assert_eq!(find_open_direction(&v, 4, 11), 3);
}

#[test]
fn walls_and_outside_block_movement() {
    let m = corridor_map();
    assert!(is_wall(&m, -1, 5));
    assert!(is_wall(&m, 16, 5));
    assert!(is_wall(&m, 3, 16));
    assert!(is_wall(&m, 0, 5));
    assert!(!is_wall(&m, 3, 5));
}

#[test]
fn open_cell_search_reads_only_the_first_256_cells() {
    let mut map = vec![1u8; 300];
    assert_eq!(find_open_cell(&map), (1, 1));
    map[16 * 5 + 6] = 0;
    map[16 * 5 + 7] = 0;
    map[16 * 6 + 6] = 0;
    assert_eq!(find_open_cell(&map), (6, 5));
    assert!(!is_wall(&map, 7, 5));
}

#[test]
fn every_passage_connects_to_the_start() {
    for seed in [1u64, 7, 42, 0xDEAD_BEEF] {
        let mut rng = Rng::new(seed);
        let grid = generate_maze(&mut rng);
        let mut seen = vec![false; 256];
        let mut todo = vec![(1usize, 1usize)];
        seen[17] = true;
        while let Some((x, y)) = todo.pop() {
            for (nx, ny) in [(x + 1, y), (x - 1, y), (x, y + 1), (x, y - 1)] {
                let i = ny * 16 + nx;
                if grid[i] == 0 && !seen[i] {
                    seen[i] = true;
                    todo.push((nx, ny));
                }
            }
        }
        for i in 0..256 {
            assert_eq!(grid[i] == 0, seen[i], "position {} of seed {}", i, seed);
        }
    }
}
