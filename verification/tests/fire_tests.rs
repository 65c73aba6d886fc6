use wallfacer::fire::FireGrid;
use wallfacer::util::Rng;

fn cells(g: &FireGrid) -> Vec<u8> {
    let mut v = Vec::new();
    for y in 0..g.height() {
        for x in 0..g.width() {
            v.push(g.heat_at(x, y));
        }
    }
    v
}

#[test]
fn new_grid_is_cold() {
    let g = FireGrid::new(5, 3);
    assert_eq!((g.width(), g.height()), (5, 3));
    assert!(cells(&g).iter().all(|&v| v == 0));
}

#[test]
fn seeding_adds_flicker_to_the_bottom_row() {
    let mut g = FireGrid::new(4, 3);
    let mut rng = Rng::new(1);
    g.seed_bottom_row(&[100, 200, 250, 0], &mut rng);
    assert_eq!(cells(&g), vec![0, 0, 0, 0, 0, 0, 0, 0, 100, 216, 255, 5]);
}

#[test]
fn propagation_without_wind() {
    let mut g = FireGrid::new(4, 3);
    let mut rng = Rng::new(1);
    g.seed_bottom_row(&[100, 200, 250, 0], &mut rng);
    g.propagate(0, &mut rng);
    assert_eq!(cells(&g), vec![22, 53, 62, 0, 102, 194, 180, 88, 100, 216, 255, 5]);
}

#[test]
fn propagation_with_wind() {
    let mut g = FireGrid::new(4, 3);
    let mut rng = Rng::new(1);
    g.seed_bottom_row(&[100, 200, 250, 0], &mut rng);
    g.propagate(-2, &mut rng);
    assert_eq!(cells(&g), vec![60, 0, 24, 53, 179, 89, 103, 193, 100, 216, 255, 5]);
}

#[test]
fn single_column_takes_any_wind() {
    let mut g = FireGrid::new(1, 3);
    let mut rng = Rng::new(1);
    g.seed_bottom_row(&[100], &mut rng);
    let bottom = g.heat_at(0, 2);
    g.propagate(-2, &mut rng);
    let mut h = FireGrid::new(1, 3);
    let mut rng2 = Rng::new(1);
    h.seed_bottom_row(&[100], &mut rng2);
    h.propagate(0, &mut rng2);
    assert_eq!(cells(&g), cells(&h));
    assert_eq!(g.heat_at(0, 2), bottom);
    assert!(g.heat_at(0, 1) < bottom);
}

#[test]
fn several_steps() {
    let mut g = FireGrid::new(4, 3);
    let mut rng = Rng::new(1);
    for _ in 0..3 {
        g.seed_bottom_row(&[100, 200, 250, 0], &mut rng);
        g.propagate(1, &mut rng);
    }
    assert_eq!(cells(&g), vec![188, 184, 142, 180, 196, 190, 122, 129, 135, 202, 255, 53]);
}

#[test]
fn fire_cools_as_it_rises() {
    let mut g = FireGrid::new(16, 10);
    let mut rng = Rng::new(5);
    let bases = [255u8; 16];
    for _ in 0..20 {
        g.seed_bottom_row(&bases, &mut rng);
        g.propagate(2, &mut rng);
        let c = cells(&g);
        for i in 0..16 * 9 {
            assert!(c[i] <= 254);
        }
    }
}

#[test]
fn resize_restarts_cold_and_same_size_keeps_heat() {
    let mut g = FireGrid::new(4, 3);
    let mut rng = Rng::new(1);
    g.seed_bottom_row(&[100, 200, 250, 0], &mut rng);
    g.resize(4, 3);
    assert_eq!(g.heat_at(1, 2), 216);
    g.resize(6, 0);
    assert_eq!((g.width(), g.height()), (6, 1));
    assert!(cells(&g).iter().all(|&v| v == 0));
}
