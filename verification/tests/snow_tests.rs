use wallfacer::snow::SnowPack;

fn pack() -> SnowPack {
    let top = vec![20, 10, 10, 11, 10, 20, 5, 20];
    let bot = vec![20, 12, 12, 12, 12, 20, 6, 20];
    SnowPack::new(top, bot, 20)
}

fn ground(p: &SnowPack) -> Vec<i32> {
    (0..p.width()).map(|x| p.ground_at(x)).collect()
}

fn region(p: &SnowPack) -> Vec<i32> {
    (0..p.width()).map(|x| p.region_at(x)).collect()
}

#[test]
fn caps_follow_the_surface_slope() {
    let p = pack();
    let caps: Vec<i32> = (0..p.width()).map(|x| p.cap_at(x)).collect();
    assert_eq!(caps, vec![0, 7, 30, 30, 7, 0, 0, 0]);
    assert_eq!(ground(&p), vec![0; 8]);
    assert_eq!(region(&p), vec![0; 8]);
    assert_eq!(p.top_at(6), 5);
}

#[test]
fn flakes_land_on_surfaces_and_spread() {
    let mut p = pack();
    assert!(p.land(2, 10, 4));
    assert_eq!(region(&p), vec![0, 1, 3, 1, 1, 0, 0, 0]);
    assert_eq!(ground(&p), vec![0; 8]);
    // above the snow top, below the surface bottom: still falling
    assert!(!p.land(2, 3, 1));
    assert!(!p.land(2, 13, 1));
    assert_eq!(region(&p), vec![0, 1, 3, 1, 1, 0, 0, 0]);
}

#[test]
fn flakes_land_on_the_ground() {
    let mut p = pack();
    assert!(p.land(0, 19, 4));
    assert_eq!(ground(&p), vec![3, 1, 1, 0, 0, 0, 0, 0]);
    assert!(!p.land(9, 19, 1));
    assert!(!p.land(5, 17, 1));
    assert!(p.land(5, 19, 2));
    assert_eq!(ground(&p), vec![3, 1, 1, 0, 1, 2, 1, 0]);
}

#[test]
fn steep_columns_hold_no_snow() {
    let mut p = pack();
    // column 6 is a surface with no flat neighbour: its cap is zero, so flakes go to the ground
    assert!(!p.land(6, 5, 1));
    assert!(p.land(6, 19, 1));
    assert_eq!(region(&p)[6], 0);
    assert_eq!(ground(&p)[6], 1);
}

#[test]
fn snow_never_exceeds_the_caps() {
    let mut p = pack();
    for _ in 0..100 {
        p.land(2, 10 - region(&p)[2], 4);
        p.land(1, 19 - ground(&p)[1], 4);
        p.settle();
    }
    let caps: Vec<i32> = (0..p.width()).map(|x| p.cap_at(x)).collect();
    for x in 0..8 {
        assert!(region(&p)[x] >= 0 && region(&p)[x] <= caps[x]);
        assert!(ground(&p)[x] >= 0 && ground(&p)[x] <= 60);
    }
}

#[test]
fn settling_keeps_the_ground_total() {
    let mut p = pack();
    for _ in 0..31 {
        p.land(0, 19, 4);
    }
    assert_eq!(ground(&p), vec![60, 31, 31, 0, 0, 0, 0, 0]);
    p.land(2, 10, 4);
    p.settle();
    assert_eq!(ground(&p), vec![55, 32, 30, 2, 2, 1, 0, 0]);
    assert_eq!(ground(&p).iter().sum::<i32>(), 122);
    assert_eq!(region(&p), vec![0, 2, 2, 1, 1, 0, 0, 0]);
}

#[test]
fn a_single_column_does_not_slide() {
    let mut p = SnowPack::new(vec![20], vec![20], 20);
    p.land(0, 19, 4);
    p.settle();
    assert_eq!(p.ground_at(0), 3);
}
