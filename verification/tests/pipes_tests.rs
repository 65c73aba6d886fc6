use wallfacer::pipes::{GridPoint, PipeNetwork, PipeSegment, PIPE_COUNT, PIPE_MAX_SEGMENTS};

fn gp(x: i32, y: i32, z: i32) -> GridPoint {
    GridPoint { x, y, z }
}

fn state(net: &PipeNetwork) -> Vec<(usize, GridPoint, usize, u32)> {
    (0..net.pipe_count())
        .map(|i| {
            let p = net.pipe(i);
            (p.segment_count(), p.position(), p.direction(), p.hue())
        })
        .collect()
}

#[test]
fn network_starts_with_empty_pipes() {
    let net = PipeNetwork::new();
    assert_eq!(net.pipe_count(), PIPE_COUNT);
    assert_eq!(
        state(&net),
        vec![
            (0, gp(2, 0, -1), 0, 0),
            (0, gp(0, 1, -1), 1, 80),
            (0, gp(-1, -1, 1), 2, 160),
            (0, gp(3, 2, -3), 3, 240),
        ]
    );
}

#[test]
fn first_growth_lays_one_segment_per_pipe() {
    let mut net = PipeNetwork::new();
    net.grow_all();
    assert_eq!(
        state(&net),
        vec![
            (1, gp(3, 0, -1), 5, 0),
            (1, gp(-1, 1, -1), 1, 80),
            (1, gp(-1, 0, 1), 2, 160),
            (1, gp(3, 1, -3), 3, 240),
        ]
    );
    assert_eq!(
        net.pipe(0).segment(0),
        PipeSegment { a: gp(2, 0, -1), b: gp(3, 0, -1), hue: 0, dir: 0 }
    );
    assert_eq!(
        net.pipe(3).segment(0),
        PipeSegment { a: gp(3, 2, -3), b: gp(3, 1, -3), hue: 240, dir: 3 }
    );
}

#[test]
fn a_turn_shows_as_a_bend() {
    let mut net = PipeNetwork::new();
    net.grow_all();
    net.grow_all();
    assert_eq!(
        net.pipe(0).segment(1),
        PipeSegment { a: gp(3, 0, -1), b: gp(3, 0, -2), hue: 0, dir: 5 }
    );
    assert!(net.pipe(0).bends_at(0));
    assert!(!net.pipe(1).bends_at(0));
    assert!(net.pipe(1).bends_at(1));
    assert_eq!(state(&net)[3], (2, gp(3, 0, -3), 5, 240));
}

#[test]
fn pipes_restart_after_the_segment_limit() {
    let mut net = PipeNetwork::new();
    for _ in 0..39 {
        net.grow_all();
    }
    assert_eq!(
        state(&net),
        vec![
            (39, gp(9, 4, -5), 2, 0),
            (39, gp(4, -6, 5), 2, 80),
            (39, gp(-8, -1, -17), 0, 160),
            (39, gp(-3, 4, -8), 1, 240),
        ]
    );
    net.grow_all();
    assert_eq!(
        state(&net),
        vec![
            (0, gp(-2, 3, 4), 2, 60),
            (0, gp(-1, -4, -4), 2, 140),
            (0, gp(-3, -3, -4), 2, 220),
            (0, gp(-2, 1, -3), 5, 300),
        ]
    );
    for _ in 0..5 {
        net.grow_all();
    }
    assert_eq!(
        state(&net),
        vec![
            (5, gp(-5, 3, 4), 3, 60),
            (5, gp(-1, 0, -3), 0, 140),
            (5, gp(-1, 0, -4), 0, 220),
            (5, gp(-4, 1, -6), 3, 300),
        ]
    );
}

fn reverse(d: usize) -> usize {
    d ^ 1
}

#[test]
fn pipes_never_double_back_and_stay_connected() {
    let mut net = PipeNetwork::new();
    for _ in 0..300 {
        net.grow_all();
        for i in 0..net.pipe_count() {
            let p = net.pipe(i);
            let n = p.segment_count();
            assert!(n < PIPE_MAX_SEGMENTS);
            let r = 4 + n as i32;
            let h = p.position();
            assert!(h.x.abs() <= r && h.y.abs() <= r && h.z.abs() <= r);
            for k in 0..n {
                let s = p.segment(k);
                let steps = (s.b.x - s.a.x).abs() + (s.b.y - s.a.y).abs() + (s.b.z - s.a.z).abs();
                assert_eq!(steps, 1);
                assert_eq!(s.hue, p.hue());
                if k + 1 < n {
                    let t = p.segment(k + 1);
                    assert_eq!(t.a, s.b);
                    assert_ne!(t.dir, reverse(s.dir));
                    assert_eq!(p.bends_at(k), t.dir != s.dir);
                } else {
                    assert_eq!(s.b, h);
                    assert_ne!(p.direction(), reverse(s.dir));
                    assert!(p.bends_at(k));
                }
            }
        }
    }
}
