use wallfacer::rotation::{transform_mouse, transform_mouse_delta, Rotation};

#[test]
fn mouse_positions_map_back_to_content() {
    assert_eq!(transform_mouse(10, 20, Rotation::Upright, 640, 480), (10, 20));
    assert_eq!(transform_mouse(10, 20, Rotation::Cw90, 640, 480), (20, 469));
    assert_eq!(transform_mouse(10, 20, Rotation::Cw180, 640, 480), (629, 459));
    assert_eq!(transform_mouse(10, 20, Rotation::Cw270, 640, 480), (619, 10));
}

#[test]
fn mouse_corners_stay_inside_content() {
    // a 640x480 content shown turned 90 degrees fills a 480x640 window
    let (w, h) = (640u32, 480u32);
    for &(wx, wy) in &[(0, 0), (479, 0), (0, 639), (479, 639)] {
        let (cx, cy) = transform_mouse(wx, wy, Rotation::Cw90, w, h);
        assert!(cx >= 0 && cx < w as i32 && cy >= 0 && cy < h as i32);
        let (cx, cy) = transform_mouse(wx, wy, Rotation::Cw270, w, h);
        assert!(cx >= 0 && cx < w as i32 && cy >= 0 && cy < h as i32);
    }
}

#[test]
fn mouse_deltas_turn_with_the_display() {
    assert_eq!(transform_mouse_delta(3, 4, Rotation::Upright), (3, 4));
    assert_eq!(transform_mouse_delta(3, 4, Rotation::Cw90), (4, -3));
    assert_eq!(transform_mouse_delta(3, 4, Rotation::Cw180), (-3, -4));
    assert_eq!(transform_mouse_delta(3, 4, Rotation::Cw270), (-4, 3));
}

#[test]
fn delta_matches_difference_of_positions() {
    for rot in [Rotation::Upright, Rotation::Cw90, Rotation::Cw180, Rotation::Cw270] {
        let a = transform_mouse(100, 50, rot, 640, 480);
        let b = transform_mouse(107, 45, rot, 640, 480);
        let d = transform_mouse_delta(7, -5, rot);
        assert_eq!((b.0 - a.0, b.1 - a.1), d);
    }
}
