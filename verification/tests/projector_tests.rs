use csv2svg::projector::{IntRect, Projector};

#[test]
fn projector_corners_map_to_corners() {
    // a y-flipped source rectangle, as the chart uses it
    let src = IntRect::new(0, 100, 10, -100);
    let dst = IntRect::new(70, 26, 680, 389);
    let p = Projector::new(&src, &dst);
    assert_eq!(p.project_x(0), 70);
    assert_eq!(p.project_x(10), 750);
    assert_eq!(p.project_y(100), 26);
    assert_eq!(p.project_y(0), 415);
    assert_eq!(p.project_point((0, 100)), (70, 26));
    assert_eq!(p.project_point((10, 0)), (750, 415));
}

#[test]
fn projector_truncates_toward_zero() {
    let src = IntRect::new(0, 0, 10, 10);
    let dst = IntRect::new(0, 0, 680, 680);
    let p = Projector::new(&src, &dst);
    // 1 * 680 / 10 = 68 exactly, 3 * 680 / 10 = 204 exactly
    assert_eq!(p.project_x(1), 68);
    assert_eq!(p.project_x(3), 204);
    // 1 * 680 / 3 = 226.66..: truncated
    let src = IntRect::new(0, 0, 3, 3);
    let p = Projector::new(&src, &dst);
    assert_eq!(p.project_x(1), 226);
    assert_eq!(p.project_x(2), 453);
}

#[test]
fn projector_is_affine_within_truncation() {
    let src = IntRect::new(-50, 0, 100, 7);
    let dst = IntRect::new(0, 0, 640, 480);
    let p = Projector::new(&src, &dst);
    let ratio = 640.0 / 100.0;
    for (a, b) in [(-50i64, 50i64), (-10, 30), (0, 1), (17, -33)] {
        let d = (p.project_x(a) - p.project_x(b)) as f64;
        let expected = (a - b) as f64 * ratio;
        assert!((d - expected).abs() < 2.0, "{} vs {}", d, expected);
    }
}

#[test]
fn rect_bottom() {
    let r = csv2svg::rect::Rect::new(70, 26, 680, 389);
    assert_eq!(r.bottom(), 415);
    let flipped = csv2svg::rect::Rect::new(0, 100, 10, -100);
    assert_eq!(flipped.bottom(), 0);
}

#[test]
fn checked_projection_agrees_and_is_total() {
    let src = IntRect::new(0, 100, 10, -100);
    let dst = IntRect::new(70, 26, 680, 389);
    let p = Projector::new(&src, &dst);
    assert_eq!(p.checked_project_x(10), Some(750));
    assert_eq!(p.checked_project_y(0), Some(415));
    assert_eq!(p.checked_project_point((0, 100)), Some((70, 26)));
    // a projection that cannot fit an i64 is reported instead of wrapping
    let wide = Projector::new(&IntRect::new(0, 0, 1, 1), &IntRect::new(i64::MAX, 0, i64::MAX, 1));
    assert_eq!(wide.checked_project_x(1), None);
}
