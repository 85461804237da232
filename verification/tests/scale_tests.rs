use csv2svg::scale::Scale;

#[test]
fn scale_round_range() {
    let s = Scale::new(0, 30);
    assert_eq!(s.min, 0);
    assert_eq!(s.max, 40);
    assert_eq!(s.ticks, vec![0, 10, 20, 30, 40]);
    assert_eq!(s.range(), 40);
}

#[test]
fn scale_widens_tiny_spans() {
    // span under three units: widened by two on each side before scaling
    let s = Scale::new(1, 2);
    assert_eq!(s.min, -1);
    assert_eq!(s.max, 5);
    assert_eq!(s.ticks, vec![-1, 0, 1, 2, 3, 4, 5]);
}

#[test]
fn scale_anchors_at_zero() {
    // a positive min with a span of at least a quarter of max drops to zero
    let s = Scale::new(2, 100);
    assert_eq!(s.min, 0);
    assert_eq!(s.ticks, vec![0, 100, 200]);
    assert_eq!(s.max, 200);
}

#[test]
fn scale_keeps_large_positive_min() {
    // the span is under a quarter of max: the y axis is not anchored at zero
    let s = Scale::new(95, 100);
    assert_eq!(s.min, 95);
    assert_eq!(s.ticks, vec![95, 96, 97, 98, 99, 100, 101]);
    assert_eq!(s.max, 101);
}

#[test]
fn scale_snaps_negative_min_down() {
    let s = Scale::new(-15, 77);
    assert_eq!(s.min, -20);
    assert_eq!(s.ticks[0], -20);
    assert_eq!(*s.ticks.last().unwrap(), 80);
    assert_eq!(s.max, 80);
    // the input range is enclosed
    assert!(s.min <= -15 && s.max >= 77);
}

#[test]
fn scale_covers_input_range() {
    for &(lo, hi) in &[(0i64, 7i64), (-3, 3), (10, 11), (999, 1001), (-1000, -900)] {
        let s = Scale::new(lo, hi);
        assert!(s.min <= lo, "min {} above {}", s.min, lo);
        assert!(s.max >= hi, "max {} below {}", s.max, hi);
        assert!(s.ticks.len() >= 2);
        let d = s.ticks[1] - s.ticks[0];
        assert!(d >= 1);
        for w in s.ticks.windows(2) {
            assert_eq!(w[1] - w[0], d);
        }
    }
}

#[test]
fn scale_degenerate_equal_bounds() {
    // equal bounds are widened by two on each side, then anchored at zero
    let s = Scale::new(5, 5);
    assert_eq!(s.min, 0);
    assert_eq!(s.ticks, vec![0, 1, 2, 3, 4, 5, 6, 7, 8]);
    assert_eq!(s.max, 8);
}
