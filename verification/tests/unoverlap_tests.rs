use csv2svg::unoverlap::unoverlap;

#[test]
fn test_unoverlap_1() {
    assert_eq!(unoverlap(vec![0, 49, 51, 100], 10), Some(vec![0, 45, 55, 100]),);
}

#[test]
fn test_unoverlap_2() {
    assert_eq!(
        unoverlap(vec![0, 51, 52, 53, 100], 10),
        Some(vec![0, 42, 52, 62, 100]),
    );
}

#[test]
fn test_unoverlap_3() {
    assert_eq!(unoverlap(vec![0, 51, 52, 53, 100], 60), None,);
}

#[test]
fn test_unoverlap_4() {
    assert_eq!(
        unoverlap(vec![0, 1, 2, 20, 51, 52, 53, 100], 10),
        Some(vec![0, 10, 20, 30, 42, 52, 62, 100]),
    );
}

#[test]
fn test_unoverlap_5() {
    assert_eq!(
        unoverlap(vec![0, 1, 2, 20, 26, 28, 51, 52, 53, 100], 10),
        Some(vec![0, 10, 20, 30, 40, 50, 60, 70, 80, 100]),
    );
}

#[test]
fn test_unoverlap_6() {
    assert_eq!(
        unoverlap(vec![0, 1, 2, 20, 26, 28, 51, 52, 53, 99, 100], 10),
        Some(vec![0, 10, 20, 30, 40, 50, 60, 70, 80, 90, 100]),
    );
}

#[test]
fn test_unoverlap_7() {
    assert_eq!(
        unoverlap(vec![0, 16, 17, 20, 86, 87, 99, 100], 10),
        Some(vec![0, 10, 20, 30, 70, 80, 90, 100]),
    );
}

#[test]
fn unoverlap_keeps_satisfied_layouts() {
    // nothing closer than the margin: the dots come back unchanged
    assert_eq!(unoverlap(vec![0, 20, 40, 60], 10), Some(vec![0, 20, 40, 60]));
}

#[test]
fn unoverlap_margin_is_satisfied_and_ends_are_fixed() {
    let dots = vec![3, 4, 5, 6, 90];
    let out = unoverlap(dots.clone(), 7).expect("feasible layout");
    assert_eq!(out.len(), dots.len());
    assert_eq!(out[0], dots[0]);
    assert_eq!(out[out.len() - 1], dots[dots.len() - 1]);
    for w in out.windows(2) {
        assert!(w[1] - w[0] >= 7);
    }
}

#[test]
fn unoverlap_exact_fit_is_feasible() {
    // margin * (count - 1) == last - first: exactly enough room
    assert_eq!(unoverlap(vec![0, 1, 2, 30], 10), Some(vec![0, 10, 20, 30]));
}

#[test]
fn unoverlap_one_more_than_fits_is_infeasible() {
    // margin * (count - 1) exceeds the span by one
    assert_eq!(unoverlap(vec![0, 1, 2, 29], 10), None);
}

#[test]
fn unoverlap_negative_positions() {
    assert_eq!(unoverlap(vec![-100, -51, -49, 0], 10), Some(vec![-100, -55, -45, 0]));
}
