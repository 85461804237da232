use csv2svg::nature::Nature;
use csv2svg::raw::RawCol;
use csv2svg::series::{Series, SeriesError};

fn col(header: &str, cells: &[Option<&str>]) -> RawCol {
    RawCol {
        header: header.to_string(),
        cells: cells.iter().map(|c| c.map(|s| s.to_string())).collect(),
    }
}

#[test]
fn series_integers() {
    let se = Series::new(col("n", &[Some("3"), None, Some("-7"), Some("+12")])).unwrap();
    assert!(matches!(se.nature, Nature::Integer));
    assert_eq!(se.ival, vec![Some(3), None, Some(-7), Some(12)]);
    assert_eq!(se.min, -7);
    assert_eq!(se.max, 12);
    assert_eq!(se.len(), 4);
}

#[test]
fn series_dates() {
    let se = Series::new(col(
        "t",
        &[Some("1970-01-01T00:00:00Z"), Some("1970-01-01T00:00:01+00:00")],
    ))
    .unwrap();
    // the nature keeps the first cell's UTC offset
    assert!(matches!(se.nature, Nature::Date(0)));
    assert_eq!(se.ival, vec![Some(0), Some(1000)]);
    assert_eq!(se.min, 0);
    assert_eq!(se.max, 1000);
}

#[test]
fn series_date_offset_is_kept() {
    let se = Series::new(col("t", &[Some("2021-01-01T00:00:00+02:00")])).unwrap();
    assert!(matches!(se.nature, Nature::Date(7200)));
    assert_eq!(se.ival, vec![Some(1609452000000)]);
}

#[test]
fn series_widens_date_to_integer() {
    // starts as a date column, then an integer cell widens it for good
    let se = Series::new(col(
        "m",
        &[Some("1970-01-01T00:00:02Z"), Some("41"), Some("12")],
    ))
    .unwrap();
    assert!(matches!(se.nature, Nature::Integer));
    // the already-converted date stays as its milliseconds
    assert_eq!(se.ival, vec![Some(2000), Some(41), Some(12)]);
    assert_eq!(se.min, 12);
    assert_eq!(se.max, 2000);
}

#[test]
fn series_date_under_integer_nature_fails() {
    // under Integer nature a date-looking cell is a failure
    let r = Series::new(col("m", &[Some("41"), Some("1970-01-01T00:00:02Z")]));
    assert!(matches!(r, Err(SeriesError::ParseFailure(_))));
}

#[test]
fn series_unreadable_cell_fails() {
    let r = Series::new(col("m", &[Some("41"), Some("forty-two")]));
    match r {
        Err(SeriesError::ParseFailure(cell)) => assert_eq!(cell, "forty-two"),
        other => panic!("expected a parse failure, got {:?}", other),
    }
}

#[test]
fn series_reports_the_first_unreadable_cell() {
    let r = Series::new(col("m", &[Some("1"), None, Some("first bad"), Some("second bad")]));
    match r {
        Err(SeriesError::ParseFailure(cell)) => assert_eq!(cell, "first bad"),
        other => panic!("expected a parse failure, got {:?}", other),
    }
}

#[test]
fn series_integer_overflow_fails() {
    // one past i64::MAX does not parse as an integer
    let r = Series::new(col("m", &[Some("9223372036854775808")]));
    assert!(matches!(r, Err(SeriesError::ParseFailure(_))));
    // i64::MIN itself is fine
    let se = Series::new(col("m", &[Some("-9223372036854775808")])).unwrap();
    assert_eq!(se.ival, vec![Some(i64::MIN)]);
}

#[test]
fn series_empty_column() {
    assert!(matches!(
        Series::new(col("e", &[None, None])),
        Err(SeriesError::EmptyColumn)
    ));
    assert!(matches!(
        Series::new(col("e", &[])),
        Err(SeriesError::EmptyColumn)
    ));
}

#[test]
fn series_from_integers() {
    let se = Series::from_integers("n".to_string(), vec![Some(42), None, Some(-3)]).unwrap();
    assert!(matches!(se.nature, Nature::Integer));
    assert_eq!(se.raw, vec![Some("42".to_string()), None, Some("-3".to_string())]);
    assert_eq!(se.min, -3);
    assert_eq!(se.max, 42);
}

#[test]
fn series_from_integers_empty() {
    assert!(matches!(
        Series::from_integers("n".to_string(), vec![None, None]),
        Err(SeriesError::EmptyColumn)
    ));
}

#[test]
fn series_from_increasing_times() {
    let se = Series::from_increasing_times("t".to_string(), vec![0, 1000, 61_000]).unwrap();
    assert!(matches!(se.nature, Nature::Date(0)));
    assert_eq!(se.raw[0].as_deref(), Some("1970-01-01T00:00:00Z"));
    assert_eq!(se.raw[2].as_deref(), Some("1970-01-01T00:01:01Z"));
    assert_eq!(se.ival, vec![Some(0), Some(1000), Some(61_000)]);
    assert_eq!(se.min, 0);
    assert_eq!(se.max, 61_000);
}

#[test]
fn series_from_increasing_times_empty() {
    assert!(matches!(
        Series::from_increasing_times("t".to_string(), vec![]),
        Err(SeriesError::EmptyColumn)
    ));
}

#[test]
fn series_full_and_increasing() {
    let se = Series::from_integers("n".to_string(), vec![Some(1), Some(2), Some(5)]).unwrap();
    assert!(se.is_full_and_increasing());
    let gap = Series::new(col("n", &[Some("1"), None, Some("5")])).unwrap();
    assert!(!gap.is_full_and_increasing());
    let down = Series::from_integers("n".to_string(), vec![Some(5), Some(2)]).unwrap();
    assert!(!down.is_full_and_increasing());
}
