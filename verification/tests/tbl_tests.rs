use csv2svg::raw::{RawCol, RawTbl};
use csv2svg::series::Series;
use csv2svg::tbl::{Tbl, TblError};

fn col(header: &str, cells: &[Option<&str>]) -> RawCol {
    RawCol {
        header: header.to_string(),
        cells: cells.iter().map(|c| c.map(|s| s.to_string())).collect(),
    }
}

#[test]
fn tbl_from_raw() {
    let tbl = Tbl::from_raw(RawTbl {
        cols: vec![
            col("x", &[Some("1"), Some("2"), Some("3")]),
            col("a", &[Some("10"), None, Some("30")]),
            col("b", &[Some("7"), Some("8"), Some("9")]),
        ],
    })
    .unwrap();
    assert_eq!(tbl.seqs_count(), 3);
    assert_eq!(tbl.y_seqs_count(), 2);
    assert_eq!(tbl.dim(), (3, 3));
    assert_eq!(tbl.x_seq().header, "x");
    let ys: Vec<&Series> = tbl.y_seqs();
    assert_eq!(ys.len(), 2);
    assert_eq!(ys[0].header, "a");
    assert_eq!(ys[1].header, "b");
    assert_eq!(tbl.y_min_max(), (7, 30));
}

#[test]
fn tbl_from_raw_drops_bad_columns() {
    // an unreadable column is dropped with the table still usable
    let tbl = Tbl::from_raw(RawTbl {
        cols: vec![
            col("x", &[Some("1"), Some("2")]),
            col("junk", &[Some("one"), Some("two")]),
            col("y", &[Some("5"), Some("6")]),
        ],
    })
    .unwrap();
    assert_eq!(tbl.seqs_count(), 2);
    assert_eq!(tbl.x_seq().header, "x");
}

#[test]
fn tbl_from_raw_not_enough_rows() {
    let r = Tbl::from_raw(RawTbl {
        cols: vec![col("x", &[Some("1")]), col("y", &[Some("2")])],
    });
    assert_eq!(r.unwrap_err(), TblError::NotEnoughRows);
}

#[test]
fn tbl_from_raw_not_enough_columns() {
    let r = Tbl::from_raw(RawTbl {
        cols: vec![
            col("x", &[Some("1"), Some("2")]),
            col("junk", &[Some("one"), Some("two")]),
        ],
    });
    assert_eq!(r.unwrap_err(), TblError::NotEnoughColumns);
}

#[test]
fn tbl_from_raw_x_must_increase() {
    let r = Tbl::from_raw(RawTbl {
        cols: vec![
            col("x", &[Some("2"), Some("1")]),
            col("y", &[Some("5"), Some("6")]),
        ],
    });
    assert_eq!(r.unwrap_err(), TblError::XSeriesInvalid);
    let r = Tbl::from_raw(RawTbl {
        cols: vec![
            col("x", &[Some("1"), None]),
            col("y", &[Some("5"), Some("6")]),
        ],
    });
    // a column with a hole still types, but cannot serve as the x series
    assert_eq!(r.unwrap_err(), TblError::XSeriesInvalid);
}

#[test]
fn tbl_from_seqs() {
    let x = Series::from_integers("x".to_string(), vec![Some(1), Some(2)]).unwrap();
    let y = Series::from_integers("y".to_string(), vec![Some(9), None]).unwrap();
    let tbl = Tbl::from_seqs(vec![x, y]).unwrap();
    assert_eq!(tbl.seqs_count(), 2);

    let x = Series::from_integers("x".to_string(), vec![Some(1), Some(2)]).unwrap();
    assert_eq!(Tbl::from_seqs(vec![x]).unwrap_err(), TblError::NotEnoughColumns);

    let x = Series::from_integers("x".to_string(), vec![Some(1), Some(2)]).unwrap();
    let y = Series::from_integers("y".to_string(), vec![Some(9)]).unwrap();
    assert_eq!(
        Tbl::from_seqs(vec![x, y]).unwrap_err(),
        TblError::MismatchedRowCounts
    );

    let x = Series::from_integers("x".to_string(), vec![Some(2), Some(1)]).unwrap();
    let y = Series::from_integers("y".to_string(), vec![Some(9), Some(8)]).unwrap();
    assert_eq!(Tbl::from_seqs(vec![x, y]).unwrap_err(), TblError::XSeriesInvalid);
}
