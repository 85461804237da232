//! A validated table: an x series (full and strictly increasing) followed
//! by one or more y series, all with one shared row count.

use vstd::prelude::*;

verus! {

use crate::raw::RawTbl;
use crate::raw::RawCol;
use crate::series::{full_and_increasing, typing_fold, Series};

/// Why raw columns (or ready-made series) cannot become a table.
#[derive(Debug, PartialEq, Eq, Structural)]
pub enum TblError {
    /// Fewer than two rows of data.
    NotEnoughRows,
    /// Fewer than two usable columns.
    NotEnoughColumns,
    /// The first series is not full and strictly increasing.
    XSeriesInvalid,
    /// The series do not share one row count.
    MismatchedRowCounts,
}

/// Whether a raw column types successfully (at least one readable cell, no
/// unreadable one).
pub open spec fn col_usable(c: RawCol) -> bool {
    &&& typing_fold(c.cells@) is Some
    &&& typing_fold(c.cells@)->0.nature is Some
}

/// The subsequence of columns that type successfully, in order.
pub open spec fn usable_cols(cols: Seq<RawCol>) -> Seq<RawCol>
    decreases cols.len(),
{
    if cols.len() == 0 {
        Seq::empty()
    } else {
        let pre = usable_cols(cols.drop_last());
        if col_usable(cols.last()) {
            pre.push(cols.last())
        } else {
            pre
        }
    }
}

/// The series `se` is exactly what typing the raw column `col` produces.
pub open spec fn series_matches(se: Series, col: RawCol) -> bool {
    &&& col_usable(col)
    &&& typing_fold(col.cells@)->0.nature == Option::Some(se.nature)
    &&& typing_fold(col.cells@)->0.values == se.ival@
    &&& typing_fold(col.cells@)->0.min_max == Option::Some((se.min, se.max))
    &&& se.header == col.header
    &&& se.raw@ == col.cells@
    &&& se.wf()
}

/// The smallest cached minimum among the y series (indices 1 and up).
pub open spec fn y_min_fold(seqs: Seq<Series>) -> int
    recommends
        seqs.len() >= 2,
    decreases seqs.len(),
{
    if seqs.len() <= 2 {
        seqs[seqs.len() - 1].min as int
    } else {
        let pre = y_min_fold(seqs.drop_last());
        if seqs.last().min < pre {
            seqs.last().min as int
        } else {
            pre
        }
    }
}

/// The largest cached maximum among the y series (indices 1 and up).
pub open spec fn y_max_fold(seqs: Seq<Series>) -> int
    recommends
        seqs.len() >= 2,
    decreases seqs.len(),
{
    if seqs.len() <= 2 {
        seqs[seqs.len() - 1].max as int
    } else {
        let pre = y_max_fold(seqs.drop_last());
        if seqs.last().max > pre {
            seqs.last().max as int
        } else {
            pre
        }
    }
}

/// An ordered collection of series; index 0 is the x axis, the rest are
/// the y data.
#[derive(Debug)]
pub struct Tbl {
    pub seqs: Vec<Series>,
}

impl Tbl {
    /// A well-formed table: at least two series, all well-formed, all with
    /// one row count, and a full, strictly increasing x series.
    pub open spec fn wf(self) -> bool {
        &&& self.seqs@.len() >= 2
        &&& forall|k: int| 0 <= k < self.seqs@.len() ==> (#[trigger] self.seqs@[k]).wf()
        &&& forall|k: int|
            0 <= k < self.seqs@.len() ==> (#[trigger] self.seqs@[k]).ival@.len()
                == self.seqs@[0].ival@.len()
        &&& full_and_increasing(self.seqs@[0].ival@)
    }

    /// Build a table from raw columns: columns that fail to type are
    /// dropped (recoverably); the result must keep at least two series, and
    /// the first surviving series must be full and strictly increasing.
    #[verifier::loop_isolation(false)]
    #[verifier::rlimit(60)]
    pub fn from_raw(raw_tbl: RawTbl) -> (r: Result<Tbl, TblError>)
        requires
            raw_tbl.cols@.len() >= 1,
            forall|j: int|
                0 <= j < raw_tbl.cols@.len() ==> (#[trigger] raw_tbl.cols@[j]).cells@.len()
                    == raw_tbl.cols@[0].cells@.len(),
        ensures
            ({
                let cols = raw_tbl.cols@;
                let rows = cols[0].cells@.len();
                let us = usable_cols(cols);
                &&& (r matches Err(TblError::NotEnoughRows) <==> rows < 2)
                &&& (r matches Err(TblError::NotEnoughColumns) <==> rows >= 2 && us.len() < 2)
                &&& (r matches Err(TblError::XSeriesInvalid) <==> rows >= 2 && us.len() >= 2
                    && !full_and_increasing(typing_fold(us[0].cells@)->0.values))
                &&& !(r matches Err(TblError::MismatchedRowCounts))
                &&& (r matches Ok(t) ==> {
                    &&& t.wf()
                    &&& t.seqs@.len() == us.len()
                    &&& forall|k: int|
                        0 <= k < us.len() ==> series_matches(#[trigger] t.seqs@[k], us[k])
                    &&& t.seqs@[0].ival@.len() == rows
                })
            }),
    {
        let ghost cols = raw_tbl.cols@;
        let ghost rows = raw_tbl.cols@[0].cells@.len() as int;
        if raw_tbl.row_count() < 2 {
            return Err(TblError::NotEnoughRows);
        }
        // take the columns out, left to right
        let mut stack = raw_tbl.cols;
        let mut rev: Vec<RawCol> = Vec::new();
        while stack.len() > 0
            invariant
                rev@.len() + stack@.len() == cols.len(),
                forall|j: int| 0 <= j < stack@.len() ==> stack@[j] == cols[j],
                forall|j: int|
                    0 <= j < rev@.len() ==> rev@[j] == cols[cols.len() - 1 - j],
            decreases stack@.len(),
        {
            let c = stack.pop().unwrap();
            rev.push(c);
        }
        let mut seqs: Vec<Series> = Vec::new();
        let ghost mut done: int = 0;
        while rev.len() > 0
            invariant
                0 <= done <= cols.len(),
                rev@.len() + done == cols.len(),
                forall|j: int|
                    0 <= j < rev@.len() ==> rev@[j] == cols[cols.len() - 1 - j],
                seqs@.len() == usable_cols(cols.subrange(0, done)).len(),
                forall|k: int|
                    0 <= k < seqs@.len() ==> series_matches(
                        #[trigger] seqs@[k],
                        usable_cols(cols.subrange(0, done))[k],
                    ),
                forall|k: int|
                    0 <= k < seqs@.len() ==> (#[trigger] seqs@[k]).ival@.len() == rows,
            decreases rev@.len(),
        {
            let col = rev.pop().unwrap();
            proof {
                assert(col == cols[done]);
                assert(cols.subrange(0, done + 1).drop_last() =~= cols.subrange(0, done));
                assert(cols.subrange(0, done + 1).last() == cols[done]);
            }
            let ghost colv = col;
            match Series::new(col) {
                Ok(se) => {
                    proof {
                        crate::series::lemma_typing_fold_len(colv.cells@);
                    }
                    seqs.push(se);
                },
                Err(_) => {
                    // the column is unusable; it is dropped, the table
                    // survives
                },
            }
            proof {
                done = done + 1;
            }
        }
        proof {
            assert(cols.subrange(0, cols.len() as int) =~= cols);
        }
        if seqs.len() < 2 {
            return Err(TblError::NotEnoughColumns);
        }
        if !seqs[0].is_full_and_increasing() {
            return Err(TblError::XSeriesInvalid);
        }
        Ok(Tbl { seqs })
    }

    /// Build a table from ready-made series: at least two of them, sharing
    /// one row count, the first full and strictly increasing.
    #[verifier::loop_isolation(false)]
    pub fn from_seqs(seqs: Vec<Series>) -> (r: Result<Tbl, TblError>)
        requires
            forall|k: int| 0 <= k < seqs@.len() ==> (#[trigger] seqs@[k]).wf(),
        ensures
            (r matches Err(TblError::NotEnoughColumns) <==> seqs@.len() < 2),
            (r matches Err(TblError::MismatchedRowCounts) <==> seqs@.len() >= 2 && exists|k: int|
                0 <= k < seqs@.len() && (#[trigger] seqs@[k]).ival@.len()
                    != seqs@[0].ival@.len()),
            (r matches Err(TblError::XSeriesInvalid) <==> seqs@.len() >= 2 && (forall|k: int|
                0 <= k < seqs@.len() ==> (#[trigger] seqs@[k]).ival@.len()
                    == seqs@[0].ival@.len()) && !full_and_increasing(seqs@[0].ival@)),
            !(r matches Err(TblError::NotEnoughRows)),
            r matches Ok(t) ==> t.seqs@ == seqs@ && t.wf(),
            r is Ok <==> (seqs@.len() >= 2 && (forall|k: int|
                0 <= k < seqs@.len() ==> (#[trigger] seqs@[k]).ival@.len()
                    == seqs@[0].ival@.len()) && full_and_increasing(seqs@[0].ival@)),
    {
        let n = seqs.len();
        if n < 2 {
            return Err(TblError::NotEnoughColumns);
        }
        let rows = seqs[0].ival.len();
        let mut k: usize = 1;
        while k < n
            invariant
                1 <= k <= n,
                n == seqs@.len(),
                rows == seqs@[0].ival@.len(),
                forall|j: int| 0 <= j < k ==> (#[trigger] seqs@[j]).ival@.len() == rows,
            decreases n - k,
        {
            if seqs[k].ival.len() != rows {
                return Err(TblError::MismatchedRowCounts);
            }
            k = k + 1;
        }
        if !seqs[0].is_full_and_increasing() {
            return Err(TblError::XSeriesInvalid);
        }
        Ok(Tbl { seqs })
    }

    /// The number of series, x included.
    pub fn seqs_count(&self) -> (r: usize)
        ensures
            r == self.seqs@.len(),
    {
        self.seqs.len()
    }

    /// The number of y series.
    pub fn y_seqs_count(&self) -> (r: usize)
        requires
            self.seqs@.len() >= 1,
        ensures
            r == self.seqs@.len() - 1,
    {
        self.seqs.len() - 1
    }

    /// The table's dimensions: series count and row count.
    pub fn dim(&self) -> (r: (usize, usize))
        requires
            self.seqs@.len() >= 1,
        ensures
            r.0 == self.seqs@.len(),
            r.1 == self.seqs@[0].raw@.len(),
    {
        (self.seqs.len(), self.seqs[0].len())
    }

    /// The x series.
    pub fn x_seq(&self) -> (r: &Series)
        requires
            self.seqs@.len() >= 1,
        ensures
            *r == self.seqs@[0],
    {
        &self.seqs[0]
    }

    /// The y series, in order.
    pub fn y_seqs(&self) -> (r: Vec<&Series>)
        requires
            self.seqs@.len() >= 1,
        ensures
            r@.len() == self.seqs@.len() - 1,
            forall|k: int| 0 <= k < r@.len() ==> *(#[trigger] r@[k]) == self.seqs@[k + 1],
    {
        let n = self.seqs.len();
        let mut r: Vec<&Series> = Vec::new();
        let mut k: usize = 1;
        while k < n
            invariant
                1 <= k <= n,
                n == self.seqs@.len(),
                r@.len() == k - 1,
                forall|j: int| 0 <= j < r@.len() ==> *(#[trigger] r@[j]) == self.seqs@[j + 1],
            decreases n - k,
        {
            r.push(&self.seqs[k]);
            k = k + 1;
        }
        r
    }

    /// The aggregate value range over all y series: the smallest of their
    /// minima and the largest of their maxima.
    #[verifier::loop_isolation(false)]
    pub fn y_min_max(&self) -> (r: (i64, i64))
        requires
            self.seqs@.len() >= 2,
        ensures
            r.0 == y_min_fold(self.seqs@),
            r.1 == y_max_fold(self.seqs@),
            exists|j: int| 1 <= j < self.seqs@.len() && r.0 == (#[trigger] self.seqs@[j]).min,
            exists|j: int| 1 <= j < self.seqs@.len() && r.1 == (#[trigger] self.seqs@[j]).max,
            forall|j: int| 1 <= j < self.seqs@.len() ==> r.0 <= (#[trigger] self.seqs@[j]).min,
            forall|j: int| 1 <= j < self.seqs@.len() ==> r.1 >= (#[trigger] self.seqs@[j]).max,
    {
        let n = self.seqs.len();
        let mut lo = self.seqs[1].min;
        let mut hi = self.seqs[1].max;
        let ghost mut jlo: int = 1;
        let ghost mut jhi: int = 1;
        let mut k: usize = 2;
        while k < n
            invariant
                2 <= k <= n,
                lo == y_min_fold(self.seqs@.subrange(0, k as int)),
                hi == y_max_fold(self.seqs@.subrange(0, k as int)),
                1 <= jlo < k && lo == self.seqs@[jlo].min,
                1 <= jhi < k && hi == self.seqs@[jhi].max,
                forall|j: int| 1 <= j < k ==> lo <= (#[trigger] self.seqs@[j]).min,
                forall|j: int| 1 <= j < k ==> hi >= (#[trigger] self.seqs@[j]).max,
            decreases n - k,
        {
            proof {
                let pre = self.seqs@.subrange(0, k + 1);
                assert(pre.drop_last() =~= self.seqs@.subrange(0, k as int));
                assert(pre.last() == self.seqs@[k as int]);
            }
            if self.seqs[k].min < lo {
                lo = self.seqs[k].min;
                proof {
                    jlo = k as int;
                }
            }
            if self.seqs[k].max > hi {
                hi = self.seqs[k].max;
                proof {
                    jhi = k as int;
                }
            }
            k = k + 1;
        }
        proof {
            assert(self.seqs@.subrange(0, n as int) =~= self.seqs@);
        }
        (lo, hi)
    }
}

/// The table invariants: any well-formed table has at least two series,
/// its x series is full (no absent value) and strictly increasing, and all
/// its series share one row count — in values and in text cells alike.
pub proof fn lemma_table_invariants(t: Tbl)
    requires
        t.wf(),
    ensures
        t.seqs@.len() >= 2,
        full_and_increasing(t.seqs@[0].ival@),
        forall|i: int| 0 <= i < t.seqs@[0].ival@.len() ==> (#[trigger] t.seqs@[0].ival@[i]) is Some,
        forall|k: int|
            0 <= k < t.seqs@.len() ==> (#[trigger] t.seqs@[k]).ival@.len()
                == t.seqs@[0].ival@.len(),
        forall|k: int|
            0 <= k < t.seqs@.len() ==> (#[trigger] t.seqs@[k]).raw@.len()
                == t.seqs@[0].ival@.len(),
{
    assert forall|k: int|
        0 <= k < t.seqs@.len() implies (#[trigger] t.seqs@[k]).raw@.len()
        == t.seqs@[0].ival@.len() by {
        assert(t.seqs@[k].wf());
    }
}

} // verus!
