//! Raw tabular input: headers and optional text cells, as handed over by
//! the reading layer.

use vstd::prelude::*;

verus! {

/// One raw column: a header and one optional text cell per row. A blank
/// cell is represented as `None`.
#[derive(Debug)]
pub struct RawCol {
    pub header: String,
    pub cells: Vec<Option<String>>,
}

impl RawCol {
    pub fn new(header: String) -> (r: RawCol)
        ensures
            r.header == header,
            r.cells@.len() == 0,
    {
        RawCol { header, cells: Vec::new() }
    }
}

/// A raw table: its columns are expected to share one row count.
#[derive(Debug)]
pub struct RawTbl {
    pub cols: Vec<RawCol>,
}

impl RawTbl {
    /// The number of rows, read off the first column.
    pub fn row_count(&self) -> (r: usize)
        requires
            self.cols@.len() > 0,
        ensures
            r == self.cols@[0].cells@.len(),
    {
        self.cols[0].cells.len()
    }
}

} // verus!
