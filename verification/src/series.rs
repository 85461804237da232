//! A typed, validated column of optional integral values, derived from raw
//! text cells.

use vstd::prelude::*;

verus! {

use crate::dates::{date_time_parse, format_rfc3339_utc, parse_rfc3339, rfc3339_utc_string};
use crate::nature::Nature;
use crate::parse::{dec_str_i64, i64_to_string, parse_i64, parsed_i64};
use crate::raw::RawCol;

/// Why a raw column cannot become a series.
#[derive(Debug)]
pub enum SeriesError {
    /// A cell could not be read under the column's nature; the offending
    /// cell's text is carried along.
    ParseFailure(String),
    /// No cell of the column ever parsed.
    EmptyColumn,
}

/// What one non-blank cell contributes, given the nature inferred so far:
/// the cell's integral value and the nature afterwards, or `None` when the
/// cell cannot be read. A cell under no nature, or under `Date`, is first
/// tried as an RFC 3339 timestamp, then as an integer (which widens a
/// `Date` column to `Integer`, for good); under `Integer` only integers are
/// accepted.
pub open spec fn cell_value(nature: Option<Nature>, t: Seq<char>) -> Option<(i64, Option<Nature>)> {
    match nature {
        Option::None => match date_time_parse(t) {
            Option::Some(p) => Option::Some((p.0, Option::Some(Nature::Date(p.1)))),
            Option::None => match parsed_i64(t) {
                Option::Some(v) => Option::Some((v, Option::Some(Nature::Integer))),
                Option::None => Option::None,
            },
        },
        Option::Some(Nature::Date(off)) => match date_time_parse(t) {
            Option::Some(p) => Option::Some((p.0, Option::Some(Nature::Date(off)))),
            Option::None => match parsed_i64(t) {
                Option::Some(v) => Option::Some((v, Option::Some(Nature::Integer))),
                Option::None => Option::None,
            },
        },
        Option::Some(Nature::Integer) => match parsed_i64(t) {
            Option::Some(v) => Option::Some((v, Option::Some(Nature::Integer))),
            Option::None => Option::None,
        },
    }
}

/// The running state of typing a column: the nature inferred so far, the
/// values produced so far, and the running minimum and maximum.
pub struct TypingState {
    pub nature: Option<Nature>,
    pub values: Seq<Option<i64>>,
    pub min_max: Option<(i64, i64)>,
}

/// Fold the typing step over a column's cells, left to right: `None` when
/// some cell cannot be read, otherwise the final state.
pub open spec fn typing_fold(cells: Seq<Option<String>>) -> Option<TypingState>
    decreases cells.len(),
{
    if cells.len() == 0 {
        Option::Some(
            TypingState {
                nature: Option::None,
                values: Seq::empty(),
                min_max: Option::None,
            },
        )
    } else {
        match typing_fold(cells.drop_last()) {
            Option::None => Option::None,
            Option::Some(st) => match cells.last() {
                Option::None => Option::Some(
                    TypingState {
                        nature: st.nature,
                        values: st.values.push(Option::None),
                        min_max: st.min_max,
                    },
                ),
                Option::Some(t) => match cell_value(st.nature, t@) {
                    Option::None => Option::None,
                    Option::Some(vn) => Option::Some(
                        TypingState {
                            nature: vn.1,
                            values: st.values.push(Option::Some(vn.0)),
                            min_max: match st.min_max {
                                Option::None => Option::Some((vn.0, vn.0)),
                                Option::Some(mm) => Option::Some(
                                    (
                                        if vn.0 < mm.0 {
                                            vn.0
                                        } else {
                                            mm.0
                                        },
                                        if vn.0 > mm.1 {
                                            vn.0
                                        } else {
                                            mm.1
                                        },
                                    ),
                                ),
                            },
                        },
                    ),
                },
            },
        }
    }
}

/// The running minimum and maximum over the present values of a column.
pub open spec fn min_max_of(ivs: Seq<Option<i64>>) -> Option<(i64, i64)>
    decreases ivs.len(),
{
    if ivs.len() == 0 {
        Option::None
    } else {
        let pre = min_max_of(ivs.drop_last());
        match ivs.last() {
            Option::None => pre,
            Option::Some(v) => match pre {
                Option::None => Option::Some((v, v)),
                Option::Some(mm) => Option::Some(
                    (
                        if v < mm.0 {
                            v
                        } else {
                            mm.0
                        },
                        if v > mm.1 {
                            v
                        } else {
                            mm.1
                        },
                    ),
                ),
            },
        }
    }
}

/// A failed prefix stays failed when the column grows.
proof fn lemma_typing_fold_prefix(cells: Seq<Option<String>>, i: int, j: int)
    requires
        0 <= i <= j <= cells.len(),
        typing_fold(cells.subrange(0, j)) is Some,
    ensures
        typing_fold(cells.subrange(0, i)) is Some,
    decreases j - i,
{
    if i < j {
        let pre = cells.subrange(0, j);
        assert(pre.drop_last() =~= cells.subrange(0, j - 1));
        lemma_typing_fold_prefix(cells, i, j - 1);
    }
}

/// Typing produces exactly one value slot per cell.
pub proof fn lemma_typing_fold_len(cells: Seq<Option<String>>)
    requires
        typing_fold(cells) is Some,
    ensures
        typing_fold(cells)->0.values.len() == cells.len(),
    decreases cells.len(),
{
    if cells.len() > 0 {
        lemma_typing_fold_len(cells.drop_last());
    }
}

/// A prefix that fails to type makes every longer prefix fail as well.
proof fn lemma_typing_fold_none_extends(cells: Seq<Option<String>>, j: int, k: int)
    requires
        0 <= j <= k <= cells.len(),
        typing_fold(cells.subrange(0, j)) is None,
    ensures
        typing_fold(cells.subrange(0, k)) is None,
    decreases k - j,
{
    if j < k {
        lemma_typing_fold_none_extends(cells, j, k - 1);
        assert(cells.subrange(0, k).drop_last() =~= cells.subrange(0, k - 1));
    }
}

/// The index of the first cell that cannot be read (meaningful when the
/// whole column fails to type).
pub open spec fn first_bad_index(cells: Seq<Option<String>>) -> int
    recommends
        typing_fold(cells) is None,
    decreases cells.len(),
{
    if cells.len() == 0 {
        0
    } else if typing_fold(cells.drop_last()) is None {
        first_bad_index(cells.drop_last())
    } else {
        cells.len() - 1
    }
}

/// When the cells up to `i` type but the cell at `i` breaks the typing,
/// `i` is the first bad index of the whole column.
proof fn lemma_first_bad_index(cells: Seq<Option<String>>, i: int)
    requires
        0 <= i < cells.len(),
        typing_fold(cells.subrange(0, i)) is Some,
        typing_fold(cells.subrange(0, i + 1)) is None,
    ensures
        first_bad_index(cells) == i,
    decreases cells.len(),
{
    if i == cells.len() - 1 {
        assert(cells.drop_last() =~= cells.subrange(0, i));
        assert(cells.subrange(0, i + 1) =~= cells);
    } else {
        let pre = cells.drop_last();
        lemma_typing_fold_none_extends(cells, i + 1, cells.len() - 1);
        assert(pre =~= cells.subrange(0, cells.len() - 1));
        assert(pre.subrange(0, i) =~= cells.subrange(0, i));
        assert(pre.subrange(0, i + 1) =~= cells.subrange(0, i + 1));
        lemma_first_bad_index(pre, i);
    }
}

/// Once the typing of a column has widened its nature to `Integer`, every
/// longer (still readable) prefix keeps the nature `Integer`: the widening
/// never reverts.
pub proof fn lemma_nature_widening_monotonic(cells: Seq<Option<String>>, i: int, j: int)
    requires
        0 <= i <= j <= cells.len(),
        typing_fold(cells.subrange(0, i)) is Some,
        typing_fold(cells.subrange(0, i))->0.nature == Option::Some(Nature::Integer),
        typing_fold(cells.subrange(0, j)) is Some,
    ensures
        typing_fold(cells.subrange(0, j))->0.nature == Option::Some(Nature::Integer),
    decreases j - i,
{
    if i < j {
        let pre = cells.subrange(0, j);
        assert(pre.drop_last() =~= cells.subrange(0, j - 1));
        lemma_typing_fold_prefix(cells, j - 1, j);
        lemma_nature_widening_monotonic(cells, i, j - 1);
    }
}

/// The values are all present and strictly increasing.
pub open spec fn full_and_increasing(ivs: Seq<Option<i64>>) -> bool {
    &&& forall|i: int| 0 <= i < ivs.len() ==> (#[trigger] ivs[i]) is Some
    &&& forall|i: int|
        #![trigger ivs[i], ivs[i + 1]]
        0 <= i && i + 1 < ivs.len() ==> ivs[i]->0 < ivs[i + 1]->0
}

/// In a full, strictly increasing column, values grow with the row index.
pub proof fn lemma_full_and_increasing_ordered(ivs: Seq<Option<i64>>, i: int, j: int)
    requires
        full_and_increasing(ivs),
        0 <= i <= j < ivs.len(),
    ensures
        ivs[i]->0 <= ivs[j]->0,
    decreases j - i,
{
    if i < j {
        lemma_full_and_increasing_ordered(ivs, i, j - 1);
        assert(ivs[j - 1]->0 < ivs[(j - 1) + 1]->0);
    }
}

/// In a full, strictly increasing column, values of distinct rows are
/// strictly ordered.
pub proof fn lemma_full_and_increasing_strict(ivs: Seq<Option<i64>>, i: int, j: int)
    requires
        full_and_increasing(ivs),
        0 <= i < j < ivs.len(),
    ensures
        ivs[i]->0 < ivs[j]->0,
{
    lemma_full_and_increasing_ordered(ivs, i, j - 1);
    assert(ivs[j - 1]->0 < ivs[(j - 1) + 1]->0);
}

/// A typed column: a header, the inferred nature, the original text cells,
/// the derived integral values (milliseconds since the epoch for dates),
/// and the cached minimum and maximum over the present values.
#[derive(Debug)]
pub struct Series {
    pub header: String,
    pub nature: Nature,
    pub raw: Vec<Option<String>>,
    pub ival: Vec<Option<i64>>,
    pub min: i64,
    pub max: i64,
}

impl Series {
    /// A well-formed series: texts and values line up, at least one value
    /// is present, and `min` / `max` are the exact bounds of the present
    /// values.
    pub open spec fn wf(self) -> bool {
        &&& self.raw@.len() == self.ival@.len()
        &&& self.min <= self.max
        &&& exists|i: int| 0 <= i < self.ival@.len() && self.ival@[i] == Option::Some(self.min)
        &&& exists|i: int| 0 <= i < self.ival@.len() && self.ival@[i] == Option::Some(self.max)
        &&& forall|i: int|
            0 <= i < self.ival@.len() ==> ((#[trigger] self.ival@[i]) matches Option::Some(v)
                ==> self.min <= v <= self.max)
    }

    /// Build a series from a raw column by inferring its nature from the
    /// first non-blank cell and reading every later non-blank cell under
    /// the nature inferred so far (see [`cell_value`]). Dates become
    /// milliseconds since the epoch; integers are taken as they are. A cell
    /// that cannot be read fails the column; a column without a single
    /// readable cell is rejected as empty.
    #[verifier::loop_isolation(false)]
    #[verifier::rlimit(60)]
    pub fn new(raw_col: RawCol) -> (r: Result<Series, SeriesError>)
        ensures
            ({
                let f = typing_fold(raw_col.cells@);
                &&& (r matches Err(SeriesError::ParseFailure(c)) <==> f is None)
                &&& (r matches Err(SeriesError::ParseFailure(c)) ==> {
                    let bad = first_bad_index(raw_col.cells@);
                    &&& 0 <= bad < raw_col.cells@.len()
                    &&& raw_col.cells@[bad] == Option::Some(c)
                })
                &&& (r matches Err(SeriesError::EmptyColumn) <==> (f is Some && f->0.nature
                    is None))
                &&& (r matches Ok(se) ==> {
                    &&& f is Some
                    &&& f->0.nature == Option::Some(se.nature)
                    &&& f->0.values == se.ival@
                    &&& f->0.min_max == Option::Some((se.min, se.max))
                    &&& se.header == raw_col.header
                    &&& se.raw@ == raw_col.cells@
                    &&& se.wf()
                })
            }),
    {
        let RawCol { header, cells: raw } = raw_col;
        let ghost cells = raw@;
        let n = raw.len();
        let mut ival: Vec<Option<i64>> = Vec::new();
        let mut nature_opt: Option<Nature> = Option::None;
        let mut mm: Option<(i64, i64)> = Option::None;
        let ghost mut kmin: int = 0;
        let ghost mut kmax: int = 0;
        let mut i: usize = 0;
        while i < n
            invariant
                0 <= i <= n,
                n == cells.len(),
                raw@ == cells,
                ival@.len() == i,
                typing_fold(cells.subrange(0, i as int)) == Option::Some(
                    TypingState { nature: nature_opt, values: ival@, min_max: mm },
                ),
                nature_opt is Some <==> mm is Some,
                mm matches Option::Some(p) ==> {
                    &&& p.0 <= p.1
                    &&& 0 <= kmin < i && ival@[kmin] == Option::Some(p.0)
                    &&& 0 <= kmax < i && ival@[kmax] == Option::Some(p.1)
                    &&& forall|k: int|
                        0 <= k < i ==> ((#[trigger] ival@[k]) matches Option::Some(v) ==> p.0 <= v
                            <= p.1)
                },
                mm is None ==> forall|k: int| 0 <= k < i ==> (#[trigger] ival@[k]) is None,
            decreases n - i,
        {
            proof {
                assert(cells.subrange(0, i + 1).drop_last() =~= cells.subrange(0, i as int));
                assert(cells.subrange(0, i + 1).last() == cells[i as int]);
            }
            match &raw[i] {
                Option::None => {
                    ival.push(Option::None);
                },
                Option::Some(s) => {
                    let v: i64;
                    match nature_opt {
                        Option::None => {
                            match parse_rfc3339(s.as_str()) {
                                Option::Some(p) => {
                                    v = p.0;
                                    nature_opt = Option::Some(Nature::Date(p.1));
                                },
                                Option::None => {
                                    match parse_i64(s.as_str()) {
                                        Option::Some(x) => {
                                            v = x;
                                            nature_opt = Option::Some(Nature::Integer);
                                        },
                                        Option::None => {
                                            proof {
                                                assert(typing_fold(cells.subrange(0, i + 1))
                                                    is None);
                                                lemma_typing_fold_none_extends(
                                                    cells,
                                                    i + 1,
                                                    n as int,
                                                );
                                                assert(cells.subrange(0, n as int) =~= cells);
                                                lemma_first_bad_index(cells, i as int);
                                            }
                                            return Err(SeriesError::ParseFailure(s.clone()));
                                        },
                                    }
                                },
                            }
                        },
                        Option::Some(Nature::Date(_)) => {
                            match parse_rfc3339(s.as_str()) {
                                Option::Some(p) => {
                                    v = p.0;
                                },
                                Option::None => {
                                    match parse_i64(s.as_str()) {
                                        Option::Some(x) => {
                                            // the column widens to Integer,
                                            // for good
                                            v = x;
                                            nature_opt = Option::Some(Nature::Integer);
                                        },
                                        Option::None => {
                                            proof {
                                                assert(typing_fold(cells.subrange(0, i + 1))
                                                    is None);
                                                lemma_typing_fold_none_extends(
                                                    cells,
                                                    i + 1,
                                                    n as int,
                                                );
                                                assert(cells.subrange(0, n as int) =~= cells);
                                                lemma_first_bad_index(cells, i as int);
                                            }
                                            return Err(SeriesError::ParseFailure(s.clone()));
                                        },
                                    }
                                },
                            }
                        },
                        Option::Some(Nature::Integer) => {
                            match parse_i64(s.as_str()) {
                                Option::Some(x) => {
                                    v = x;
                                },
                                Option::None => {
                                    proof {
                                        assert(typing_fold(cells.subrange(0, i + 1)) is None);
                                        lemma_typing_fold_none_extends(cells, i + 1, n as int);
                                        assert(cells.subrange(0, n as int) =~= cells);
                                        lemma_first_bad_index(cells, i as int);
                                    }
                                    return Err(SeriesError::ParseFailure(s.clone()));
                                },
                            }
                        },
                    }
                    ival.push(Option::Some(v));
                    match mm {
                        Option::None => {
                            mm = Option::Some((v, v));
                            proof {
                                kmin = i as int;
                                kmax = i as int;
                            }
                        },
                        Option::Some(p) => {
                            mm = Option::Some(
                                (
                                    if v < p.0 {
                                        v
                                    } else {
                                        p.0
                                    },
                                    if v > p.1 {
                                        v
                                    } else {
                                        p.1
                                    },
                                ),
                            );
                            proof {
                                if v < p.0 {
                                    kmin = i as int;
                                }
                                if v > p.1 {
                                    kmax = i as int;
                                }
                            }
                        },
                    };
                },
            }
            i = i + 1;
        }
        proof {
            assert(cells.subrange(0, n as int) =~= cells);
        }
        match nature_opt {
            Option::None => Err(SeriesError::EmptyColumn),
            Option::Some(nature) => {
                let (lo, hi) = mm.unwrap();
                Ok(Series { header, nature, raw, ival, min: lo, max: hi })
            },
        }
    }

    /// Build an `Integer` series from already-parsed optional values; the
    /// text cells are the decimal renderings of the present values. A
    /// column without a single present value is rejected as empty.
    #[verifier::loop_isolation(false)]
    pub fn from_integers(header: String, ival: Vec<Option<i64>>) -> (r: Result<
        Series,
        SeriesError,
    >)
        ensures
            r is Ok <==> min_max_of(ival@) is Some,
            r is Err ==> r matches Err(SeriesError::EmptyColumn),
            r matches Ok(se) ==> {
                &&& min_max_of(ival@) == Option::Some((se.min, se.max))
                &&& se.header == header
                &&& se.nature == Nature::Integer
                &&& se.ival@ == ival@
                &&& se.raw@.len() == ival@.len()
                &&& forall|k: int|
                    0 <= k < ival@.len() ==> match ival@[k] {
                        Option::Some(v) => (#[trigger] se.raw@[k]) matches Option::Some(s) && s@
                            == dec_str_i64(v as int),
                        Option::None => se.raw@[k] is None,
                    }
                &&& se.wf()
            },
    {
        let n = ival.len();
        let mut raw: Vec<Option<String>> = Vec::new();
        let mut mm: Option<(i64, i64)> = Option::None;
        let ghost mut kmin: int = 0;
        let ghost mut kmax: int = 0;
        let mut i: usize = 0;
        while i < n
            invariant
                0 <= i <= n,
                n == ival@.len(),
                raw@.len() == i,
                mm == min_max_of(ival@.subrange(0, i as int)),
                forall|k: int|
                    0 <= k < i ==> match ival@[k] {
                        Option::Some(v) => (#[trigger] raw@[k]) matches Option::Some(s) && s@
                            == dec_str_i64(v as int),
                        Option::None => raw@[k] is None,
                    },
                mm matches Option::Some(p) ==> {
                    &&& p.0 <= p.1
                    &&& 0 <= kmin < i && ival@[kmin] == Option::Some(p.0)
                    &&& 0 <= kmax < i && ival@[kmax] == Option::Some(p.1)
                    &&& forall|k: int|
                        0 <= k < i ==> ((#[trigger] ival@[k]) matches Option::Some(v) ==> p.0 <= v
                            <= p.1)
                },
                mm is None ==> forall|k: int| 0 <= k < i ==> (#[trigger] ival@[k]) is None,
            decreases n - i,
        {
            proof {
                assert(ival@.subrange(0, i + 1).drop_last() =~= ival@.subrange(0, i as int));
                assert(ival@.subrange(0, i + 1).last() == ival@[i as int]);
            }
            match ival[i] {
                Option::None => {
                    raw.push(Option::None);
                },
                Option::Some(v) => {
                    raw.push(Option::Some(i64_to_string(v)));
                    match mm {
                        Option::None => {
                            mm = Option::Some((v, v));
                            proof {
                                kmin = i as int;
                                kmax = i as int;
                            }
                        },
                        Option::Some(p) => {
                            let nmin = if v < p.0 {
                                v
                            } else {
                                p.0
                            };
                            let nmax = if v > p.1 {
                                v
                            } else {
                                p.1
                            };
                            mm = Option::Some((nmin, nmax));
                            proof {
                                if v < p.0 {
                                    kmin = i as int;
                                }
                                if v > p.1 {
                                    kmax = i as int;
                                }
                            }
                        },
                    };
                },
            }
            i = i + 1;
        }
        proof {
            assert(ival@.subrange(0, n as int) =~= ival@);
        }
        match mm {
            Option::None => Err(SeriesError::EmptyColumn),
            Option::Some((lo, hi)) => Ok(
                Series { header, nature: Nature::Integer, raw, ival, min: lo, max: hi },
            ),
        }
    }

    /// Build a `Date` series from a strictly increasing sequence of
    /// instants in milliseconds since the epoch; the text cells are the
    /// RFC 3339 renderings of the instants. An empty sequence is rejected.
    #[verifier::loop_isolation(false)]
    pub fn from_increasing_times(header: String, times: Vec<i64>) -> (r: Result<
        Series,
        SeriesError,
    >)
        requires
            crate::unoverlap::strictly_increasing(times@),
            forall|k: int|
                0 <= k < times@.len() ==> -8_000_000_000_000_000 <= #[trigger] times@[k]
                    <= 8_000_000_000_000_000,
        ensures
            r is Ok <==> times@.len() > 0,
            r is Err ==> r matches Err(SeriesError::EmptyColumn),
            r matches Ok(se) ==> {
                &&& se.header == header
                &&& se.nature == Nature::Date(0)
                &&& se.ival@.len() == times@.len()
                &&& forall|k: int|
                    0 <= k < times@.len() ==> #[trigger] se.ival@[k] == Option::Some(times@[k])
                &&& se.raw@.len() == times@.len()
                &&& forall|k: int|
                    0 <= k < times@.len() ==> ((#[trigger] se.raw@[k]) matches Option::Some(s)
                        && s@ == rfc3339_utc_string(times@[k]))
                &&& se.min == times@[0]
                &&& se.max == times@[times@.len() - 1]
                &&& se.wf()
            },
    {
        let n = times.len();
        if n == 0 {
            return Err(SeriesError::EmptyColumn);
        }
        let mut raw: Vec<Option<String>> = Vec::new();
        let mut ival: Vec<Option<i64>> = Vec::new();
        let mut i: usize = 0;
        while i < n
            invariant
                0 <= i <= n,
                n == times@.len(),
                raw@.len() == i,
                ival@.len() == i,
                forall|k: int| 0 <= k < i ==> #[trigger] ival@[k] == Option::Some(times@[k]),
                forall|k: int|
                    0 <= k < i ==> ((#[trigger] raw@[k]) matches Option::Some(s) && s@
                        == rfc3339_utc_string(times@[k])),
            decreases n - i,
        {
            let t = times[i];
            raw.push(Option::Some(format_rfc3339_utc(t)));
            ival.push(Option::Some(t));
            i = i + 1;
        }
        let lo = times[0];
        let hi = times[n - 1];
        proof {
            assert forall|k: int| 0 <= k < times@.len() implies lo <= #[trigger] times@[k]
                <= hi by {
                crate::unoverlap::lemma_increasing_gap(times@, 0, k);
                crate::unoverlap::lemma_increasing_gap(times@, k, times@.len() - 1);
            }
            assert(ival@[0] == Option::Some(lo));
            assert(ival@[n - 1] == Option::Some(hi));
        }
        Ok(Series { header, nature: Nature::Date(0), raw, ival, min: lo, max: hi })
    }

    /// The number of rows.
    pub fn len(&self) -> (r: usize)
        ensures
            r == self.raw@.len(),
    {
        self.raw.len()
    }

    /// Whether every value is present and the values strictly increase —
    /// what the x series of a table must satisfy.
    pub fn is_full_and_increasing(&self) -> (r: bool)
        ensures
            r == full_and_increasing(self.ival@),
    {
        let n = self.ival.len();
        if n == 0 {
            return true;
        }
        let mut prev: i64;
        match self.ival[0] {
            Option::None => {
                return false;
            },
            Option::Some(v) => {
                prev = v;
            },
        }
        let mut i: usize = 1;
        while i < n
            invariant
                1 <= i <= n,
                n == self.ival@.len(),
                forall|j: int| 0 <= j < i ==> (#[trigger] self.ival@[j]) is Some,
                forall|j: int|
                    #![trigger self.ival@[j], self.ival@[j + 1]]
                    0 <= j && j + 1 < i ==> self.ival@[j]->0 < self.ival@[j + 1]->0,
                self.ival@[i - 1] == Option::Some(prev),
            decreases n - i,
        {
            match self.ival[i] {
                Option::None => {
                    proof {
                        assert(!((self.ival@[i as int]) is Some));
                    }
                    return false;
                },
                Option::Some(v) => {
                    if prev >= v {
                        proof {
                            let j = i - 1 as int;
                            assert(self.ival@[j]->0 >= self.ival@[j + 1]->0);
                        }
                        return false;
                    }
                    prev = v;
                },
            }
            i = i + 1;
        }
        true
    }
}

} // verus!
