//! Assembling a chart layout from a validated table: the value-axis scale,
//! the projector into the drawing frame, and the tick and curve positions
//! the rendering layer consumes.

use vstd::prelude::*;

verus! {

use crate::projector::{
    iabs,
    lemma_trunc_div_in_range,
    project_x_spec,
    project_y_spec,
    IntRect,
    Projector,
};
use crate::scale::{scale_first, scale_step, widened_max, Scale};
use crate::series::{
    lemma_full_and_increasing_ordered,
    lemma_full_and_increasing_strict,
};
use crate::tbl::{y_max_fold, y_min_fold, Tbl};
use crate::unoverlap::{
    is_strictly_increasing,
    spaced,
    strictly_increasing,
    unoverlap,
    unoverlap_spec,
};
use crate::visibility::Visibility;

/// A chart under construction: the data, the value-axis scale, the
/// projector into the drawing frame, and the frame itself.
#[derive(Debug)]
pub struct Graph {
    pub tbl: Tbl,
    pub width: usize,
    pub height: usize,
    pub gr: IntRect,
    pub projector: Projector,
    pub scale: Scale,
    /// whether to build elements only visible on hover
    pub hover: bool,
}

/// One x-axis tick: the row it belongs to, its projected position, the
/// (possibly de-overlapped) position of its label, and how it is shown.
#[derive(Clone, Copy, Debug, PartialEq, Eq, Structural)]
pub struct XTick {
    pub idx: usize,
    pub x: i64,
    pub tx: i64,
    pub vis: Visibility,
}

/// The projected x position of the table's row `i`.
pub open spec fn x_dot(g: Graph, i: int) -> int {
    project_x_spec(g.projector, g.tbl.seqs@[0].ival@[i]->0 as int)
}

/// All the projected x positions of the table's rows, in row order.
pub open spec fn x_dots(g: Graph) -> Seq<i64> {
    Seq::new(g.tbl.seqs@[0].ival@.len(), |i: int| x_dot(g, i) as i64)
}

/// The rows of a y column holding a value, in order.
pub open spec fn present_rows(ys: Seq<Option<i64>>) -> Seq<int>
    decreases ys.len(),
{
    if ys.len() == 0 {
        Seq::empty()
    } else {
        let pre = present_rows(ys.drop_last());
        if ys.last() is Some {
            pre.push(ys.len() - 1)
        } else {
            pre
        }
    }
}

impl Graph {
    /// A fully assembled chart: a well-formed table of at least two rows,
    /// the scale covering every y series, and the projector mapping the
    /// data rectangle (x span wide, scale range tall, y flipped) onto the
    /// drawing frame.
    pub open spec fn wf(self) -> bool {
        &&& self.tbl.wf()
        &&& 2 <= self.tbl.seqs@[0].ival@.len() <= 0x1000_0000_0000_0000
        &&& forall|k: int|
            0 <= k < self.tbl.seqs@.len() ==> -0x0800_0000_0000_0000 <= (
            #[trigger] self.tbl.seqs@[k]).min && self.tbl.seqs@[k].max <= 0x0800_0000_0000_0000
        &&& forall|k: int|
            1 <= k < self.tbl.seqs@.len() ==> self.scale.min <= (#[trigger] self.tbl.seqs@[k]).min
                && self.tbl.seqs@[k].max <= self.scale.max
        &&& -0x3000_0000_0000_0000 <= self.scale.min
        &&& self.scale.min < self.scale.max <= 0x3000_0000_0000_0000
        &&& self.scale.max - self.scale.min <= 0x6000_0000_0000_0000
        &&& self.projector == (Projector {
            sx: self.tbl.seqs@[0].min,
            sy: self.scale.max,
            dx: self.gr.left,
            dy: self.gr.top,
            sw: (self.tbl.seqs@[0].max - self.tbl.seqs@[0].min) as i64,
            sh: (self.scale.min - self.scale.max) as i64,
            dw: self.gr.width,
            dh: self.gr.height,
        })
        &&& self.tbl.seqs@[0].min < self.tbl.seqs@[0].max
        &&& self.gr == (IntRect { left: 70, top: 26, width: 680, height: 389 })
        &&& self.width == 800
        &&& self.height == 500
    }

    /// Build the chart for a table: compute the aggregate y range, derive
    /// the scale from it, and set up the projector from the data rectangle
    /// (x span by scale range, y axis flipped) onto the fixed drawing
    /// frame. The scale is pinned to the one [`Scale::new`] derives from
    /// the aggregate y range: round power-of-ten ticks from the aggregate
    /// minimum snapped down, up to the first tick beyond the (possibly
    /// widened) aggregate maximum.
    pub fn new(tbl: Tbl) -> (g: Graph)
        requires
            tbl.wf(),
            2 <= tbl.seqs@[0].ival@.len() <= 0x1000_0000_0000_0000,
            forall|k: int|
                0 <= k < tbl.seqs@.len() ==> -0x0800_0000_0000_0000 <= (
                #[trigger] tbl.seqs@[k]).min && tbl.seqs@[k].max <= 0x0800_0000_0000_0000,
        ensures
            g.wf(),
            g.tbl == tbl,
            ({
                let lo = y_min_fold(tbl.seqs@);
                let hi = y_max_fold(tbl.seqs@);
                &&& g.scale.ticks@.len() >= 2
                &&& g.scale.min == g.scale.ticks@[0]
                &&& g.scale.max == g.scale.ticks@[g.scale.ticks@.len() - 1]
                &&& g.scale.ticks@[0] == scale_first(lo, hi)
                &&& forall|i: int|
                    0 <= i < g.scale.ticks@.len() ==> #[trigger] g.scale.ticks@[i] == scale_first(
                        lo,
                        hi,
                    ) + i * scale_step(lo, hi)
                &&& g.scale.ticks@[g.scale.ticks@.len() - 1] > widened_max(lo, hi)
                &&& g.scale.ticks@[g.scale.ticks@.len() - 2] <= widened_max(lo, hi)
                &&& g.scale.min <= lo
                &&& g.scale.max > hi
            }),
    {
        let width: usize = 800;
        let height: usize = 500;
        let x_min = tbl.x_seq().min;
        let x_max = tbl.x_seq().max;
        let (y_min, y_max) = tbl.y_min_max();
        proof {
            // the x series holds at least two increasing values, so its
            // cached bounds sit on its first and last rows, strictly apart
            let xs = tbl.seqs@[0].ival@;
            let last = xs.len() - 1;
            assert(xs[0] is Some && xs[last] is Some);
            let ki = choose|i: int| 0 <= i < xs.len() && xs[i] == Option::Some(tbl.seqs@[0].min);
            lemma_full_and_increasing_ordered(xs, 0, ki);
            assert(tbl.seqs@[0].min == xs[0]->0);
            let kj = choose|i: int| 0 <= i < xs.len() && xs[i] == Option::Some(tbl.seqs@[0].max);
            lemma_full_and_increasing_ordered(xs, kj, last);
            assert(tbl.seqs@[0].max == xs[last]->0);
            lemma_full_and_increasing_strict(xs, 0, last);
            // the aggregate y range is a real range
            let jl = choose|j: int| 1 <= j < tbl.seqs@.len() && y_min == tbl.seqs@[j].min;
            assert(tbl.seqs@[jl].wf());
        }
        let scale = Scale::new(y_min, y_max);
        let range = scale.range();
        let sr = IntRect::new(x_min, scale.max, x_max - x_min, -range);
        let (top, right, bottom, left) = (26i64, 50i64, 85i64, 70i64);
        let gr = IntRect::new(
            left,
            top,
            width as i64 - (left + right),
            height as i64 - (top + bottom),
        );
        let projector = Projector::new(&sr, &gr);
        Graph { tbl, width, height, gr, projector, scale, hover: true }
    }
}

/// Any x value between the x series' bounds projects into the frame's
/// horizontal span.
proof fn lemma_x_in_frame(g: Graph, v: int)
    requires
        g.wf(),
        g.tbl.seqs@[0].min <= v <= g.tbl.seqs@[0].max,
    ensures
        g.gr.left <= project_x_spec(g.projector, v) <= g.gr.left + g.gr.width,
{
    let p = g.projector;
    let n = (v - p.sx) * p.dw;
    assert(0 <= n <= p.sw * p.dw && n * p.sw >= 0) by (nonlinear_arith)
        requires n == (v - p.sx) * p.dw && 0 <= v - p.sx <= p.sw && p.dw > 0 && p.sw > 0,
    ;
    assert(iabs(n) <= iabs(p.sw as int) * p.dw);
    lemma_trunc_div_in_range(n, p.sw as int, p.dw as int);
}

/// Any y value between the scale's bounds projects into the frame's
/// vertical span.
proof fn lemma_y_in_frame(g: Graph, v: int)
    requires
        g.wf(),
        g.scale.min <= v <= g.scale.max,
    ensures
        g.gr.top <= project_y_spec(g.projector, v) <= g.gr.top + g.gr.height,
{
    let p = g.projector;
    let n = (v - p.sy) * p.dh;
    assert(p.sh * p.dh <= n <= 0 && n * p.sh >= 0) by (nonlinear_arith)
        requires n == (v - p.sy) * p.dh && p.sh <= v - p.sy <= 0 && p.dh > 0 && p.sh < 0,
    ;
    assert(iabs(n) <= iabs(p.sh as int) * p.dh) by (nonlinear_arith)
        requires p.sh * p.dh <= n <= 0 && p.sh < 0 && iabs(n) == -n && iabs(p.sh as int) == -(
            p.sh as int),
    ;
    lemma_trunc_div_in_range(n, p.sh as int, p.dh as int);
}

impl Graph {
    /// The x-axis ticks: one per row, at the row's projected position.
    /// When the projected positions are strictly increasing and can be
    /// spread at least ten pixels apart, the labels are moved to such
    /// de-overlapped positions and shown faded; otherwise the inner labels
    /// are only shown on hover. The first and last tick stay put and stay
    /// visible.
    #[verifier::loop_isolation(false)]
    #[verifier::rlimit(60)]
    pub fn x_tick_positions(&self) -> (r: Vec<XTick>)
        requires
            self.wf(),
        ensures
            ({
                let rows = self.tbl.seqs@[0].ival@.len() as int;
                &&& r@.len() == rows
                &&& forall|i: int| 0 <= i < rows ==> (#[trigger] r@[i]).idx == i
                &&& forall|i: int| 0 <= i < rows ==> (#[trigger] r@[i]).x == x_dot(*self, i)
                &&& r@[0].tx == r@[0].x && r@[rows - 1].tx == r@[rows - 1].x
                &&& r@[0].vis == Visibility::Visible && r@[rows - 1].vis == Visibility::Visible
                &&& ({
                    let dots = x_dots(*self);
                    if strictly_increasing(dots) && unoverlap_spec(dots, 10) is Some {
                        &&& forall|i: int|
                            0 < i < rows - 1 ==> (#[trigger] r@[i]).vis == Visibility::Faded
                        &&& forall|i: int|
                            0 <= i < rows ==> (#[trigger] r@[i]).tx == (unoverlap_spec(
                                dots,
                                10,
                            )->0)[i]
                        &&& forall|i: int|
                            #![trigger r@[i], r@[i + 1]]
                            0 <= i && i + 1 < rows ==> r@[i + 1].tx - r@[i].tx >= 10
                        &&& forall|i: int|
                            #![trigger r@[i], r@[i + 1]]
                            0 <= i && i + 1 < rows ==> r@[i].tx < r@[i + 1].tx
                    } else {
                        &&& forall|i: int|
                            0 < i < rows - 1 ==> (#[trigger] r@[i]).vis == Visibility::Invisible
                        &&& forall|i: int| 0 <= i < rows ==> (#[trigger] r@[i]).tx == r@[i].x
                    }
                })
            }),
    {
        let x_seq = self.tbl.x_seq();
        let n = x_seq.ival.len();
        let mut dots: Vec<i64> = Vec::new();
        let mut ticks: Vec<XTick> = Vec::new();
        let mut i: usize = 0;
        while i < n
            invariant
                0 <= i <= n,
                n == self.tbl.seqs@[0].ival@.len(),
                dots@.len() == i,
                ticks@.len() == i,
                forall|j: int| 0 <= j < i ==> (#[trigger] ticks@[j]).idx == j,
                forall|j: int| 0 <= j < i ==> (#[trigger] ticks@[j]).x == x_dot(*self, j),
                forall|j: int| 0 <= j < i ==> (#[trigger] ticks@[j]).tx == ticks@[j].x,
                forall|j: int| 0 <= j < i ==> (#[trigger] ticks@[j]).vis == Visibility::Visible,
                forall|j: int| 0 <= j < i ==> #[trigger] dots@[j] == ticks@[j].x,
            decreases n - i,
        {
            let v = self.tbl.seqs[0].ival[i].unwrap();
            proof {
                assert(self.tbl.seqs@[0].wf());
                lemma_x_in_frame(*self, v as int);
            }
            let px = self.projector.project_x(v);
            dots.push(px);
            ticks.push(XTick { idx: i, x: px, tx: px, vis: Visibility::Visible });
            i = i + 1;
        }
        proof {
            assert(dots@ =~= x_dots(*self));
        }
        // improve the label positions to avoid overlap; where that cannot
        // be done, show the inner labels only on hover
        if is_strictly_increasing(&dots) {
            let ghost dots0 = dots@;
            match unoverlap(dots, 10) {
                Option::Some(nd) => {
                    proof {
                        assert(unoverlap_spec(dots0, 10) == Some(nd@));
                    }
                    let mut i: usize = 1;
                    while i + 1 < n
                        invariant
                            1 <= i,
                            i < n || i == 1,
                            n == self.tbl.seqs@[0].ival@.len(),
                            n == nd@.len(),
                            ticks@.len() == n,
                            spaced(nd@, 10),
                            strictly_increasing(nd@),
                            nd@[0] == dots0[0] && nd@[n - 1] == dots0[n - 1],
                            forall|j: int| 0 <= j < n ==> #[trigger] dots0[j] == ticks@[j].x,
                            forall|j: int| 0 <= j < n ==> (#[trigger] ticks@[j]).idx == j,
                            forall|j: int|
                                0 <= j < n ==> (#[trigger] ticks@[j]).x == x_dot(*self, j),
                            forall|j: int|
                                0 < j < i ==> (#[trigger] ticks@[j]).vis == Visibility::Faded,
                            forall|j: int| 0 < j < i ==> (#[trigger] ticks@[j]).tx == nd@[j],
                            forall|j: int|
                                (j == 0 || i <= j < n) ==> (#[trigger] ticks@[j]).vis
                                    == Visibility::Visible,
                            forall|j: int|
                                (j == 0 || i <= j < n) ==> (#[trigger] ticks@[j]).tx
                                    == ticks@[j].x,
                        decreases n - i,
                    {
                        let t = ticks[i];
                        ticks[i] = XTick { idx: t.idx, x: t.x, tx: nd[i], vis: Visibility::Faded };
                        i = i + 1;
                    }
                    proof {
                        assert forall|j: int|
                            #![trigger ticks@[j], ticks@[j + 1]]
                            0 <= j && j + 1 < n implies ticks@[j + 1].tx - ticks@[j].tx >= 10
                            && ticks@[j].tx < ticks@[j + 1].tx by {
                            assert(ticks@[j].tx == nd@[j]);
                            assert(ticks@[j + 1].tx == nd@[j + 1]);
                        }
                        assert forall|j: int| 0 <= j < n implies (#[trigger] ticks@[j]).tx
                            == nd@[j] by {}
                    }
                },
                Option::None => {
                    let mut i: usize = 1;
                    while i + 1 < n
                        invariant
                            1 <= i,
                            i < n || i == 1,
                            n == self.tbl.seqs@[0].ival@.len(),
                            ticks@.len() == n,
                            forall|j: int| 0 <= j < n ==> (#[trigger] ticks@[j]).idx == j,
                            forall|j: int|
                                0 <= j < n ==> (#[trigger] ticks@[j]).x == x_dot(*self, j),
                            forall|j: int| 0 <= j < n ==> (#[trigger] ticks@[j]).tx == ticks@[j].x,
                            forall|j: int|
                                0 < j < i ==> (#[trigger] ticks@[j]).vis == Visibility::Invisible,
                            forall|j: int|
                                (j == 0 || i <= j < n) ==> (#[trigger] ticks@[j]).vis
                                    == Visibility::Visible,
                        decreases n - i,
                    {
                        let t = ticks[i];
                        ticks[i] = XTick { idx: t.idx, x: t.x, tx: t.tx, vis: Visibility::Invisible };
                        i = i + 1;
                    }
                },
            }
        } else {
            // with collapsed (equal) projected positions there is nothing
            // to spread: fall back to hover-only inner labels
            let mut i: usize = 1;
            while i + 1 < n
                invariant
                    1 <= i,
                    i < n || i == 1,
                    n == self.tbl.seqs@[0].ival@.len(),
                    ticks@.len() == n,
                    forall|j: int| 0 <= j < n ==> (#[trigger] ticks@[j]).idx == j,
                    forall|j: int| 0 <= j < n ==> (#[trigger] ticks@[j]).x == x_dot(*self, j),
                    forall|j: int| 0 <= j < n ==> (#[trigger] ticks@[j]).tx == ticks@[j].x,
                    forall|j: int|
                        0 < j < i ==> (#[trigger] ticks@[j]).vis == Visibility::Invisible,
                    forall|j: int|
                        (j == 0 || i <= j < n) ==> (#[trigger] ticks@[j]).vis
                            == Visibility::Visible,
                decreases n - i,
            {
                let t = ticks[i];
                ticks[i] = XTick { idx: t.idx, x: t.x, tx: t.tx, vis: Visibility::Invisible };
                i = i + 1;
            }
        }
        ticks
    }

    /// The projected points of the y series `k`: one `(row, x, y)` triple
    /// per row where that series has a value, in row order.
    #[verifier::loop_isolation(false)]
    #[verifier::rlimit(60)]
    pub fn curve_points(&self, k: usize) -> (r: Vec<(usize, i64, i64)>)
        requires
            self.wf(),
            1 <= k < self.tbl.seqs@.len(),
        ensures
            ({
                let ys = self.tbl.seqs@[k as int].ival@;
                let xs = self.tbl.seqs@[0].ival@;
                let pr = present_rows(ys);
                &&& r@.len() == pr.len()
                &&& forall|i: int|
                    0 <= i < r@.len() ==> {
                        &&& (#[trigger] r@[i]).0 == pr[i]
                        &&& r@[i].1 == project_x_spec(self.projector, xs[pr[i]]->0 as int)
                        &&& r@[i].2 == project_y_spec(self.projector, ys[pr[i]]->0 as int)
                    }
            }),
    {
        let ghost ys = self.tbl.seqs@[k as int].ival@;
        let ghost xs = self.tbl.seqs@[0].ival@;
        let n = self.tbl.seqs[k].ival.len();
        proof {
            assert(self.tbl.seqs@[k as int].wf());
            assert(self.tbl.seqs@[0].wf());
        }
        let mut r: Vec<(usize, i64, i64)> = Vec::new();
        let mut i: usize = 0;
        while i < n
            invariant
                0 <= i <= n,
                n == ys.len(),
                ys.len() == xs.len(),
                r@.len() == present_rows(ys.subrange(0, i as int)).len(),
                forall|j: int|
                    0 <= j < r@.len() ==> {
                        &&& (#[trigger] r@[j]).0 == present_rows(ys.subrange(0, i as int))[j]
                        &&& 0 <= r@[j].0 < i
                        &&& r@[j].1 == project_x_spec(
                            self.projector,
                            xs[r@[j].0 as int]->0 as int,
                        )
                        &&& r@[j].2 == project_y_spec(
                            self.projector,
                            ys[r@[j].0 as int]->0 as int,
                        )
                    },
            decreases n - i,
        {
            proof {
                assert(ys.subrange(0, i + 1).drop_last() =~= ys.subrange(0, i as int));
                assert(ys.subrange(0, i + 1).last() == ys[i as int]);
            }
            match self.tbl.seqs[k].ival[i] {
                Option::None => {},
                Option::Some(y) => {
                    let x = self.tbl.seqs[0].ival[i].unwrap();
                    proof {
                        lemma_x_in_frame(*self, x as int);
                        lemma_y_in_frame(*self, y as int);
                    }
                    let px = self.projector.project_x(x);
                    let py = self.projector.project_y(y);
                    r.push((i, px, py));
                },
            }
            i = i + 1;
        }
        proof {
            assert(ys.subrange(0, n as int) =~= ys);
        }
        r
    }
}

} // verus!
