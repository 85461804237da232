//! A "nice" numeric scale for the value axis: a rounded range covering the
//! input range, with evenly spaced round tick values.

use vstd::prelude::*;

verus! {

use vstd::arithmetic::div_mod::{
    lemma_fundamental_div_mod,
    lemma_fundamental_div_mod_converse_div,
    lemma_mod_division_less_than_divisor,
};

/// Ten to the power `e`.
pub open spec fn pow10(e: nat) -> int
    decreases e,
{
    if e == 0 {
        1
    } else {
        10 * pow10((e - 1) as nat)
    }
}

/// The largest `e` with `pow10(e) <= n` (for `n >= 1`).
pub open spec fn log10_floor(n: int) -> nat
    recommends
        n >= 1,
    decreases n,
{
    if n < 10 {
        0
    } else {
        (1 + log10_floor(n / 10)) as nat
    }
}

/// The lower bound handed to the scale, widened by two on each side when the
/// requested span is under three units.
pub open spec fn widened_min(min: int, max: int) -> int {
    if max < min + 3 {
        min - 2
    } else {
        min
    }
}

/// The upper bound handed to the scale, widened the same way.
pub open spec fn widened_max(min: int, max: int) -> int {
    if max < min + 3 {
        max + 2
    } else {
        max
    }
}

/// A positive lower bound is forced to zero when the span is at least a
/// quarter of the upper bound, so that such a chart stays anchored at zero.
pub open spec fn anchored_min(min: int, max: int) -> int {
    let wmin = widened_min(min, max);
    let wmax = widened_max(min, max);
    if wmin > 0 && (wmax - wmin) * 4 >= wmax {
        0
    } else {
        wmin
    }
}

/// The tick spacing: the largest power of ten not exceeding the adjusted
/// span.
pub open spec fn scale_step(min: int, max: int) -> int {
    pow10(log10_floor(widened_max(min, max) - anchored_min(min, max)))
}

/// The first tick: the adjusted lower bound snapped down to a multiple of
/// the tick spacing.
pub open spec fn scale_first(min: int, max: int) -> int {
    let d = scale_step(min, max);
    (anchored_min(min, max) / d) * d
}

proof fn lemma_pow10_pos(e: nat)
    ensures
        pow10(e) >= 1,
    decreases e,
{
    if e > 0 {
        lemma_pow10_pos((e - 1) as nat);
    }
}

proof fn lemma_pow10_monotone(e1: nat, e2: nat)
    requires
        e1 <= e2,
    ensures
        pow10(e1) <= pow10(e2),
    decreases e2,
{
    if e1 < e2 {
        lemma_pow10_monotone(e1, (e2 - 1) as nat);
        lemma_pow10_pos((e2 - 1) as nat);
    }
}

/// `log10_floor` is pinned by the bracket `pow10(e) <= n < 10 * pow10(e)`.
proof fn lemma_log10_unique(n: int, e: nat)
    requires
        pow10(e) <= n,
        n < 10 * pow10(e),
    ensures
        log10_floor(n) == e,
    decreases e,
{
    lemma_pow10_pos(e);
    if e == 0 {
        assert(n < 10);
    } else {
        assert(n >= 10) by {
            lemma_pow10_monotone(1, e);
        }
        let p = pow10((e - 1) as nat);
        lemma_pow10_pos((e - 1) as nat);
        // pow10(e - 1) <= n / 10 < 10 * pow10(e - 1)
        lemma_fundamental_div_mod(n, 10);
        lemma_mod_division_less_than_divisor(n, 10);
        assert(n == 10 * (n / 10) + n % 10);
        assert(n / 10 >= p) by (nonlinear_arith)
            requires n == 10 * (n / 10) + n % 10 && n % 10 < 10 && n >= 10 * p,
        ;
        assert(n / 10 < 10 * p) by (nonlinear_arith)
            requires n == 10 * (n / 10) + n % 10 && n % 10 >= 0 && n < 10 * (10 * p),
        ;
        lemma_log10_unique(n / 10, (e - 1) as nat);
    }
}

/// Division of `a` by `b > 0`, rounding toward minus infinity (the Euclidean
/// quotient).
fn floor_div(a: i64, b: i64) -> (r: i64)
    requires
        1 <= b <= 0x4000_0000_0000_0000,
        -0x4000_0000_0000_0000 <= a <= 0x4000_0000_0000_0000,
    ensures
        r == a as int / b as int,
{
    if a >= 0 {
        ((a as u64) / (b as u64)) as i64
    } else {
        let n: u64 = (-a) as u64;
        let q: u64 = (n + (b as u64) - 1) / (b as u64);
        proof {
            let ni = n as int;
            let bi = b as int;
            let qi = q as int;
            lemma_fundamental_div_mod(ni + bi - 1, bi);
            lemma_mod_division_less_than_divisor(ni + bi - 1, bi);
            let rem = (ni + bi - 1) % bi;
            assert(ni + bi - 1 == bi * qi + rem);
            let rr = bi * qi - ni;
            assert(0 <= rr < bi);
            assert(a as int == (-qi) * bi + rr) by (nonlinear_arith)
                requires rr == bi * qi - ni && a as int == -ni,
            ;
            lemma_fundamental_div_mod_converse_div(a as int, bi, -qi, rr);
        }
        -(q as i64)
    }
}

/// A value-axis scale: rounded bounds and evenly spaced round ticks.
#[derive(Debug)]
pub struct Scale {
    pub min: i64,
    pub max: i64,
    pub ticks: Vec<i64>,
}

impl Scale {
    /// Compute the scale for the value range `[min, max]`: widen degenerate
    /// ranges, anchor at zero when appropriate, then lay ticks spaced by the
    /// largest power of ten not exceeding the span, from `min` snapped down,
    /// until the first tick beyond the adjusted upper bound; that tick
    /// becomes the scale's `max`.
    #[verifier::loop_isolation(false)]
    #[verifier::rlimit(100)]
    pub fn new(min: i64, max: i64) -> (r: Scale)
        requires
            min <= max,
            -0x2000_0000_0000_0000 <= min,
            max <= 0x2000_0000_0000_0000,
        ensures
            r.ticks@.len() >= 2,
            r.min == r.ticks@[0],
            r.max == r.ticks@[r.ticks@.len() - 1],
            r.ticks@[0] == scale_first(min as int, max as int),
            forall|i: int|
                0 <= i < r.ticks@.len() ==> #[trigger] r.ticks@[i] == scale_first(
                    min as int,
                    max as int,
                ) + i * scale_step(min as int, max as int),
            r.ticks@[r.ticks@.len() - 1] > widened_max(min as int, max as int),
            r.ticks@[r.ticks@.len() - 2] <= widened_max(min as int, max as int),
            r.min <= min,
            r.max > max,
            forall|i: int|
                0 <= i < r.ticks@.len() ==> -0x3000_0000_0000_0000 <= #[trigger] r.ticks@[i]
                    <= 0x3000_0000_0000_0000,
            r.max - r.min <= 0x6000_0000_0000_0000,
    {
        let ghost min0 = min as int;
        let ghost max0 = max as int;
        let mut min = min;
        let mut max = max;
        if max < min + 3 {
            max = max + 2;
            min = min - 2;
        }
        let ghost wmax = max as int;
        if min > 0 && (max - min) * 4 >= max {
            min = 0;
        }
        proof {
            assert(min as int == anchored_min(min0, max0));
            assert(max as int == widened_max(min0, max0));
        }
        let span = max - min;
        assert(3 <= span <= 0x4000_0000_0000_0000int + 6);

        // largest power of ten not exceeding the span
        let mut d: i64 = 1;
        let ghost mut e: nat = 0;
        while d <= span / 10
            invariant
                1 <= d <= span,
                d == pow10(e),
            decreases span - d,
        {
            proof {
                lemma_fundamental_div_mod(span as int, 10);
                lemma_mod_division_less_than_divisor(span as int, 10);
            }
            d = d * 10;
            proof {
                e = e + 1;
            }
        }
        proof {
            lemma_fundamental_div_mod(span as int, 10);
            lemma_mod_division_less_than_divisor(span as int, 10);
            assert(10 * d > span);
            lemma_log10_unique(span as int, e);
            assert(d == scale_step(min0, max0));
            // a power of ten below the span cap is at most 10^18
            if e >= 19 {
                lemma_pow10_monotone(19, e);
                assert(pow10(19) == 10_000_000_000_000_000_000int) by {
                    reveal_with_fuel(pow10, 21);
                }
            } else {
                lemma_pow10_monotone(e, 18);
                assert(pow10(18) == 1_000_000_000_000_000_000int) by {
                    reveal_with_fuel(pow10, 20);
                }
            }
            assert(d <= 1_000_000_000_000_000_000int);
        }

        // snap the lower bound down to a multiple of the spacing
        let q = floor_div(min, d);
        proof {
            lemma_fundamental_div_mod(min as int, d as int);
            lemma_mod_division_less_than_divisor(min as int, d as int);
            assert((min as int / d as int) * d as int == d as int * (min as int / d as int))
                by (nonlinear_arith);
        }
        let start = q * d;
        proof {
            assert(start as int == scale_first(min0, max0));
            assert(min as int - d < start <= min as int);
        }

        // lay the ticks
        let mut tick = start;
        let mut ticks: Vec<i64> = Vec::new();
        ticks.push(tick);
        proof {
            assert(ticks@.len() == 1 && ticks@[0] == start);
            assert(0 * (d as int) == 0) by (nonlinear_arith);
        }
        while tick <= max
            invariant
                ticks@.len() >= 1,
                tick == ticks@[ticks@.len() - 1],
                forall|i: int|
                    0 <= i < ticks@.len() ==> #[trigger] ticks@[i] == start + i * (d as int),
                forall|i: int| 0 <= i < ticks@.len() - 1 ==> #[trigger] ticks@[i] <= max,
                forall|i: int| 0 <= i < ticks@.len() ==> start <= #[trigger] ticks@[i] <= tick,
                start <= tick <= max as int + d as int,
            decreases max + d - tick,
        {
            proof {
                let n = ticks@.len() as int;
                assert((n - 1) * (d as int) + d as int == n * (d as int)) by (nonlinear_arith);
            }
            tick = tick + d;
            ticks.push(tick);
        }
        let last = tick;
        proof {
            assert(ticks@.len() >= 2);
        }
        Scale { min: start, max: last, ticks }
    }

    /// The width of the scale's range.
    pub fn range(&self) -> (r: i64)
        requires
            self.max - self.min <= i64::MAX,
            i64::MIN <= self.max - self.min,
        ensures
            r == self.max - self.min,
    {
        self.max - self.min
    }
}

} // verus!
