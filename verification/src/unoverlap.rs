//! De-overlapping of axis tick positions.
//!
//! Given a strictly increasing sequence of candidate pixel positions
//! ("dots") and a minimum separation ("margin"), [`unoverlap`] computes new
//! positions at least `margin` apart, keeping the first and last dot fixed,
//! or reports that no such layout exists.

use vstd::prelude::*;

verus! {

use vstd::arithmetic::div_mod::{
    lemma_div_is_ordered,
    lemma_div_pos_is_pos,
    lemma_fundamental_div_mod,
    lemma_fundamental_div_mod_converse_div,
    lemma_hoist_over_denominator,
    lemma_mod_division_less_than_divisor,
    lemma_small_div_converse,
};
use vstd::arithmetic::mul::{lemma_mul_inequality, lemma_mul_nonnegative};

/// Every element is strictly smaller than its successor.
pub open spec fn strictly_increasing(s: Seq<i64>) -> bool {
    forall|i: int| #![trigger s[i], s[i + 1]] 0 <= i && i + 1 < s.len() ==> s[i] < s[i + 1]
}

/// Every pair of adjacent elements is separated by at least `m`.
pub open spec fn spaced(s: Seq<i64>, m: int) -> bool {
    forall|i: int| #![trigger s[i], s[i + 1]] 0 <= i && i + 1 < s.len() ==> s[i + 1] - s[i] >= m
}

/// In a strictly increasing sequence, an element grows at least by one per
/// step: `s[j] - s[i] >= j - i`.
pub proof fn lemma_increasing_gap(s: Seq<i64>, i: int, j: int)
    requires
        strictly_increasing(s),
        0 <= i <= j < s.len(),
    ensures
        s[j] - s[i] >= j - i,
    decreases j - i,
{
    if i < j {
        lemma_increasing_gap(s, i, j - 1);
        assert(s[j - 1] < s[(j - 1) + 1]);
    }
}

/// Rounding of the rational `p / q` (with `q > 0`) to the nearest integer,
/// halves away from zero.
pub open spec fn round_half(p: int, q: int) -> int
    recommends
        q > 0,
{
    if p >= 0 {
        (2 * p + q) / (2 * q)
    } else {
        -((2 * (-p) + q) / (2 * q))
    }
}

/// Rounding an exact multiple of `q` gives back the factor.
proof fn lemma_round_exact(k: int, q: int)
    requires
        q > 0,
    ensures
        round_half(k * q, q) == k,
{
    if k >= 0 {
        lemma_mul_nonnegative(k, q);
        assert(2 * (k * q) + q == k * (2 * q) + q) by (nonlinear_arith);
        lemma_fundamental_div_mod_converse_div(2 * (k * q) + q, 2 * q, k, q);
    } else {
        lemma_mul_inequality(k, -1, q);
        assert(k * q <= (-1) * q) by (nonlinear_arith)
            requires k <= -1 && q > 0,
        ;
        assert(k * q < 0);
        assert(2 * (-(k * q)) + q == (-k) * (2 * q) + q) by (nonlinear_arith);
        lemma_fundamental_div_mod_converse_div(2 * (-(k * q)) + q, 2 * q, -k, q);
    }
}

/// The rounded value differs from `p / q` by at most one half:
/// `|2 * q * round_half(p, q) - 2 * p| <= q`.
proof fn lemma_round_bounds(p: int, q: int)
    requires
        q > 0,
    ensures
        2 * q * round_half(p, q) >= 2 * p - q,
        2 * q * round_half(p, q) <= 2 * p + q,
{
    if p >= 0 {
        let x = 2 * p + q;
        let r = x / (2 * q);
        lemma_fundamental_div_mod(x, 2 * q);
        lemma_mod_division_less_than_divisor(x, 2 * q);
        assert(x == 2 * q * r + x % (2 * q));
    } else {
        let x = 2 * (-p) + q;
        let s = x / (2 * q);
        lemma_fundamental_div_mod(x, 2 * q);
        lemma_mod_division_less_than_divisor(x, 2 * q);
        assert(x == 2 * q * s + x % (2 * q));
        assert(2 * q * (-s) == -(2 * q * s)) by (nonlinear_arith);
    }
}

/// Rounding is monotone in the numerator.
proof fn lemma_round_le(p1: int, p2: int, q: int)
    requires
        q > 0,
        p1 <= p2,
    ensures
        round_half(p1, q) <= round_half(p2, q),
{
    if p1 >= 0 {
        lemma_div_is_ordered(2 * p1 + q, 2 * p2 + q, 2 * q);
    } else if p2 < 0 {
        lemma_div_is_ordered(2 * (-p2) + q, 2 * (-p1) + q, 2 * q);
    } else {
        lemma_div_pos_is_pos(2 * (-p1) + q, 2 * q);
        lemma_div_pos_is_pos(2 * p2 + q, 2 * q);
    }
}

/// Advancing the numerator by at least `q` advances the rounded value by at
/// least one.
proof fn lemma_round_step(p: int, d: int, q: int)
    requires
        q > 0,
        d >= q,
    ensures
        round_half(p + d, q) >= round_half(p, q) + 1,
{
    lemma_round_le(p + q, p + d, q);
    if p >= 0 {
        lemma_hoist_over_denominator(2 * p + q, 1, (2 * q) as nat);
        assert(2 * (p + q) + q == (2 * p + q) + 1 * (2 * q));
    } else if p + q < 0 {
        lemma_hoist_over_denominator(2 * (-(p + q)) + q, 1, (2 * q) as nat);
        assert(2 * (-p) + q == (2 * (-(p + q)) + q) + 1 * (2 * q));
    } else {
        // p < 0 <= p + q
        let s = (2 * (-p) + q) / (2 * q);
        let r = (2 * (p + q) + q) / (2 * q);
        lemma_div_pos_is_pos(2 * (-p) + q, 2 * q);
        lemma_div_pos_is_pos(2 * (p + q) + q, 2 * q);
        if s == 0 {
            lemma_small_div_converse(2 * (-p) + q, 2 * q);
            assert(2 * (p + q) + q >= 2 * q);
            lemma_div_is_ordered(2 * q, 2 * (p + q) + q, 2 * q);
            lemma_fundamental_div_mod_converse_div(2 * q, 2 * q, 1, 0);
        }
    }
}

/// The sum of the elements `s[a]`, ..., `s[b - 1]`.
pub open spec fn sum_range(s: Seq<i64>, a: int, b: int) -> int
    recommends
        0 <= a,
        b <= s.len(),
    decreases b - a,
{
    if a >= b {
        0
    } else {
        s[a] + sum_range(s, a + 1, b)
    }
}

proof fn lemma_sum_snoc(s: Seq<i64>, a: int, b: int)
    requires
        a <= b,
    ensures
        sum_range(s, a, b + 1) == sum_range(s, a, b) + s[b],
    decreases b - a,
{
    assert(sum_range(s, a, b + 1) == s[a] + sum_range(s, a + 1, b + 1));
    if a < b {
        lemma_sum_snoc(s, a + 1, b);
        assert(sum_range(s, a, b) == s[a] + sum_range(s, a + 1, b));
    } else {
        assert(sum_range(s, a + 1, b + 1) == 0);
        assert(sum_range(s, a, b) == 0);
    }
}

/// Adjacent gaps of at most `m` everywhere in `s[f..e]`.
pub open spec fn gaps_within(s: Seq<i64>, f: int, e: int, m: int) -> bool {
    forall|j: int| #![trigger s[j], s[j + 1]] f <= j && j + 1 < e ==> s[j + 1] - s[j] <= m
}

/// Under small gaps, an element of the window is at most `s[f]` plus `m` per
/// step.
proof fn lemma_window_upper(s: Seq<i64>, f: int, e: int, m: int, i: int)
    requires
        0 <= f <= i < e <= s.len(),
        gaps_within(s, f, e, m),
    ensures
        s[i] <= s[f] + (i - f) * m,
    decreases i - f,
{
    if f < i {
        lemma_window_upper(s, f, e, m, i - 1);
        assert(s[(i - 1) + 1] - s[i - 1] <= m);
        assert((i - 1 - f) * m + m == (i - f) * m) by (nonlinear_arith);
    } else {
        assert((i - f) * m == 0) by (nonlinear_arith)
            requires i == f,
        ;
    }
}

/// Under small gaps, an element of the window is at least the window's last
/// element minus `m` per step.
proof fn lemma_window_lower(s: Seq<i64>, f: int, e: int, m: int, i: int)
    requires
        0 <= f <= i < e <= s.len(),
        gaps_within(s, f, e, m),
    ensures
        s[i] >= s[e - 1] - (e - 1 - i) * m,
    decreases e - i,
{
    if i < e - 1 {
        lemma_window_lower(s, f, e, m, i + 1);
        assert(s[i + 1] - s[i] <= m);
        assert((e - 1 - (i + 1)) * m + m == (e - 1 - i) * m) by (nonlinear_arith);
    } else {
        assert((e - 1 - i) * m == 0) by (nonlinear_arith)
            requires i == e - 1,
        ;
    }
}

/// Under small gaps, twice the window's sum is at most
/// `2 * count * s[f] + m * count * (count - 1)`.
proof fn lemma_sum_upper(s: Seq<i64>, f: int, e: int, m: int)
    requires
        0 <= f < e <= s.len(),
        m >= 0,
        gaps_within(s, f, e, m),
    ensures
        2 * sum_range(s, f, e) <= 2 * (e - f) * s[f] + m * (e - f) * (e - f - 1),
    decreases e - f,
{
    if f == e - 1 {
        assert(sum_range(s, f, e) == s[f] + sum_range(s, f + 1, e));
    } else {
        lemma_sum_upper(s, f, e - 1, m);
        lemma_sum_snoc(s, f, e - 1);
        lemma_window_upper(s, f, e, m, e - 1);
        let n = e - 1 - f;
        assert(2 * (e - 1 - f) * s[f] + m * (e - 1 - f) * (e - 1 - f - 1) + 2 * (s[f] + (e - 1
            - f) * m) == 2 * (e - f) * s[f] + m * (e - f) * (e - f - 1)) by (nonlinear_arith);
    }
}

/// Under small gaps, twice the window's sum is at least
/// `2 * count * s[e - 1] - m * count * (count - 1)`.
proof fn lemma_sum_lower(s: Seq<i64>, f: int, e: int, m: int)
    requires
        0 <= f < e <= s.len(),
        m >= 0,
        gaps_within(s, f, e, m),
    ensures
        2 * sum_range(s, f, e) >= 2 * (e - f) * s[e - 1] - m * (e - f) * (e - f - 1),
    decreases e - f,
{
    if f == e - 1 {
        assert(sum_range(s, f, e) == s[f] + sum_range(s, f + 1, e));
    } else {
        lemma_sum_lower(s, f + 1, e, m);
        lemma_window_lower(s, f, e, m, f);
        assert(sum_range(s, f, e) == s[f] + sum_range(s, f + 1, e));
        assert(2 * (s[e - 1] - (e - 1 - f) * m) + 2 * (e - f - 1) * s[e - 1] - m * (e - f - 1)
            * (e - f - 2) == 2 * (e - f) * s[e - 1] - m * (e - f) * (e - f - 1))
            by (nonlinear_arith);
    }
}

/// Exact rounding of `p / q` to the nearest integer, halves away from zero,
/// in wide integer arithmetic.
fn round_div(p: i128, q: i128) -> (r: i128)
    requires
        1 <= q <= 0x4000_0000_0000_0000,
        -0x2000_0000_0000_0000_0000_0000_0000_0000 <= p
            <= 0x2000_0000_0000_0000_0000_0000_0000_0000,
    ensures
        r == round_half(p as int, q as int),
{
    if p >= 0 {
        let n: u128 = (2 * p + q) as u128;
        let d: u128 = (2 * q) as u128;
        let r: u128 = n / d;
        proof {
            lemma_div_pos_is_pos(2 * (p as int) + q, 2 * (q as int));
            lemma_div_is_ordered(
                2 * (p as int) + q,
                2 * 0x2000_0000_0000_0000_0000_0000_0000_0000int + 0x4000_0000_0000_0000int,
                2 * (q as int),
            );
        }
        r as i128
    } else {
        let n: u128 = (2 * (-p) + q) as u128;
        let d: u128 = (2 * q) as u128;
        let r: u128 = n / d;
        proof {
            lemma_div_pos_is_pos(2 * (-(p as int)) + q, 2 * (q as int));
            lemma_div_is_ordered(
                2 * (-(p as int)) + q,
                2 * 0x2000_0000_0000_0000_0000_0000_0000_0000int + 0x4000_0000_0000_0000int,
                2 * (q as int),
            );
        }
        -(r as i128)
    }
}

/// The run grown backward from `first`: walk left while the gap to the
/// previous dot is at most the margin.
pub open spec fn grow_back(s: Seq<i64>, margin: int, first: int) -> int
    recommends
        0 <= first < s.len(),
    decreases first,
{
    if first > 0 && s[first] - s[first - 1] <= margin {
        grow_back(s, margin, first - 1)
    } else {
        first
    }
}

/// The scan from position `idx` with the running state `(cur, best)`:
/// `cur` is the start of the run being read, `best` the selected run so far
/// as `(first, count, width)`. A run opens at a gap under the margin,
/// extends over gaps at most the margin, closes at a larger gap or at the
/// end, grows backward over near neighbours when it closes, and displaces
/// the selected run when it is wider for its number of dots.
pub open spec fn scan_from(
    s: Seq<i64>,
    margin: int,
    idx: int,
    cur: Option<int>,
    best: Option<(int, int, int)>,
) -> Option<(int, int, int)>
    decreases s.len() - idx,
{
    if idx < 0 || idx >= s.len() {
        best
    } else {
        match cur {
            Option::Some(c) => {
                if idx == s.len() - 1 || s[idx] + margin < s[idx + 1] {
                    let first = grow_back(s, margin, c);
                    let width = s[idx] - s[first];
                    let sl = idx - first + 1;
                    let nb = match best {
                        Option::None => Option::Some((first, sl, width)),
                        Option::Some(b) => if b.2 * sl < width * b.1 {
                            Option::Some((first, sl, width))
                        } else {
                            best
                        },
                    };
                    scan_from(s, margin, idx + 1, Option::None, nb)
                } else {
                    scan_from(s, margin, idx + 1, cur, best)
                }
            },
            Option::None => {
                if idx < s.len() - 1 && s[idx] + margin > s[idx + 1] {
                    scan_from(s, margin, idx + 1, Option::Some(idx), best)
                } else {
                    scan_from(s, margin, idx + 1, Option::None, best)
                }
            },
        }
    }
}

/// The run the scan selects over the whole sequence, if any.
pub open spec fn find_subset_spec(s: Seq<i64>, margin: int) -> Option<(int, int, int)> {
    scan_from(s, margin, 0, Option::None, Option::None)
}

/// The optimal range `[ol, ol + ow]` clamped into the available space
/// `[ll, rl]`, biased toward the constrained side.
pub open spec fn clamped_range(ol: int, ow: int, ll: int, rl: int) -> (int, int) {
    if ll <= ol && rl >= ol + ow {
        (ol, ol + ow)
    } else if ll > ol {
        (ll, if ll + ow < rl { ll + ow } else { rl })
    } else {
        ((if rl - ow > ll { rl - ow } else { ll }), rl)
    }
}

/// One relaxation step on the run `s[f .. f + sl]`: its dots are spread to
/// even (rounded) spacing over the optimal range, `(sl - 1) * margin` wide
/// and centered on the run's mean, clamped by the neighbouring dots (each
/// kept one margin away) or by the sequence's own ends.
pub open spec fn relax_spec(s: Seq<i64>, margin: int, f: int, sl: int) -> Seq<i64>
    recommends
        0 <= f,
        2 <= sl,
        f + sl <= s.len(),
{
    let sum = sum_range(s, f, f + sl);
    let ow = (sl - 1) * margin;
    let o_left = round_half(2 * sum - ow * sl, 2 * sl);
    let ll = if f > 0 {
        s[f - 1] + margin
    } else {
        s[0] as int
    };
    let rl = if f + sl < s.len() {
        s[f + sl] - margin
    } else {
        s[s.len() - 1] as int
    };
    let nsne = clamped_range(o_left, ow, ll, rl);
    Seq::new(
        s.len(),
        |j: int|
            if f <= j < f + sl {
                round_half(nsne.0 * (sl - 1) + (nsne.1 - nsne.0) * (j - f), sl - 1) as i64
            } else {
                s[j]
            },
    )
}

/// Up to `budget` relaxation rounds: stop with the current dots once no run
/// is selected, or with nothing once the budget is spent.
pub open spec fn rounds_from(s: Seq<i64>, margin: int, budget: nat) -> Option<Seq<i64>>
    decreases budget,
{
    if budget == 0 {
        Option::None
    } else {
        match find_subset_spec(s, margin) {
            Option::None => Option::Some(s),
            Option::Some(b) => rounds_from(relax_spec(s, margin, b.0, b.1), margin, (budget
                - 1) as nat),
        }
    }
}

/// What the resolver computes: nothing when the margins cannot fit the
/// span, otherwise the fixed point of the relaxation, run for at most twice
/// the number of dots many rounds.
pub open spec fn unoverlap_spec(dots: Seq<i64>, margin: int) -> Option<Seq<i64>> {
    if margin * (dots.len() - 1) > dots.last() - dots[0] {
        Option::None
    } else {
        rounds_from(dots, margin, 2 * dots.len())
    }
}

/// After redistributing a subset over `[ns, ne]` (clamped into the space its
/// neighbours leave), the sequence is strictly increasing again and its two
/// extremities are unchanged.
proof fn lemma_relaxed_shape(
    s0: Seq<i64>,
    s1: Seq<i64>,
    m: int,
    f: int,
    sl: int,
    ns: int,
    ne: int,
    ll: int,
    rl: int,
)
    requires
        s1.len() == s0.len(),
        2 <= s0.len(),
        strictly_increasing(s0),
        m >= 2,
        2 <= sl,
        0 <= f,
        f + sl <= s0.len(),
        f > 0 ==> ll == s0[f - 1] + m,
        f == 0 ==> ll == s0[0],
        f + sl < s0.len() ==> rl == s0[f + sl] - m,
        f + sl == s0.len() ==> rl == s0[s0.len() - 1],
        ll <= ns <= ne <= rl,
        ne - ns >= sl - 1,
        forall|j: int| 0 <= j < s0.len() && !(f <= j < f + sl) ==> s1[j] == s0[j],
        forall|t: int|
            0 <= t < sl ==> #[trigger] s1[f + t] == round_half(
                ns * (sl - 1) + (ne - ns) * t,
                sl - 1,
            ),
        f == 0 ==> ns == s0[0],
        f + sl == s0.len() ==> ne == s0[s0.len() - 1],
    ensures
        strictly_increasing(s1),
        s1[0] == s0[0],
        s1[s1.len() - 1] == s0[s1.len() - 1],
{
    let l = s0.len() as int;
    // first and last dot of the subset land exactly on the range ends
    assert(s1[f + 0] == round_half(ns * (sl - 1) + (ne - ns) * 0, sl - 1));
    assert((ne - ns) * 0 == 0) by (nonlinear_arith);
    lemma_round_exact(ns, sl - 1);
    assert(s1[f + 0] == ns);
    assert(s1[f + (sl - 1)] == round_half(ns * (sl - 1) + (ne - ns) * (sl - 1), sl - 1));
    assert(ns * (sl - 1) + (ne - ns) * (sl - 1) == ne * (sl - 1)) by (nonlinear_arith);
    lemma_round_exact(ne, sl - 1);
    assert(s1[f + (sl - 1)] == ne);
    assert forall|j: int| 0 <= j && j + 1 < l implies #[trigger] s1[j] < s1[j + 1] by {
        if j + 1 < f || j >= f + sl {
            assert(s1[j] == s0[j]);
            assert(s1[j + 1] == s0[j + 1]);
            assert(s0[j] < s0[j + 1]);
        } else if j + 1 == f {
            assert(s1[j] == s0[j]);
            assert(s1[f + 0] == ns);
            assert(s0[f - 1] < ll);
        } else if j + 1 == f + sl {
            assert(s1[f + (sl - 1)] == ne);
            assert(s1[j + 1] == s0[j + 1]);
            assert(rl < s0[f + sl]);
        } else {
            let t = j - f;
            assert(s1[f + t] == round_half(ns * (sl - 1) + (ne - ns) * t, sl - 1));
            assert(s1[f + (t + 1)] == round_half(ns * (sl - 1) + (ne - ns) * (t + 1), sl - 1));
            assert((ne - ns) * (t + 1) == (ne - ns) * t + (ne - ns)) by (nonlinear_arith);
            lemma_round_step(ns * (sl - 1) + (ne - ns) * t, ne - ns, sl - 1);
            assert(f + t == j && f + (t + 1) == j + 1);
        }
    }
    if f == 0 {
        assert(s1[f + 0] == ns);
        assert(s1[0] == s0[0]);
    } else {
        assert(s1[0] == s0[0]);
    }
    if f + sl == l {
        assert(s1[f + (sl - 1)] == ne);
        assert(s1[l - 1] == s0[l - 1]);
    } else {
        assert(s1[l - 1] == s0[l - 1]);
    }
}

/// The rounded center of a compressed window stays left of the window's
/// first dot, and that center plus the optimal width stays right of the
/// window's last dot.
proof fn lemma_opt_bounds(s0: Seq<i64>, f: int, sl: int, m: int)
    requires
        0 <= f,
        2 <= sl,
        f + sl <= s0.len(),
        m >= 0,
        gaps_within(s0, f, f + sl, m),
    ensures
        round_half(2 * sum_range(s0, f, f + sl) - ((sl - 1) * m) * sl, 2 * sl) <= s0[f],
        round_half(2 * sum_range(s0, f, f + sl) - ((sl - 1) * m) * sl, 2 * sl) + (sl - 1) * m
            >= s0[f + sl - 1],
{
    let s_sum = sum_range(s0, f, f + sl);
    let ow = (sl - 1) * m;
    let p = 2 * s_sum - ow * sl;
    let q2 = 2 * sl;
    let d_f = s0[f] as int;
    let d_l = s0[f + sl - 1] as int;
    let r = round_half(p, q2);
    lemma_sum_upper(s0, f, f + sl, m);
    assert(p <= d_f * q2) by (nonlinear_arith)
        requires
            2 * s_sum <= 2 * sl * d_f + m * sl * (sl - 1) && ow == (sl - 1) * m && p == 2 * s_sum
                - ow * sl && q2 == 2 * sl,
    ;
    lemma_round_le(p, d_f * q2, q2);
    lemma_round_exact(d_f, q2);
    lemma_sum_lower(s0, f, f + sl, m);
    lemma_round_bounds(p, q2);
    assert(2 * q2 * (r + ow) >= 2 * q2 * d_l - q2) by (nonlinear_arith)
        requires
            2 * q2 * r >= 2 * p - q2 && p == 2 * s_sum - ow * sl && q2 == 2 * sl && 2 * s_sum >= 2
                * sl * d_l - m * sl * (sl - 1) && ow == (sl - 1) * m,
    ;
    assert(r + ow >= d_l) by (nonlinear_arith)
        requires 2 * q2 * (r + ow) >= 2 * q2 * d_l - q2 && q2 >= 2,
    ;
}

/// The redistributed position of the `t`-th dot of a subset lies between the
/// two ends of the chosen range, and the computation stays within wide
/// integer bounds.
proof fn lemma_redist_bounds(ns: int, ne: int, den: int, t: int)
    requires
        1 <= den <= 0x1000_0000_0000_0000,
        -0x8000_0000_0000_0000 <= ns <= ne <= 0x8000_0000_0000_0000,
        ne - ns <= 0x1_0000_0000_0000_0000,
        0 <= t <= den,
    ensures
        ns * den <= ns * den + (ne - ns) * t <= ne * den,
        ns <= round_half(ns * den + (ne - ns) * t, den) <= ne,
        -0x0800_0000_0000_0000_0000_0000_0000_0000 <= ns * den
            <= 0x0800_0000_0000_0000_0000_0000_0000_0000,
        0 <= (ne - ns) * t <= 0x1000_0000_0000_0000_0000_0000_0000_0000,
        -0x2000_0000_0000_0000_0000_0000_0000_0000 <= ns * den + (ne - ns) * t
            <= 0x2000_0000_0000_0000_0000_0000_0000_0000,
{
    lemma_mul_nonnegative(ne - ns, t);
    lemma_mul_inequality(t, den, ne - ns);
    assert((ne - ns) * den + ns * den == ne * den) by (nonlinear_arith);
    assert((ne - ns) * t <= (ne - ns) * den);
    lemma_round_exact(ns, den);
    lemma_round_exact(ne, den);
    lemma_round_le(ns * den, ns * den + (ne - ns) * t, den);
    lemma_round_le(ns * den + (ne - ns) * t, ne * den, den);
    assert(-0x0800_0000_0000_0000_0000_0000_0000_0000 <= ns * den
        <= 0x0800_0000_0000_0000_0000_0000_0000_0000) by (nonlinear_arith)
        requires
            -0x8000_0000_0000_0000 <= ns <= 0x8000_0000_0000_0000int && 1 <= den
                <= 0x1000_0000_0000_0000int,
    ;
    assert((ne - ns) * t <= 0x1000_0000_0000_0000_0000_0000_0000_0000int) by (nonlinear_arith)
        requires
            0 <= ne - ns <= 0x1_0000_0000_0000_0000int && 0 <= t <= 0x1000_0000_0000_0000int,
    ;
}

/// Clamp the optimal range `[ol, ol + ow]` into the available space
/// `[ll, rl]`, preferring the constrained side.
fn clamp_range(ol: i128, ow: i128, ll: i128, rl: i128, d_first: i128, d_last: i128) -> (r: (
    i128,
    i128,
))
    requires
        0 <= ow <= 0x2_0000_0000_0000_0000,
        -0x1_0000_0000_0000_0000 <= ll <= rl <= 0x1_0000_0000_0000_0000,
        ll <= d_first <= d_last <= rl,
        ol <= d_first,
        ol + ow >= d_last,
        rl - ll >= d_last - d_first,
    ensures
        (r.0 as int, r.1 as int) == clamped_range(ol as int, ow as int, ll as int, rl as int),
        ll <= r.0 <= r.1 <= rl,
        r.1 - r.0 <= ow,
        r.1 - r.0 >= d_last - d_first,
        ll == d_first ==> r.0 == ll,
        rl == d_last ==> r.1 == rl,
{
    let o_right = ol + ow;
    if ll <= ol && rl >= o_right {
        (ol, o_right)
    } else if ll > ol {
        let cand = ll + ow;
        (ll, if cand < rl { cand } else { rl })
    } else {
        let cand = rl - ow;
        (if cand > ll { cand } else { ll }, rl)
    }
}

/// One relaxation step: spread the chosen subset `dots[f .. f + sl]` out to
/// (close to) even spacing, clamped by its neighbours, keeping the whole
/// sequence strictly increasing and the two extremities fixed.
#[verifier::loop_isolation(false)]
#[verifier::rlimit(100)]
fn relax_subset(dots: &mut Vec<i64>, margin: i64, f: usize, sl: usize)
    requires
        2 <= old(dots)@.len() <= 0x1000_0000_0000_0000,
        strictly_increasing(old(dots)@),
        2 <= margin,
        2 <= sl,
        f + sl <= old(dots)@.len(),
        margin * (old(dots)@.len() - 1) <= old(dots)@.last() - old(dots)@[0],
        gaps_within(old(dots)@, f as int, f + sl, margin as int),
        f > 0 ==> old(dots)@[f as int] - old(dots)@[f - 1] > margin,
        f + sl < old(dots)@.len() ==> old(dots)@[f + sl] - old(dots)@[f + sl - 1] > margin,
    ensures
        final(dots)@ == relax_spec(old(dots)@, margin as int, f as int, sl as int),
        final(dots)@.len() == old(dots)@.len(),
        strictly_increasing(final(dots)@),
        final(dots)@[0] == old(dots)@[0],
        final(dots)@.last() == old(dots)@.last(),
        forall|j: int|
            0 <= j < old(dots)@.len() && !(f <= j < f + sl) ==> final(dots)@[j] == old(dots)@[j],
{
    let ghost s0 = dots@;
    let ghost l = s0.len() as int;
    let ghost m = margin as int;
    let n = dots.len();
    proof {
        lemma_increasing_gap(s0, 0, f as int);
        lemma_increasing_gap(s0, f as int, f + sl - 1);
        lemma_increasing_gap(s0, f + sl - 1, l - 1);
        lemma_increasing_gap(s0, 0, l - 1);
    }

    // Sum of the subset's positions.
    let mut sum: i128 = 0;
    let mut i: usize = 0;
    while i < sl
        invariant
            0 <= i <= sl,
            sum == sum_range(s0, f as int, f + i),
            -((i as int) * 0x8000_0000_0000_0000) <= sum <= (i as int) * 0x8000_0000_0000_0000,
        decreases sl - i,
    {
        proof {
            lemma_sum_snoc(s0, f as int, f + i);
        }
        sum = sum + dots[f + i] as i128;
        i = i + 1;
    }
    let ghost s_sum = sum_range(s0, f as int, f + sl);

    // The optimal placement: `(sl - 1) * margin` wide, centered on the mean.
    proof {
        assert(0 <= ((sl as int) - 1) * (margin as int) <= 0x1000_0000_0000_0000
            * 0x8000_0000_0000_0000int) by (nonlinear_arith)
            requires
                0 <= (sl as int) - 1 <= 0x1000_0000_0000_0000int && 2 <= margin as int
                    <= 0x8000_0000_0000_0000int,
        ;
    }
    let ow: i128 = (sl as i128 - 1) * (margin as i128);
    let ghost owi = ow as int;
    proof {
        lemma_mul_nonnegative((sl as int) - 1, m);
        lemma_mul_inequality((sl as int) - 1, l - 1, m);
        assert((l - 1) * m == m * (l - 1)) by (nonlinear_arith);
        assert(owi <= s0.last() - s0[0]);
        assert(0 <= ow * (sl as i128) <= 0x1_0000_0000_0000_0000 * 0x1000_0000_0000_0000int)
            by (nonlinear_arith)
            requires 0 <= ow <= 0x1_0000_0000_0000_0000int && 0 < sl <= 0x1000_0000_0000_0000int,
        ;
    }
    let p_num: i128 = 2 * sum - ow * (sl as i128);
    let q2: i128 = 2 * (sl as i128);
    let o_left: i128 = round_div(p_num, q2);
    let ghost oli = o_left as int;
    proof {
        lemma_opt_bounds(s0, f as int, sl as int, m);
        assert(oli <= s0[f as int]);
        assert(oli + owi >= s0[f + sl - 1]);
    }

    // The space really available, bounded by the immediate neighbours (or by
    // the sequence's own extremities).
    let left_limit: i128 = if f > 0 {
        dots[f - 1] as i128 + margin as i128
    } else {
        dots[0] as i128
    };
    let right_limit: i128 = if f + sl < n {
        dots[f + sl] as i128 - margin as i128
    } else {
        dots[n - 1] as i128
    };
    proof {
        if f + sl < n {
            lemma_increasing_gap(s0, f + sl, l - 1);
        }
        if f > 0 {
            lemma_increasing_gap(s0, 0, f - 1);
        }
        assert(s0[0] <= left_limit <= s0[f as int]);
        assert(s0[f + sl - 1] <= right_limit <= s0[l - 1]);
    }

    // Clamp the optimal range into the available space, biased toward the
    // constrained side.
    let d_first: i128 = dots[f] as i128;
    let d_last: i128 = dots[f + sl - 1] as i128;
    let (ns, ne): (i128, i128) = clamp_range(o_left, ow, left_limit, right_limit, d_first, d_last);
    let ghost nsi = ns as int;
    let ghost nei = ne as int;
    proof {
        assert(nei - nsi >= (sl as int) - 1);
        assert(f == 0 ==> nsi == s0[0]);
        assert(f + sl == l ==> nei == s0[l - 1]);
    }

    // Redistribute the subset's dots evenly over the chosen range.
    let den: i128 = sl as i128 - 1;
    let ghost deni = den as int;
    let mut i: usize = 0;
    while i < sl
        invariant
            0 <= i <= sl,
            dots@.len() == l,
            forall|j: int| 0 <= j < l && !(f <= j < f + i) ==> dots@[j] == s0[j],
            forall|t: int|
                0 <= t < i ==> #[trigger] dots@[f + t] == round_half(
                    nsi * deni + (nei - nsi) * t,
                    deni,
                ),
        decreases sl - i,
    {
        proof {
            lemma_redist_bounds(nsi, nei, deni, i as int);
        }
        let num: i128 = ns * den + (ne - ns) * (i as i128);
        let v: i128 = round_div(num, den);
        let idx = f + i;
        dots[idx] = v as i64;
        i = i + 1;
    }

    proof {
        lemma_relaxed_shape(
            s0,
            dots@,
            m,
            f as int,
            sl as int,
            nsi,
            nei,
            left_limit as int,
            right_limit as int,
        );
        // the result is exactly the relaxation step's specification
        let spec_s = relax_spec(s0, m, f as int, sl as int);
        assert((nsi, nei) == clamped_range(oli, owi, left_limit as int, right_limit as int));
        assert forall|j: int| 0 <= j < l implies dots@[j] == spec_s[j] by {
            if f <= j < f + sl {
                let t = j - f;
                assert(dots@[f + t] == round_half(nsi * deni + (nei - nsi) * t, deni));
                assert(f + t == j);
            }
        }
        assert(dots@ =~= spec_s);
    }
}

/// Whether the values are strictly increasing, checked pair by pair.
pub fn is_strictly_increasing(v: &Vec<i64>) -> (r: bool)
    ensures
        r == strictly_increasing(v@),
{
    let n = v.len();
    let mut i: usize = 1;
    while i < n
        invariant
            1 <= i <= n || n == 0,
            n == v@.len(),
            forall|j: int| #![trigger v@[j], v@[j + 1]] 0 <= j && j + 1 < i ==> v@[j] < v@[j + 1],
        decreases n - i,
    {
        if v[i - 1] >= v[i] {
            proof {
                let j = i - 1 as int;
                assert(v@[j] >= v@[j + 1]);
            }
            return false;
        }
        i = i + 1;
    }
    true
}

/// Grow a run that ends at `idx` backward over any near neighbours and
/// measure it: returns its first index (exactly [`grow_back`] of the run's
/// start), its number of dots and its width.
#[verifier::loop_isolation(false)]
#[verifier::rlimit(100)]
fn close_run(dots: &Vec<i64>, margin: i64, c: usize, idx: usize) -> (r: (usize, usize, i128))
    requires
        2 <= dots@.len() <= 0x1000_0000_0000_0000,
        strictly_increasing(dots@),
        0 <= c < idx <= dots@.len() - 1,
        dots@[c as int + 1] - dots@[c as int] < margin,
        forall|j: int|
            #![trigger dots@[j], dots@[j + 1]]
            c <= j && j + 1 <= idx ==> dots@[j + 1] - dots@[j] <= margin,
    ensures
        ({
            let (f, sl, w) = r;
            &&& f == grow_back(dots@, margin as int, c as int)
            &&& w == dots@[idx as int] - dots@[f as int]
            &&& 2 <= sl
            &&& f + sl == idx + 1
            &&& margin >= 2
            &&& 0 <= w < 0x1_0000_0000_0000_0000
            &&& gaps_within(dots@, f as int, idx + 1, margin as int)
            &&& (f > 0 ==> dots@[f as int] - dots@[f - 1] > margin)
        }),
{
    let ghost s = dots@;
    let l = dots.len();
    let mut first = c;
    while first > 0 && dots[first] as i128 - dots[first - 1] as i128 <= margin as i128
        invariant
            0 <= first <= c,
            grow_back(s, margin as int, first as int) == grow_back(s, margin as int, c as int),
            forall|j: int|
                #![trigger s[j], s[j + 1]]
                first <= j && j + 1 <= idx ==> s[j + 1] - s[j] <= margin,
        decreases first,
    {
        first = first - 1;
    }
    proof {
        assert(grow_back(s, margin as int, first as int) == first);
    }
    proof {
        lemma_increasing_gap(s, first as int, idx as int);
        lemma_increasing_gap(s, 0, first as int);
        lemma_increasing_gap(s, idx as int, l - 1);
        assert(s[c as int + 1] - s[c as int] >= 1);
    }
    let width: i128 = dots[idx] as i128 - dots[first] as i128;
    (first, idx - first + 1, width)
}

/// Whether a run of width `cw` over `cl` dots displaces the selected run of
/// width `bw` over `bl` dots: by the cross-multiplied comparison
/// `bw * cl < cw * bl`, the run with the larger width for its number of
/// dots wins, and the run found first wins ties.
fn displaces(bw: i128, bl: usize, cw: i128, cl: usize) -> (r: bool)
    requires
        0 <= bw < 0x1_0000_0000_0000_0000,
        0 <= cw < 0x1_0000_0000_0000_0000,
        bl <= 0x1000_0000_0000_0000,
        cl <= 0x1000_0000_0000_0000,
    ensures
        r == (bw * cl < cw * bl),
{
    proof {
        assert(0 <= bw * (cl as i128) <= 0x1_0000_0000_0000_0000 * 0x1000_0000_0000_0000int)
            by (nonlinear_arith)
            requires
                0 <= bw <= 0x1_0000_0000_0000_0000int && 0 <= cl as int
                    <= 0x1000_0000_0000_0000int,
        ;
        assert(0 <= cw * (bl as i128) <= 0x1_0000_0000_0000_0000 * 0x1000_0000_0000_0000int)
            by (nonlinear_arith)
            requires
                0 <= cw <= 0x1_0000_0000_0000_0000int && 0 <= bl as int
                    <= 0x1000_0000_0000_0000int,
        ;
    }
    bw * (cl as i128) < cw * (bl as i128)
}

/// The exec scan state lifted to the specification's: the start of the run
/// being read.
spec fn lift_cur(cur: Option<usize>) -> Option<int> {
    match cur {
        Option::Some(c) => Option::Some(c as int),
        Option::None => Option::None,
    }
}

/// The exec scan state lifted to the specification's: the selected run.
spec fn lift_best(best: Option<(usize, usize, i128)>) -> Option<(int, int, int)> {
    match best {
        Option::Some(b) => Option::Some((b.0 as int, b.1 as int, b.2 as int)),
        Option::None => Option::None,
    }
}

/// Scan for maximal runs of dots closer together than the margin; return
/// the start and length of the selected run — the one with the largest
/// width for its number of dots, the first found winning ties — or `None`
/// when adjacent dots are everywhere at least `margin` apart. The result
/// is exactly what [`find_subset_spec`] selects.
#[verifier::loop_isolation(false)]
#[verifier::rlimit(100)]
fn find_subset(dots: &Vec<i64>, margin: i64) -> (r: Option<(usize, usize)>)
    requires
        2 <= dots@.len() <= 0x1000_0000_0000_0000,
        strictly_increasing(dots@),
    ensures
        (r is Some <==> find_subset_spec(dots@, margin as int) is Some),
        r matches Some((f, sl)) ==> ({
            let b = find_subset_spec(dots@, margin as int)->0;
            b.0 == f && b.1 == sl
        }),
        r is None ==> spaced(dots@, margin as int),
        r matches Some((f, sl)) ==> {
            &&& 2 <= sl
            &&& f + sl <= dots@.len()
            &&& margin >= 2
            &&& gaps_within(dots@, f as int, f + sl, margin as int)
            &&& (f > 0 ==> dots@[f as int] - dots@[f - 1] > margin)
            &&& (f + sl < dots@.len() ==> dots@[f + sl] - dots@[f + sl - 1] > margin)
            &&& !spaced(dots@, margin as int)
        },
{
    let ghost s = dots@;
    let l = dots.len();
    let mut best: Option<(usize, usize, i128)> = None;
    let mut cur: Option<usize> = None;
    let mut idx: usize = 0;
    while idx < l
        invariant
            0 <= idx <= l,
            scan_from(s, margin as int, idx as int, lift_cur(cur), lift_best(best))
                == find_subset_spec(s, margin as int),
            cur matches Some(c) ==> {
                &&& 0 <= c < idx <= l - 1
                &&& s[c as int + 1] - s[c as int] < margin
                &&& forall|j: int|
                    #![trigger s[j], s[j + 1]]
                    c <= j && j + 1 <= idx ==> s[j + 1] - s[j] <= margin
            },
            (cur is None && best is None) ==> forall|j: int|
                #![trigger s[j], s[j + 1]]
                0 <= j < idx && j + 1 < l ==> s[j + 1] - s[j] >= margin,
            best matches Some((f, sl, w)) ==> {
                &&& 2 <= sl
                &&& f + sl <= l
                &&& margin >= 2
                &&& 0 <= w < 0x1_0000_0000_0000_0000
                &&& gaps_within(s, f as int, f + sl, margin as int)
                &&& (f > 0 ==> s[f as int] - s[f - 1] > margin)
                &&& (f + sl < l ==> s[f + sl] - s[f + sl - 1] > margin)
                &&& !spaced(s, margin as int)
            },
        decreases l - idx,
    {
        match cur {
            Some(c) => {
                if idx == l - 1 || (dots[idx] as i128 + margin as i128) < dots[idx + 1] as i128 {
                    proof {
                        assert(s[c as int + 1] - s[c as int] < margin);
                        assert(!spaced(s, margin as int));
                    }
                    let (first, sl, width) = close_run(dots, margin, c, idx);
                    let take: bool = match &best {
                        Option::None => true,
                        Option::Some(b) => displaces(b.2, b.1, width, sl),
                    };
                    if take {
                        best = Some((first, sl, width));
                    }
                    cur = None;
                }
            },
            None => {
                if idx < l - 1 && (dots[idx] as i128 + margin as i128) > dots[idx + 1] as i128 {
                    cur = Some(idx);
                }
            },
        }
        idx = idx + 1;
    }
    proof {
        assert(scan_from(s, margin as int, l as int, lift_cur(cur), lift_best(best))
            == lift_best(best));
    }
    match best {
        Option::None => None,
        Option::Some((f, sl, _width)) => Some((f, sl)),
    }
}

/// Build a new sequence of dots with no dot less than `margin` from the
/// next, by repeatedly spreading out the selected run of near dots.
///
/// The dots must be strictly increasing. The first and last dot are returned
/// unchanged. When the requested margins cannot fit into the available span
/// (`margin * (count - 1) > last - first`), or when the relaxation has not
/// settled within its iteration budget, `None` is returned and the caller
/// must fall back to another display policy. The result is exactly
/// [`unoverlap_spec`], the specification-level rendition of the algorithm.
#[verifier::loop_isolation(false)]
pub fn unoverlap(dots: Vec<i64>, margin: i64) -> (r: Option<Vec<i64>>)
    requires
        2 <= dots@.len() <= 0x1000_0000_0000_0000,
        strictly_increasing(dots@),
    ensures
        (r is Some <==> unoverlap_spec(dots@, margin as int) is Some),
        r matches Some(v) ==> unoverlap_spec(dots@, margin as int) == Some(v@),
        margin * (dots@.len() - 1) > dots@.last() - dots@[0] ==> r is None,
        r is Some ==> margin * (dots@.len() - 1) <= dots@.last() - dots@[0],
        r matches Some(v) ==> {
            &&& v@.len() == dots@.len()
            &&& v@[0] == dots@[0]
            &&& v@.last() == dots@.last()
            &&& spaced(v@, margin as int)
            &&& strictly_increasing(v@)
        },
        spaced(dots@, margin as int) && margin * (dots@.len() - 1) <= dots@.last() - dots@[0]
            ==> (r matches Some(v) && v@ == dots@),
{
    let ghost orig = dots@;
    let l = dots.len();
    proof {
        assert(-(0x8000_0000_0000_0000 * 0x1000_0000_0000_0000int) <= (margin as int) * ((l
            - 1) as int) <= 0x8000_0000_0000_0000 * 0x1000_0000_0000_0000int)
            by (nonlinear_arith)
            requires
                -0x8000_0000_0000_0000 <= margin as int <= 0x8000_0000_0000_0000int && 0 <= (l
                    - 1) as int <= 0x1000_0000_0000_0000int,
        ;
    }
    if (margin as i128) * ((l - 1) as i128) > dots[l - 1] as i128 - dots[0] as i128 {
        return None;
    }
    let mut dots = dots;
    let mut rounds: u64 = 0;
    let bound: u64 = 2 * (l as u64);
    while rounds < bound
        invariant
            dots@.len() == l,
            strictly_increasing(dots@),
            dots@[0] == orig[0],
            dots@.last() == orig.last(),
            margin * (l - 1) <= orig.last() - orig[0],
            rounds <= bound,
            rounds_from(dots@, margin as int, (bound - rounds) as nat) == unoverlap_spec(
                orig,
                margin as int,
            ),
            dots@ == orig || !spaced(orig, margin as int),
            spaced(orig, margin as int) ==> rounds == 0,
        decreases bound - rounds,
    {
        match find_subset(&dots, margin) {
            Option::None => {
                return Some(dots);
            },
            Option::Some((f, sl)) => {
                relax_subset(&mut dots, margin, f, sl);
            },
        }
        rounds = rounds + 1;
    }
    // The iteration budget was spent without settling; report that no
    // layout was found rather than returning a still-overlapping one.
    None
}

} // verus!
