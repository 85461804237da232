//! An affine map from a rectangular source coordinate space to a
//! rectangular destination coordinate space, computed in integer arithmetic
//! with the quotient truncated toward zero.

use vstd::prelude::*;

verus! {

use vstd::arithmetic::div_mod::{
    lemma_div_is_ordered,
    lemma_fundamental_div_mod,
    lemma_fundamental_div_mod_converse_div,
    lemma_mod_division_less_than_divisor,
};

/// A rectangle in integer device coordinates; the height (or width) may be
/// negative to flip the corresponding axis.
#[derive(Clone, Copy, Debug, PartialEq, Eq, Structural)]
pub struct IntRect {
    pub left: i64,
    pub top: i64,
    pub width: i64,
    pub height: i64,
}

impl IntRect {
    pub fn new(left: i64, top: i64, width: i64, height: i64) -> (r: IntRect)
        ensures
            r == (IntRect { left, top, width, height }),
    {
        IntRect { left, top, width, height }
    }
}

/// The absolute value, as a mathematical integer.
pub open spec fn iabs(a: int) -> int {
    if a < 0 {
        -a
    } else {
        a
    }
}

/// Division rounding toward zero (the semantics of hardware division), for
/// any nonzero divisor.
pub open spec fn trunc_div(a: int, b: int) -> int
    recommends
        b != 0,
{
    let q = iabs(a) / iabs(b);
    if (a < 0) != (b < 0) {
        -q
    } else {
        q
    }
}

/// `trunc_div` decomposes its dividend like a division should:
/// `a == trunc_div(a, b) * b + r` with `|r| < |b|`.
pub proof fn lemma_trunc_div_fundamental(a: int, b: int)
    requires
        b != 0,
    ensures
        iabs(a - trunc_div(a, b) * b) < iabs(b),
{
    let q = iabs(a) / iabs(b);
    lemma_fundamental_div_mod(iabs(a), iabs(b));
    lemma_mod_division_less_than_divisor(iabs(a), iabs(b));
    let rr = iabs(a) % iabs(b);
    assert(iabs(a) == iabs(b) * q + rr);
    if (a < 0) != (b < 0) {
        assert(a - (-q) * b == if a >= 0 { rr } else { -rr }) by (nonlinear_arith)
            requires
                iabs(a) == iabs(b) * q + rr && b != 0 && ((a < 0) != (b < 0)) && (a >= 0 ==> iabs(a)
                    == a) && (a < 0 ==> iabs(a) == -a) && (b >= 0 ==> iabs(b) == b) && (b < 0
                    ==> iabs(b) == -b),
        ;
    } else {
        assert(a - q * b == if a >= 0 { rr } else { -rr }) by (nonlinear_arith)
            requires
                iabs(a) == iabs(b) * q + rr && b != 0 && ((a < 0) == (b < 0)) && (a >= 0 ==> iabs(a)
                    == a) && (a < 0 ==> iabs(a) == -a) && (b >= 0 ==> iabs(b) == b) && (b < 0
                    ==> iabs(b) == -b),
        ;
    }
}

/// An exact multiple divides back to its factor.
pub proof fn lemma_trunc_div_exact(k: int, b: int)
    requires
        b != 0,
    ensures
        trunc_div(k * b, b) == k,
{
    assert(iabs(k * b) == iabs(k) * iabs(b)) by (nonlinear_arith)
        requires
            (k >= 0 ==> iabs(k) == k) && (k < 0 ==> iabs(k) == -k) && (b >= 0 ==> iabs(b) == b) && (b
                < 0 ==> iabs(b) == -b) && (k * b >= 0 ==> iabs(k * b) == k * b) && (k * b < 0
                ==> iabs(k * b) == -(k * b)),
    ;
    assert(iabs(k) * iabs(b) == iabs(b) * iabs(k) + 0) by (nonlinear_arith);
    lemma_fundamental_div_mod_converse_div(iabs(k) * iabs(b), iabs(b), iabs(k), 0);
    assert(iabs(k * b) / iabs(b) == iabs(k));
    if k == 0 {
        assert(trunc_div(k * b, b) == 0);
    } else if (k * b < 0) != (b < 0) {
        assert(k < 0) by (nonlinear_arith)
            requires k != 0 && b != 0 && ((k * b < 0) != (b < 0)),
        ;
    } else {
        assert(k > 0 || k * b == 0) by (nonlinear_arith)
            requires k != 0 && b != 0 && ((k * b < 0) == (b < 0)),
        ;
    }
}

/// Truncating division in wide integers.
fn trunc_div_i128(a: i128, b: i128) -> (r: i128)
    requires
        b != 0,
        -0x7fff_ffff_ffff_ffff_ffff_ffff_ffff_ffff <= a,
        -0x8000_0000_0000_0000_0000_0000_0000_0000 < b,
    ensures
        r == trunc_div(a as int, b as int),
        iabs(r as int) <= iabs(a as int),
{
    let na: u128 = if a >= 0 {
        a as u128
    } else {
        (-a) as u128
    };
    let nb: u128 = if b >= 0 {
        b as u128
    } else {
        (-b) as u128
    };
    let q: u128 = na / nb;
    proof {
        lemma_div_is_ordered(0, na as int, nb as int);
        lemma_fundamental_div_mod(na as int, nb as int);
        lemma_mod_division_less_than_divisor(na as int, nb as int);
        assert((na as int) / (nb as int) <= na as int) by (nonlinear_arith)
            requires
                na as int >= 0 && nb as int >= 1 && na as int == (nb as int) * ((na as int) / (
                nb as int)) + (na as int) % (nb as int) && (na as int) % (nb as int) >= 0,
        ;
    }
    if (a < 0) != (b < 0) {
        -(q as i128)
    } else {
        q as i128
    }
}

/// When the dividend has the divisor's sign and is at most `c` divisors in
/// magnitude, the truncated quotient lies in `[0, c]`.
pub proof fn lemma_trunc_div_in_range(n: int, b: int, c: int)
    requires
        b != 0,
        c >= 0,
        iabs(n) <= iabs(b) * c,
        n * b >= 0,
    ensures
        0 <= trunc_div(n, b) <= c,
{
    let q = iabs(n) / iabs(b);
    lemma_div_is_ordered(0, iabs(n), iabs(b));
    vstd::arithmetic::div_mod::lemma_multiply_divide_le(iabs(n), iabs(b), c);
    if n == 0 {
        vstd::arithmetic::div_mod::lemma_div_of0(iabs(b));
    } else {
        assert((n < 0) == (b < 0)) by (nonlinear_arith)
            requires n * b >= 0 && n != 0 && b != 0,
        ;
    }
}

/// The affine projector: maps `src`-space coordinates to `dst`-space
/// coordinates, so that the corners of `src` land on the corners of `dst`.
#[derive(Clone, Copy, Debug)]
pub struct Projector {
    pub sx: i64,
    pub sy: i64,
    pub dx: i64,
    pub dy: i64,
    pub sw: i64,
    pub sh: i64,
    pub dw: i64,
    pub dh: i64,
}

/// Where the projector `p` sends the x coordinate `x`.
pub open spec fn project_x_spec(p: Projector, x: int) -> int {
    p.dx + trunc_div((x - p.sx) * p.dw, p.sw as int)
}

/// Where the projector `p` sends the y coordinate `y`.
pub open spec fn project_y_spec(p: Projector, y: int) -> int {
    p.dy + trunc_div((y - p.sy) * p.dh, p.sh as int)
}

impl Projector {
    /// Build the projector that maps the rectangle `src` onto the rectangle
    /// `dst`. The source rectangle must not be degenerate.
    pub fn new(src: &IntRect, dst: &IntRect) -> (r: Projector)
        requires
            src.width != 0,
            src.height != 0,
        ensures
            r == (Projector {
                sx: src.left,
                sy: src.top,
                dx: dst.left,
                dy: dst.top,
                sw: src.width,
                sh: src.height,
                dw: dst.width,
                dh: dst.height,
            }),
    {
        Projector {
            sx: src.left,
            sy: src.top,
            dx: dst.left,
            dy: dst.top,
            sw: src.width,
            sh: src.height,
            dw: dst.width,
            dh: dst.height,
        }
    }

    pub fn project_x(&self, x: i64) -> (r: i64)
        requires
            self.sw != 0,
            i64::MIN <= project_x_spec(*self, x as int) <= i64::MAX,
        ensures
            r == project_x_spec(*self, x as int),
    {
        proof {
            assert(-0x7fff_ffff_ffff_ffff_ffff_ffff_ffff_ffff <= ((x as int) - (self.sx as int))
                * (self.dw as int) <= 0x7fff_ffff_ffff_ffff_ffff_ffff_ffff_ffff)
                by (nonlinear_arith)
                requires
                    -0x1_0000_0000_0000_0000 < (x as int) - (self.sx as int)
                        < 0x1_0000_0000_0000_0000 && -0x8000_0000_0000_0000 <= (self.dw as int)
                        <= 0x8000_0000_0000_0000int,
            ;
        }
        let n: i128 = (x as i128 - self.sx as i128) * (self.dw as i128);
        let t: i128 = trunc_div_i128(n, self.sw as i128);
        (self.dx as i128 + t) as i64
    }

    pub fn project_y(&self, y: i64) -> (r: i64)
        requires
            self.sh != 0,
            i64::MIN <= project_y_spec(*self, y as int) <= i64::MAX,
        ensures
            r == project_y_spec(*self, y as int),
    {
        proof {
            assert(-0x7fff_ffff_ffff_ffff_ffff_ffff_ffff_ffff <= ((y as int) - (self.sy as int))
                * (self.dh as int) <= 0x7fff_ffff_ffff_ffff_ffff_ffff_ffff_ffff)
                by (nonlinear_arith)
                requires
                    -0x1_0000_0000_0000_0000 < (y as int) - (self.sy as int)
                        < 0x1_0000_0000_0000_0000 && -0x8000_0000_0000_0000 <= (self.dh as int)
                        <= 0x8000_0000_0000_0000int,
            ;
        }
        let n: i128 = (y as i128 - self.sy as i128) * (self.dh as i128);
        let t: i128 = trunc_div_i128(n, self.sh as i128);
        (self.dy as i128 + t) as i64
    }

    /// Like [`Self::project_x`], but total: callers that cannot establish
    /// that the projected value fits an `i64` get `None` in that case
    /// instead.
    pub fn checked_project_x(&self, x: i64) -> (r: Option<i64>)
        requires
            self.sw != 0,
        ensures
            r matches Some(px) ==> px == project_x_spec(*self, x as int),
            r is Some <==> i64::MIN <= project_x_spec(*self, x as int) <= i64::MAX,
    {
        proof {
            assert(-0x7fff_ffff_ffff_ffff_8000_0000_0000_0000 <= ((x as int) - (self.sx as int))
                * (self.dw as int) <= 0x7fff_ffff_ffff_ffff_8000_0000_0000_0000int)
                by (nonlinear_arith)
                requires
                    -0x1_0000_0000_0000_0000 < (x as int) - (self.sx as int)
                        < 0x1_0000_0000_0000_0000 && -0x8000_0000_0000_0000 <= (self.dw as int)
                        <= 0x8000_0000_0000_0000int,
            ;
        }
        let n: i128 = (x as i128 - self.sx as i128) * (self.dw as i128);
        let t: i128 = trunc_div_i128(n, self.sw as i128);
        let v: i128 = self.dx as i128 + t;
        if i64::MIN as i128 <= v && v <= i64::MAX as i128 {
            Some(v as i64)
        } else {
            None
        }
    }

    /// Like [`Self::project_y`], but total: out-of-range projections give
    /// `None`.
    pub fn checked_project_y(&self, y: i64) -> (r: Option<i64>)
        requires
            self.sh != 0,
        ensures
            r matches Some(py) ==> py == project_y_spec(*self, y as int),
            r is Some <==> i64::MIN <= project_y_spec(*self, y as int) <= i64::MAX,
    {
        proof {
            assert(-0x7fff_ffff_ffff_ffff_8000_0000_0000_0000 <= ((y as int) - (self.sy as int))
                * (self.dh as int) <= 0x7fff_ffff_ffff_ffff_8000_0000_0000_0000int)
                by (nonlinear_arith)
                requires
                    -0x1_0000_0000_0000_0000 < (y as int) - (self.sy as int)
                        < 0x1_0000_0000_0000_0000 && -0x8000_0000_0000_0000 <= (self.dh as int)
                        <= 0x8000_0000_0000_0000int,
            ;
        }
        let n: i128 = (y as i128 - self.sy as i128) * (self.dh as i128);
        let t: i128 = trunc_div_i128(n, self.sh as i128);
        let v: i128 = self.dy as i128 + t;
        if i64::MIN as i128 <= v && v <= i64::MAX as i128 {
            Some(v as i64)
        } else {
            None
        }
    }

    /// Like [`Self::project_point`], but total: a point whose projection
    /// does not fit an `i64` on either axis gives `None`.
    pub fn checked_project_point(&self, p: (i64, i64)) -> (r: Option<(i64, i64)>)
        requires
            self.sw != 0,
            self.sh != 0,
        ensures
            r matches Some(q) ==> q.0 == project_x_spec(*self, p.0 as int) && q.1
                == project_y_spec(*self, p.1 as int),
            r is Some <==> (i64::MIN <= project_x_spec(*self, p.0 as int) <= i64::MAX && i64::MIN
                <= project_y_spec(*self, p.1 as int) <= i64::MAX),
    {
        match (self.checked_project_x(p.0), self.checked_project_y(p.1)) {
            (Some(px), Some(py)) => Some((px, py)),
            _ => None,
        }
    }

    pub fn project_point(&self, p: (i64, i64)) -> (r: (i64, i64))
        requires
            self.sw != 0,
            self.sh != 0,
            i64::MIN <= project_x_spec(*self, p.0 as int) <= i64::MAX,
            i64::MIN <= project_y_spec(*self, p.1 as int) <= i64::MAX,
        ensures
            r.0 == project_x_spec(*self, p.0 as int),
            r.1 == project_y_spec(*self, p.1 as int),
    {
        (self.project_x(p.0), self.project_y(p.1))
    }
}

/// The projector is affine: the source rectangle's corners land exactly on
/// the destination rectangle's corners.
pub proof fn lemma_projector_corners(p: Projector)
    requires
        p.sw != 0,
        p.sh != 0,
    ensures
        project_x_spec(p, p.sx as int) == p.dx,
        project_x_spec(p, p.sx + p.sw) == p.dx + p.dw,
        project_y_spec(p, p.sy as int) == p.dy,
        project_y_spec(p, p.sy + p.sh) == p.dy + p.dh,
{
    assert((p.sx - p.sx) * p.dw == 0 * p.sw) by (nonlinear_arith);
    lemma_trunc_div_exact(0, p.sw as int);
    assert((p.sx + p.sw - p.sx) * p.dw == p.dw * p.sw) by (nonlinear_arith);
    lemma_trunc_div_exact(p.dw as int, p.sw as int);
    assert((p.sy - p.sy) * p.dh == 0 * p.sh) by (nonlinear_arith);
    lemma_trunc_div_exact(0, p.sh as int);
    assert((p.sy + p.sh - p.sy) * p.dh == p.dh * p.sh) by (nonlinear_arith);
    lemma_trunc_div_exact(p.dh as int, p.sh as int);
}

/// The projector is affine: the difference of two projected x coordinates,
/// times the source width, equals the difference of the source coordinates
/// times the destination width, up to less than one source width of
/// truncation error — a fixed ratio `dw / sw` for the given projector.
pub proof fn lemma_projector_affine(p: Projector, a: int, b: int)
    requires
        p.sw != 0,
    ensures
        iabs((project_x_spec(p, a) - project_x_spec(p, b)) * p.sw - (a - b) * p.dw) < 2 * iabs(
            p.sw as int,
        ),
{
    let na = (a - p.sx) * p.dw;
    let nb = (b - p.sx) * p.dw;
    let ta = trunc_div(na, p.sw as int);
    let tb = trunc_div(nb, p.sw as int);
    lemma_trunc_div_fundamental(na, p.sw as int);
    lemma_trunc_div_fundamental(nb, p.sw as int);
    assert(na - nb == (a - b) * p.dw) by (nonlinear_arith)
        requires na == (a - p.sx) * p.dw && nb == (b - p.sx) * p.dw,
    ;
    assert((p.dx + ta - (p.dx + tb)) * p.sw == ta * p.sw - tb * p.sw) by (nonlinear_arith);
}

} // verus!
