//! Analytic unit-box coverage with exact rational line clipping.
use vstd::prelude::*;
use crate::fold::{fold_checked, lemma_fold_next, lemma_fold_error_persists};
use crate::iv32::{FixedDomain, Iv32, NumericError};
use crate::poly::{Quadratic2, exact_quadratic_range, exact_quadratic_range_spec};

verus! {

/// Foreground is `a*x + b*y + c >= 0`.
#[derive(Clone, Copy, Debug, PartialEq, Eq, Structural)]
pub struct HalfPlane {
    pub a: i64,
    pub b: i64,
    pub c: i64,
}

#[derive(Clone, Copy, Debug, PartialEq, Eq, Structural)]
pub enum BoundaryOwner {
    LowerOrLeft,
    UpperOrRight,
}

/// `y(x) = c + b*x + a*x²`, with y coefficients in coverage raw units.
#[derive(Clone, Copy, Debug, PartialEq, Eq, Structural)]
pub struct QuadraticGraph {
    pub c: i32,
    pub b: i32,
    pub a: i32,
}

pub open spec fn fits128(v: int) -> bool {
    i128::MIN <= v <= i128::MAX
}

/// A rational number as `(numerator, denominator)`, not reduced.
pub type Ratio = (int, int);

/// A point with rational coordinates.
pub type RatioPoint = (Ratio, Ratio);

/// Builds `n / d` with a positive denominator.
pub open spec fn ratio_new(n: int, d: int) -> Result<Ratio, NumericError> {
    if d == 0 {
        Err(NumericError::DivisionByZero)
    } else if d < 0 {
        if n == i128::MIN || d == i128::MIN {
            Err(NumericError::Overflow)
        } else {
            Ok((-n, -d))
        }
    } else {
        Ok((n, d))
    }
}

/// `p + q` over the product denominator; every product and sum must fit `i128`.
pub open spec fn ratio_add(p: Ratio, q: Ratio) -> Result<Ratio, NumericError> {
    if fits128(p.0 * q.1) && fits128(q.0 * p.1) && fits128(p.0 * q.1 + q.0 * p.1) && fits128(
        p.1 * q.1,
    ) {
        ratio_new(p.0 * q.1 + q.0 * p.1, p.1 * q.1)
    } else {
        Err(NumericError::Overflow)
    }
}

pub open spec fn ratio_sub(p: Ratio, q: Ratio) -> Result<Ratio, NumericError> {
    if fits128(p.0 * q.1) && fits128(q.0 * p.1) && fits128(p.0 * q.1 - q.0 * p.1) && fits128(
        p.1 * q.1,
    ) {
        ratio_new(p.0 * q.1 - q.0 * p.1, p.1 * q.1)
    } else {
        Err(NumericError::Overflow)
    }
}

pub open spec fn ratio_mul(p: Ratio, q: Ratio) -> Result<Ratio, NumericError> {
    if fits128(p.0 * q.0) && fits128(p.1 * q.1) {
        ratio_new(p.0 * q.0, p.1 * q.1)
    } else {
        Err(NumericError::Overflow)
    }
}

pub open spec fn ratio_mul_integer(p: Ratio, v: int) -> Result<Ratio, NumericError> {
    if fits128(p.0 * v) {
        ratio_new(p.0 * v, p.1)
    } else {
        Err(NumericError::Overflow)
    }
}

pub open spec fn ratio_div_integer(p: Ratio, v: int) -> Result<Ratio, NumericError> {
    if fits128(p.1 * v) {
        ratio_new(p.0, p.1 * v)
    } else {
        Err(NumericError::Overflow)
    }
}

pub open spec fn ratio_abs(p: Ratio) -> Result<Ratio, NumericError> {
    if p.0 == i128::MIN {
        Err(NumericError::Overflow)
    } else {
        ratio_new(if p.0 < 0 { -p.0 } else { p.0 }, p.1)
    }
}

/// `floor(n / d)` for a positive denominator.
pub open spec fn ratio_floor(p: Ratio) -> int {
    p.0 / p.1
}

/// `ceil(n / d)`; refused when the numerator cannot be negated.
pub open spec fn ratio_ceil(p: Ratio) -> Result<int, NumericError> {
    if p.0 == i128::MIN {
        Err(NumericError::Overflow)
    } else {
        Ok(-((-p.0) / p.1))
    }
}

/// The coefficient bound shared with the scalar guest.
pub open spec fn coefficient_in_range(v: int) -> bool {
    -1_000_000 <= v <= 1_000_000
}

/// A sample on an owned boundary counts as inside for `LowerOrLeft` only.
pub open spec fn inside_spec(value: int, owner: BoundaryOwner) -> bool {
    match owner {
        BoundaryOwner::LowerOrLeft => value >= 0,
        BoundaryOwner::UpperOrRight => value > 0,
    }
}

/// Corner `i` of the unit square, counter-clockwise from the origin.
pub open spec fn corner(i: int) -> (int, int) {
    if i == 0 {
        (0, 0)
    } else if i == 1 {
        (1, 0)
    } else if i == 2 {
        (1, 1)
    } else {
        (0, 1)
    }
}

pub open spec fn corner_point(i: int) -> RatioPoint {
    ((corner(i).0, 1), (corner(i).1, 1))
}

/// `a*x + b*y + c` at corner `i`.
pub open spec fn corner_value(edge: HalfPlane, i: int) -> int {
    edge.a * corner(i).0 + edge.b * corner(i).1 + edge.c
}

/// Where square side `i` (from corner `i` to corner `i + 1`) crosses the line.
pub open spec fn crossing(edge: HalfPlane, i: int) -> RatioPoint {
    let s = corner(i);
    let e = corner((i + 1) % 4);
    let sv = corner_value(edge, i);
    let ev = corner_value(edge, (i + 1) % 4);
    let t = if sv - ev < 0 {
        (-sv, ev - sv)
    } else {
        (sv, sv - ev)
    };
    (
        (s.0 * t.1 + (e.0 - s.0) * t.0, t.1),
        (s.1 * t.1 + (e.1 - s.1) * t.0, t.1),
    )
}

/// Points the clip adds on side `i`: the crossing, if the side crosses, then
/// the side's end corner, if inside.
pub open spec fn side_points(edge: HalfPlane, owner: BoundaryOwner, i: int) -> Seq<RatioPoint> {
    let start_inside = inside_spec(corner_value(edge, i), owner);
    let end_inside = inside_spec(corner_value(edge, (i + 1) % 4), owner);
    let first = if start_inside != end_inside {
        seq![crossing(edge, i)]
    } else {
        Seq::empty()
    };
    if end_inside {
        first.push(corner_point((i + 1) % 4))
    } else {
        first
    }
}

/// The clipped polygon after the first `k` sides.
pub open spec fn clipped_upto(edge: HalfPlane, owner: BoundaryOwner, k: nat) -> Seq<RatioPoint>
    decreases k,
{
    if k == 0 {
        Seq::empty()
    } else {
        clipped_upto(edge, owner, (k - 1) as nat) + side_points(edge, owner, k - 1)
    }
}

pub open spec fn clipped_polygon(edge: HalfPlane, owner: BoundaryOwner) -> Seq<RatioPoint> {
    clipped_upto(edge, owner, 4)
}

/// `a.x * b.y - a.y * b.x`, the shoelace term of one polygon side.
pub open spec fn cross_term(a: RatioPoint, b: RatioPoint) -> Result<Ratio, NumericError> {
    match ratio_mul(a.0, b.1) {
        Err(e) => Err(e),
        Ok(left) => match ratio_mul(a.1, b.0) {
            Err(e) => Err(e),
            Ok(right) => ratio_sub(left, right),
        },
    }
}

/// Shoelace accumulation over the sides of `points`.
pub open spec fn shoelace_step(points: Seq<RatioPoint>) -> spec_fn(Ratio, int) -> Result<
    Ratio,
    NumericError,
> {
    |acc: Ratio, i: int|
        match cross_term(points[i], points[(i + 1) % (points.len() as int)]) {
            Err(e) => Err(e),
            Ok(term) => ratio_add(acc, term),
        }
}

/// Exact area of the part of the unit square on the owned side of the line,
/// as an unreduced rational; coefficients beyond `±10^6` are refused.
pub open spec fn half_plane_area_ratio(edge: HalfPlane, owner: BoundaryOwner) -> Result<
    Ratio,
    NumericError,
> {
    if !(coefficient_in_range(edge.a as int) && coefficient_in_range(edge.b as int)
        && coefficient_in_range(edge.c as int)) {
        Err(NumericError::Overflow)
    } else {
        let points = clipped_polygon(edge, owner);
        if points.len() < 3 {
            Ok((0, 1))
        } else {
            match fold_checked(points.len(), (0, 1), shoelace_step(points)) {
                Err(e) => Err(e),
                Ok(double_area) => match ratio_abs(double_area) {
                    Err(e) => Err(e),
                    Ok(area) => ratio_div_integer(area, 2),
                },
            }
        }
    }
}

/// `2^-exponent` as the coverage scale. At 63 fraction bits the scale is
/// `1i64 << 63`, which wraps to `i64::MIN`; that wrapped value is kept here
/// as the scale, exactly as the shift computes it.
pub open spec fn coverage_scale_spec(domain: FixedDomain) -> Result<int, NumericError> {
    let bits = -domain.exponent;
    if bits < 0 {
        Err(NumericError::InvalidDomain)
    } else if bits >= 64 {
        Err(NumericError::Overflow)
    } else if bits == 63 {
        Ok(i64::MIN as int)
    } else {
        Ok(crate::dyadic::two_pow(bits as nat) as int)
    }
}

/// `[floor(area * scale), ceil(area * scale)]` in `i32` raw units.
pub open spec fn rational_coverage_spec(area: Ratio, domain: FixedDomain) -> Result<
    Iv32,
    NumericError,
> {
    match coverage_scale_spec(domain) {
        Err(e) => Err(e),
        Ok(scale) => match ratio_mul_integer(area, scale) {
            Err(e) => Err(e),
            Ok(scaled) => match ratio_ceil(scaled) {
                Err(e) => Err(e),
                Ok(hi) => {
                    let lo = ratio_floor(scaled);
                    if !(i32::MIN <= lo <= i32::MAX && i32::MIN <= hi <= i32::MAX) {
                        Err(NumericError::Overflow)
                    } else if lo > hi {
                        Err(NumericError::InvalidInterval)
                    } else {
                        Ok(Iv32 { lo: lo as i32, hi: hi as i32 })
                    }
                },
            },
        },
    }
}

pub open spec fn half_plane_area_spec(
    edge: HalfPlane,
    domain: FixedDomain,
    owner: BoundaryOwner,
) -> Result<Iv32, NumericError> {
    if !domain.is_valid() || domain.exponent > 0 {
        Err(NumericError::InvalidDomain)
    } else {
        match half_plane_area_ratio(edge, owner) {
            Err(e) => Err(e),
            Ok(area) => rational_coverage_spec(area, domain),
        }
    }
}

#[derive(Clone, Copy, Debug)]
struct Rational {
    numerator: i128,
    denominator: i128,
}

#[derive(Clone, Copy, Debug)]
struct Point {
    x: Rational,
    y: Rational,
}

impl Rational {
    spec fn ratio(self) -> Ratio {
        (self.numerator as int, self.denominator as int)
    }

    fn zero() -> (r: Self)
        ensures
            r.ratio() == (0int, 1int),
    {
        Rational { numerator: 0, denominator: 1 }
    }

    fn integer(value: i128) -> (r: Self)
        ensures
            r.ratio() == (value as int, 1int),
    {
        Rational { numerator: value, denominator: 1 }
    }

    fn new(numerator: i128, denominator: i128) -> (r: Result<Self, NumericError>)
        ensures
            lifted(r) == ratio_new(numerator as int, denominator as int),
            r matches Ok(v) ==> v.denominator > 0,
    {
        if denominator == 0 {
            return Err(NumericError::DivisionByZero);
        }
        if denominator < 0 {
            if numerator == i128::MIN || denominator == i128::MIN {
                return Err(NumericError::Overflow);
            }
            Ok(Rational { numerator: -numerator, denominator: -denominator })
        } else {
            Ok(Rational { numerator, denominator })
        }
    }

    fn checked_add(self, other: Self) -> (r: Result<Self, NumericError>)
        ensures
            lifted(r) == ratio_add(self.ratio(), other.ratio()),
            r matches Ok(v) ==> v.denominator > 0,
    {
        let left = match self.numerator.checked_mul(other.denominator) {
            Some(v) => v,
            None => return Err(NumericError::Overflow),
        };
        let right = match other.numerator.checked_mul(self.denominator) {
            Some(v) => v,
            None => return Err(NumericError::Overflow),
        };
        let sum = match left.checked_add(right) {
            Some(v) => v,
            None => return Err(NumericError::Overflow),
        };
        let denominator = match self.denominator.checked_mul(other.denominator) {
            Some(v) => v,
            None => return Err(NumericError::Overflow),
        };
        Self::new(sum, denominator)
    }

    fn checked_sub(self, other: Self) -> (r: Result<Self, NumericError>)
        ensures
            lifted(r) == ratio_sub(self.ratio(), other.ratio()),
            r matches Ok(v) ==> v.denominator > 0,
    {
        let left = match self.numerator.checked_mul(other.denominator) {
            Some(v) => v,
            None => return Err(NumericError::Overflow),
        };
        let right = match other.numerator.checked_mul(self.denominator) {
            Some(v) => v,
            None => return Err(NumericError::Overflow),
        };
        let difference = match left.checked_sub(right) {
            Some(v) => v,
            None => return Err(NumericError::Overflow),
        };
        let denominator = match self.denominator.checked_mul(other.denominator) {
            Some(v) => v,
            None => return Err(NumericError::Overflow),
        };
        Self::new(difference, denominator)
    }

    fn checked_mul(self, other: Self) -> (r: Result<Self, NumericError>)
        ensures
            lifted(r) == ratio_mul(self.ratio(), other.ratio()),
            r matches Ok(v) ==> v.denominator > 0,
    {
        let numerator = match self.numerator.checked_mul(other.numerator) {
            Some(v) => v,
            None => return Err(NumericError::Overflow),
        };
        let denominator = match self.denominator.checked_mul(other.denominator) {
            Some(v) => v,
            None => return Err(NumericError::Overflow),
        };
        Self::new(numerator, denominator)
    }

    fn checked_mul_integer(self, value: i128) -> (r: Result<Self, NumericError>)
        ensures
            lifted(r) == ratio_mul_integer(self.ratio(), value as int),
            r matches Ok(v) ==> v.denominator > 0,
    {
        let numerator = match self.numerator.checked_mul(value) {
            Some(v) => v,
            None => return Err(NumericError::Overflow),
        };
        Self::new(numerator, self.denominator)
    }

    fn checked_div_integer(self, value: i128) -> (r: Result<Self, NumericError>)
        ensures
            lifted(r) == ratio_div_integer(self.ratio(), value as int),
            r matches Ok(v) ==> v.denominator > 0,
    {
        let denominator = match self.denominator.checked_mul(value) {
            Some(v) => v,
            None => return Err(NumericError::Overflow),
        };
        Self::new(self.numerator, denominator)
    }

    fn abs(self) -> (r: Result<Self, NumericError>)
        ensures
            lifted(r) == ratio_abs(self.ratio()),
            r matches Ok(v) ==> v.denominator > 0,
    {
        if self.numerator == i128::MIN {
            return Err(NumericError::Overflow);
        }
        let magnitude = if self.numerator < 0 {
            -self.numerator
        } else {
            self.numerator
        };
        Self::new(magnitude, self.denominator)
    }

    fn as_integer(self) -> (r: Result<i128, NumericError>)
        ensures
            r == (if self.denominator != 1 {
                Err(NumericError::UnsupportedShape)
            } else {
                Ok(self.numerator)
            }),
    {
        if self.denominator != 1 {
            return Err(NumericError::UnsupportedShape);
        }
        Ok(self.numerator)
    }

    fn floor(self) -> (r: i128)
        requires
            self.denominator > 0,
        ensures
            r == ratio_floor(self.ratio()),
    {
        floor_div_any(self.numerator, self.denominator)
    }

    fn ceil(self) -> (r: Result<i128, NumericError>)
        requires
            self.denominator > 0,
        ensures
            match ratio_ceil(self.ratio()) {
                Ok(v) => r == Ok::<i128, NumericError>(v as i128) && fits128(v),
                Err(e) => r == Err::<i128, NumericError>(e),
            },
    {
        if self.numerator == i128::MIN {
            return Err(NumericError::Overflow);
        }
        let q = floor_div_any(-self.numerator, self.denominator);
        Ok(-q)
    }
}

impl Point {
    spec fn point(self) -> RatioPoint {
        (self.x.ratio(), self.y.ratio())
    }

    fn integer(x: i128, y: i128) -> (r: Self)
        ensures
            r.point() == ((x as int, 1int), (y as int, 1int)),
            r.x.denominator == 1 && r.y.denominator == 1,
    {
        Point { x: Rational::integer(x), y: Rational::integer(y) }
    }

    /// `self + (other - self) * t`, coordinate by coordinate.
    fn interpolate(self, other: Self, t: Rational) -> (r: Result<Self, NumericError>)
        ensures
            match (interpolate_coordinate(self.x.ratio(), other.x.ratio(), t.ratio()),
                interpolate_coordinate(self.y.ratio(), other.y.ratio(), t.ratio())) {
                (Ok(x), Ok(y)) => r matches Ok(p) && p.point() == (x, y),
                (Err(e), _) => r == Err::<Point, NumericError>(e),
                (Ok(_), Err(e)) => r == Err::<Point, NumericError>(e),
            },
    {
        let x = self.x.checked_add(other.x.checked_sub(self.x)?.checked_mul(t)?)?;
        let y = self.y.checked_add(other.y.checked_sub(self.y)?.checked_mul(t)?)?;
        Ok(Point { x, y })
    }
}

pub open spec fn interpolate_coordinate(s: Ratio, e: Ratio, t: Ratio) -> Result<Ratio, NumericError> {
    match ratio_sub(e, s) {
        Err(err) => Err(err),
        Ok(d) => match ratio_mul(d, t) {
            Err(err) => Err(err),
            Ok(step) => ratio_add(s, step),
        },
    }
}

/// Lifts a result over rationals to one over their pairs.
spec fn lifted(r: Result<Rational, NumericError>) -> Result<Ratio, NumericError> {
    match r {
        Ok(v) => Ok(v.ratio()),
        Err(e) => Err(e),
    }
}

/// `floor(v / d)` for any `i128` numerator and positive denominator.
fn floor_div_any(v: i128, d: i128) -> (r: i128)
    requires
        d > 0,
    ensures
        r == v as int / d as int,
        v >= 0 ==> 0 <= r <= v,
        v < 0 ==> v <= r < 0,
{
    if v >= 0 {
        let q = v / d;
        proof {
            let vi = v as int;
            let di = d as int;
            assert(0 <= vi / di <= vi) by (nonlinear_arith)
                requires
                    vi >= 0,
                    di >= 1,
            ;
        }
        q
    } else {
        let m: i128 = -(v + 1);
        let q = m / d;
        proof {
            let vi = v as int;
            let di = d as int;
            let mi = m as int;
            let qi = q as int;
            let ri = mi % di;
            assert(mi == di * qi + ri && 0 <= ri < di) by {
                vstd::arithmetic::div_mod::lemma_fundamental_div_mod(mi, di);
            }
            assert(vi == di * (-qi - 1) + (di - 1 - ri)) by (nonlinear_arith)
                requires
                    mi == di * qi + ri,
                    vi == -(mi + 1),
            ;
            vstd::arithmetic::div_mod::lemma_fundamental_div_mod_converse(
                vi,
                di,
                -qi - 1,
                di - 1 - ri,
            );
            assert(0 <= qi <= mi) by (nonlinear_arith)
                requires
                    qi == mi / di,
                    mi >= 0,
                    di >= 1,
            ;
        }
        -q - 1
    }
}

pub fn inside(value: i128, owner: BoundaryOwner) -> (r: bool)
    ensures
        r == inside_spec(value as int, owner),
{
    match owner {
        BoundaryOwner::LowerOrLeft => value >= 0,
        BoundaryOwner::UpperOrRight => value > 0,
    }
}

spec fn points_of(v: Seq<Point>) -> Seq<RatioPoint> {
    v.map_values(|p: Point| p.point())
}

/// The line's value at a corner of the unit square.
fn evaluate(edge: HalfPlane, point: Point, Ghost(i): Ghost<int>) -> (r: Result<i128, NumericError>)
    requires
        0 <= i < 4,
        point.point() == corner_point(i),
        coefficient_in_range(edge.a as int),
        coefficient_in_range(edge.b as int),
        coefficient_in_range(edge.c as int),
    ensures
        r == Ok::<i128, NumericError>(corner_value(edge, i) as i128),
        -3_000_000 <= corner_value(edge, i) <= 3_000_000,
{
    let x = point.x.as_integer()?;
    let y = point.y.as_integer()?;
    let ax: i128 = if x == 1 {
        edge.a as i128
    } else {
        0
    };
    let by: i128 = if y == 1 {
        edge.b as i128
    } else {
        0
    };
    Ok(ax + by + edge.c as i128)
}

proof fn lemma_interpolate_unit(sx: int, ex: int, tn: int, td: int)
    requires
        0 <= sx <= 1,
        0 <= ex <= 1,
        0 < td <= 6_000_000,
        -6_000_000 <= tn <= 6_000_000,
    ensures
        interpolate_coordinate((sx, 1), (ex, 1), (tn, td)) == Ok::<Ratio, NumericError>(
            (sx * td + (ex - sx) * tn, td),
        ),
{
    assert(-6_000_000 <= (ex - sx) * tn <= 6_000_000 && 0 <= sx * td <= 6_000_000) by (nonlinear_arith)
        requires
            0 <= sx <= 1,
            0 <= ex <= 1,
            0 < td <= 6_000_000,
            -6_000_000 <= tn <= 6_000_000,
    ;
}

proof fn lemma_corner_value_bounds(edge: HalfPlane, i: int)
    requires
        coefficient_in_range(edge.a as int),
        coefficient_in_range(edge.b as int),
        coefficient_in_range(edge.c as int),
    ensures
        -3_000_000 <= corner_value(edge, i) <= 3_000_000,
        0 <= corner(i).0 <= 1,
        0 <= corner(i).1 <= 1,
{
    let x = corner(i).0;
    let y = corner(i).1;
    assert(0 <= x <= 1 && 0 <= y <= 1);
    assert(-3_000_000 <= edge.a * x + edge.b * y + edge.c <= 3_000_000) by (nonlinear_arith)
        requires
            0 <= x <= 1,
            0 <= y <= 1,
            -1_000_000 <= edge.a <= 1_000_000,
            -1_000_000 <= edge.b <= 1_000_000,
            -1_000_000 <= edge.c <= 1_000_000,
    ;
}

proof fn lemma_crossing(edge: HalfPlane, i: int)
    requires
        0 <= i < 4,
        coefficient_in_range(edge.a as int),
        coefficient_in_range(edge.b as int),
        coefficient_in_range(edge.c as int),
        corner_value(edge, i) != corner_value(edge, (i + 1) % 4),
    ensures
        ({
            let sv = corner_value(edge, i);
            let ev = corner_value(edge, (i + 1) % 4);
            let t = if sv - ev < 0 {
                (-sv, ev - sv)
            } else {
                (sv, sv - ev)
            };
            &&& ratio_new(sv, sv - ev) == Ok::<Ratio, NumericError>(t)
            &&& interpolate_coordinate(corner_point(i).0, corner_point((i + 1) % 4).0, t)
                == Ok::<Ratio, NumericError>(crossing(edge, i).0)
            &&& interpolate_coordinate(corner_point(i).1, corner_point((i + 1) % 4).1, t)
                == Ok::<Ratio, NumericError>(crossing(edge, i).1)
        }),
{
    let j = (i + 1) % 4;
    let sv = corner_value(edge, i);
    let ev = corner_value(edge, j);
    let t = if sv - ev < 0 {
        (-sv, ev - sv)
    } else {
        (sv, sv - ev)
    };
    assert(0 <= j < 4);
    lemma_corner_value_bounds(edge, i);
    lemma_corner_value_bounds(edge, j);
    lemma_interpolate_unit(corner(i).0, corner(j).0, t.0, t.1);
    lemma_interpolate_unit(corner(i).1, corner(j).1, t.0, t.1);
}

/// Exact clipped area of the unit square on the owned side of the line.
#[verifier::loop_isolation(false)]
#[verifier::rlimit(40)]
fn half_plane_rational_area(edge: HalfPlane, owner: BoundaryOwner) -> (r: Result<
    Rational,
    NumericError,
>)
    ensures
        lifted(r) == half_plane_area_ratio(edge, owner),
        r matches Ok(v) ==> v.denominator > 0,
{
    if edge.a < -1_000_000 || edge.a > 1_000_000 || edge.b < -1_000_000 || edge.b > 1_000_000
        || edge.c < -1_000_000 || edge.c > 1_000_000 {
        return Err(NumericError::Overflow);
    }
    let corners: [Point; 4] = [
        Point::integer(0, 0),
        Point::integer(1, 0),
        Point::integer(1, 1),
        Point::integer(0, 1),
    ];
    assert(forall|k: int| 0 <= k < 4 ==> #[trigger] corners@[k].point() == corner_point(k));
    let mut output: Vec<Point> = Vec::new();
    let mut index: usize = 0;
    while index < 4
        invariant
            index <= 4,
            points_of(output@) == clipped_upto(edge, owner, index as nat),
            forall|k: int| 0 <= k < output@.len() ==> (#[trigger] output@[k]).x.denominator > 0
                && output@[k].y.denominator > 0,
        decreases 4 - index,
    {
        let next = (index + 1) % 4;
        let start = corners[index];
        let end = corners[next];
        let start_value = evaluate(edge, start, Ghost(index as int))?;
        let end_value = evaluate(edge, end, Ghost(next as int))?;
        let start_inside = inside(start_value, owner);
        let end_inside = inside(end_value, owner);
        let ghost before = output@;
        if start_inside != end_inside {
            proof {
                lemma_crossing(edge, index as int);
            }
            let denominator = start_value - end_value;
            let t = Rational::new(start_value, denominator)?;
            let point = start.interpolate(end, t)?;
            output.push(point);
        }
        if end_inside {
            output.push(end);
        }
        proof {
            assert(points_of(output@) =~= points_of(before) + side_points(
                edge,
                owner,
                index as int,
            ));
        }
        index = index + 1;
    }
    let count = output.len();
    if count < 3 {
        return Ok(Rational::zero());
    }
    let ghost points = points_of(output@);
    let ghost step = shoelace_step(points);
    let mut double_area = Rational::zero();
    let mut index: usize = 0;
    while index < count
        invariant
            index <= count == output@.len(),
            points == points_of(output@),
            count >= 3,
            fold_checked(index as nat, (0int, 1int), step) == Ok::<Ratio, NumericError>(
                double_area.ratio(),
            ),
        decreases count - index,
    {
        proof {
            lemma_fold_next(index as nat, (0int, 1int), step);
        }
        let a = output[index];
        let b = output[(index + 1) % count];
        let term = match a.x.checked_mul(b.y) {
            Err(e) => {
                proof {
                    lemma_fold_error_persists((index + 1) as nat, count as nat, (0int, 1int), step);
                }
                return Err(e);
            },
            Ok(left) => match a.y.checked_mul(b.x) {
                Err(e) => {
                    proof {
                        lemma_fold_error_persists((index + 1) as nat, count as nat, (0int, 1int), step);
                    }
                    return Err(e);
                },
                Ok(right) => match left.checked_sub(right) {
                    Err(e) => {
                        proof {
                            lemma_fold_error_persists(
                                (index + 1) as nat,
                                count as nat,
                                (0int, 1int),
                                step,
                            );
                        }
                        return Err(e);
                    },
                    Ok(term) => term,
                },
            },
        };
        double_area = match double_area.checked_add(term) {
            Err(e) => {
                proof {
                    lemma_fold_error_persists((index + 1) as nat, count as nat, (0int, 1int), step);
                }
                return Err(e);
            },
            Ok(v) => v,
        };
        index = index + 1;
    }
    double_area.abs()?.checked_div_integer(2)
}

fn coverage_scale(domain: FixedDomain) -> (r: Result<i64, NumericError>)
    requires
        domain.exponent > i16::MIN,
    ensures
        match coverage_scale_spec(domain) {
            Ok(v) => r == Ok::<i64, NumericError>(v as i64),
            Err(e) => r == Err::<i64, NumericError>(e),
        },
        r matches Ok(v) ==> v as int == coverage_scale_spec(domain)->Ok_0,
{
    let negated: i32 = -(domain.exponent as i32);
    if negated < 0 {
        return Err(NumericError::InvalidDomain);
    }
    if negated >= 64 {
        return Err(NumericError::Overflow);
    }
    if negated == 63 {
        return Ok(i64::MIN);
    }
    proof {
        crate::dyadic::lemma_two_pow_monotone(negated as nat, 62);
        crate::dyadic::lemma_two_pow_values();
        crate::dyadic::lemma_two_pow_pos(negated as nat);
    }
    Ok(crate::dyadic::two_pow_i128(negated as u32) as i64)
}

fn rational_coverage(area: Rational, coverage_domain: FixedDomain) -> (r: Result<Iv32, NumericError>)
    requires
        area.denominator > 0,
        coverage_domain.exponent > i16::MIN,
    ensures
        r == rational_coverage_spec(area.ratio(), coverage_domain),
{
    let scale = coverage_scale(coverage_domain)? as i128;
    let scaled = area.checked_mul_integer(scale)?;
    let lo = scaled.floor();
    let hi = scaled.ceil()?;
    if lo < i32::MIN as i128 || lo > i32::MAX as i128 || hi < i32::MIN as i128 || hi
        > i32::MAX as i128 {
        return Err(NumericError::Overflow);
    }
    Iv32::new(lo as i32, hi as i32)
}

pub fn half_plane_area(edge: HalfPlane, coverage_domain: FixedDomain, owner: BoundaryOwner) -> (r:
    Result<Iv32, NumericError>)
    ensures
        r == half_plane_area_spec(edge, coverage_domain, owner),
{
    coverage_domain.validate()?;
    if coverage_domain.exponent > 0 {
        return Err(NumericError::InvalidDomain);
    }
    let area = half_plane_rational_area(edge, owner)?;
    rational_coverage(area, coverage_domain)
}

/// Byte coverage `floor(255 * area + 1/2)` from the exact rational area.
pub open spec fn half_plane_byte_spec(edge: HalfPlane, owner: BoundaryOwner) -> Result<u8, NumericError> {
    match half_plane_area_ratio(edge, owner) {
        Err(e) => Err(e),
        Ok(area) => match ratio_mul_integer(area, 255) {
            Err(e) => Err(e),
            Ok(scaled) => if !(fits128(scaled.0 * 2) && fits128(scaled.0 * 2 + scaled.1)
                && fits128(scaled.1 * 2)) {
                Err(NumericError::Overflow)
            } else {
                let byte = (scaled.0 * 2 + scaled.1) / (scaled.1 * 2);
                if 0 <= byte <= 255 {
                    Ok(byte as u8)
                } else {
                    Err(NumericError::Overflow)
                }
            },
        },
    }
}

/// Exact round-half-up byte coverage for a linear event over the unit pixel,
/// keeping the clipped polygon's rational area until the final conversion.
pub fn half_plane_byte(edge: HalfPlane, owner: BoundaryOwner) -> (r: Result<u8, NumericError>)
    ensures
        r == half_plane_byte_spec(edge, owner),
{
    let area = half_plane_rational_area(edge, owner)?.checked_mul_integer(255)?;
    let doubled = match area.numerator.checked_mul(2) {
        Some(v) => v,
        None => return Err(NumericError::Overflow),
    };
    let doubled_numerator = match doubled.checked_add(area.denominator) {
        Some(v) => v,
        None => return Err(NumericError::Overflow),
    };
    let doubled_denominator = match area.denominator.checked_mul(2) {
        Some(v) => v,
        None => return Err(NumericError::Overflow),
    };
    let byte = floor_div_any(doubled_numerator, doubled_denominator);
    if byte < 0 || byte > 255 {
        return Err(NumericError::Overflow);
    }
    Ok(byte as u8)
}

/// Chord coverage widened by the strip bound and clamped to `[0, scale]`.
pub fn quadratic_strip_area(
    chord: HalfPlane,
    strip_area_raw: u32,
    coverage_domain: FixedDomain,
    owner: BoundaryOwner,
) -> (r: Result<Iv32, NumericError>)
    ensures
        r == (match half_plane_area_spec(chord, coverage_domain, owner) {
            Err(e) => Err(e),
            Ok(line) => match coverage_scale_spec(coverage_domain) {
                Err(e) => Err(e),
                Ok(full_scale) => {
                    let lo = if line.lo - strip_area_raw < 0 {
                        0
                    } else {
                        line.lo - strip_area_raw
                    };
                    let hi = if line.hi + strip_area_raw > full_scale {
                        full_scale
                    } else {
                        line.hi + strip_area_raw
                    };
                    if !(i32::MIN <= lo <= i32::MAX && i32::MIN <= hi <= i32::MAX) {
                        Err(NumericError::Overflow)
                    } else if lo > hi {
                        Err(NumericError::InvalidInterval)
                    } else {
                        Ok(Iv32 { lo: lo as i32, hi: hi as i32 })
                    }
                },
            },
        }),
{
    let line = half_plane_area(chord, coverage_domain, owner)?;
    let strip: i64 = strip_area_raw as i64;
    let full_scale = coverage_scale(coverage_domain)?;
    let low: i64 = line.lo as i64 - strip;
    let lo: i64 = if low < 0 {
        0
    } else {
        low
    };
    let high: i64 = line.hi as i64 + strip;
    let hi: i64 = if high > full_scale {
        full_scale
    } else {
        high
    };
    if lo < i32::MIN as i64 || lo > i32::MAX as i64 || hi < i32::MIN as i64 || hi > i32::MAX as i64 {
        return Err(NumericError::Overflow);
    }
    Iv32::new(lo as i32, hi as i32)
}

/// Color error of a coverage enclosure: `[-w, w] * |contrast|`, made absolute.
pub fn color_error_bound(coverage: Iv32, contrast: Iv32, domain: FixedDomain) -> (r: Result<
    Iv32,
    NumericError,
>)
    ensures
        r == (if coverage.hi < coverage.lo || coverage.hi - coverage.lo > i32::MAX {
            Err(NumericError::Overflow)
        } else {
            let w = coverage.hi - coverage.lo;
            match contrast.spec_abs(domain) {
                Err(e) => Err(e),
                Ok(c) => match (Iv32 { lo: (-w) as i32, hi: w as i32 }).spec_multiply(c, domain) {
                    Err(e) => Err(e),
                    Ok(p) => p.spec_abs(domain),
                },
            }
        }),
{
    let raw = coverage.width_raw()?;
    if raw > i32::MAX as u32 {
        return Err(NumericError::Overflow);
    }
    let width = raw as i32;
    Iv32::new(-width, width)?.multiply(contrast.abs(domain)?, domain)?.abs(domain)
}

/// Rational `(n, d)` lies strictly inside `(0, scale)` after scaling `d`.
pub open spec fn in_unit_scaled_spec(p: Ratio, scale: int) -> Result<bool, NumericError> {
    if fits128(scale * p.1) {
        Ok(p.0 > 0 && p.0 < scale * p.1)
    } else {
        Err(NumericError::Overflow)
    }
}

impl Rational {
    fn in_unit_scaled(self, scale: i128) -> (r: Result<bool, NumericError>)
        ensures
            r == in_unit_scaled_spec(self.ratio(), scale as int),
    {
        let upper = match scale.checked_mul(self.denominator) {
            Some(v) => v,
            None => return Err(NumericError::Overflow),
        };
        Ok(self.numerator > 0 && self.numerator < upper)
    }
}

/// The raw x coordinate of the sole interior derivative zero, rounded
/// outward, when the graph is curved and the zero lies strictly inside.
pub open spec fn monotone_split_spec(graph: QuadraticGraph, domain: FixedDomain) -> Result<
    Option<Iv32>,
    NumericError,
> {
    match coverage_scale_spec(domain) {
        Err(e) => Err(e),
        Ok(scale) => if graph.a == 0 {
            Ok(None)
        } else {
            match ratio_new(-graph.b * scale, 2 * graph.a) {
                Err(e) => Err(e),
                Ok(x) => match in_unit_scaled_spec(x, scale) {
                    Err(e) => Err(e),
                    Ok(false) => Ok(None),
                    Ok(true) => match ratio_ceil(x) {
                        Err(e) => Err(e),
                        Ok(hi) => {
                            let lo = ratio_floor(x);
                            if !(i32::MIN <= lo <= i32::MAX && i32::MIN <= hi <= i32::MAX) {
                                Err(NumericError::Overflow)
                            } else if lo > hi {
                                Err(NumericError::InvalidInterval)
                            } else {
                                Ok(Some(Iv32 { lo: lo as i32, hi: hi as i32 }))
                            }
                        },
                    },
                },
            }
        },
    }
}

pub fn quadratic_monotone_split(graph: QuadraticGraph, coverage_domain: FixedDomain) -> (r: Result<
    Option<Iv32>,
    NumericError,
>)
    requires
        coverage_domain.exponent > i16::MIN,
    ensures
        r == monotone_split_spec(graph, coverage_domain),
{
    let scale = coverage_scale(coverage_domain)? as i128;
    if graph.a == 0 {
        return Ok(None);
    }
    proof {
        let b = graph.b as int;
        let sc = scale as int;
        assert(-0x1_0000_0000_0000_0000_0000_0000 <= -b * sc <= 0x1_0000_0000_0000_0000_0000_0000)
            by (nonlinear_arith)
            requires
                -0x8000_0000 <= b <= 0x8000_0000,
                -0x8000_0000_0000_0000 <= sc <= 0x8000_0000_0000_0000,
        ;
    }
    let numerator: i128 = -(graph.b as i128) * scale;
    let denominator: i128 = 2 * graph.a as i128;
    let rational = Rational::new(numerator, denominator)?;
    if !rational.in_unit_scaled(scale)? {
        return Ok(None);
    }
    let lo = rational.floor();
    let hi = rational.ceil()?;
    if lo < i32::MIN as i128 || lo > i32::MAX as i128 || hi < i32::MIN as i128 || hi
        > i32::MAX as i128 {
        return Err(NumericError::Overflow);
    }
    Ok(Some(Iv32::new(lo as i32, hi as i32)?))
}

/// Pieces the unit x range is cut into for clipping.
pub const PIECES: i128 = 256;

/// `65536 * y(x / 256)`: the graph at piece boundary `x`, over denominator `256²`.
pub open spec fn endpoint_numerator(graph: QuadraticGraph, x: int) -> int {
    graph.c * 65536 + graph.b * x * 256 + graph.a * x * x
}

pub open spec fn min_int(a: int, b: int) -> int {
    if a <= b {
        a
    } else {
        b
    }
}

pub open spec fn max_int(a: int, b: int) -> int {
    if a >= b {
        a
    } else {
        b
    }
}

pub open spec fn clamp(v: int, lo: int, hi: int) -> int {
    if v < lo {
        lo
    } else if v > hi {
        hi
    } else {
        v
    }
}

/// The stationary point `-b / 2a` with a positive denominator.
pub open spec fn stationary_x(graph: QuadraticGraph) -> (int, int) {
    if 2 * graph.a < 0 {
        (graph.b as int, -2 * graph.a)
    } else {
        (-graph.b, 2 * graph.a)
    }
}

/// The graph's extreme value `(4ac - b²) / 4a`.
pub open spec fn stationary_value(graph: QuadraticGraph) -> Ratio {
    if 4 * graph.a < 0 {
        (-(4 * graph.a * graph.c - graph.b * graph.b), -4 * graph.a)
    } else {
        (4 * graph.a * graph.c - graph.b * graph.b, 4 * graph.a)
    }
}

/// Piece `p` owns the stationary point: half-open on the side `owner` names.
pub open spec fn owns_stationary(graph: QuadraticGraph, owner: BoundaryOwner, p: int) -> bool {
    let (sn, sd) = stationary_x(graph);
    let scaled = sn * 256;
    let lower = p * sd;
    let upper = (p + 1) * sd;
    graph.a != 0 && match owner {
        BoundaryOwner::LowerOrLeft => lower <= scaled && scaled < upper,
        BoundaryOwner::UpperOrRight => lower < scaled && scaled <= upper,
    }
}

/// Vertical enclosure of the graph over piece `p`, before clipping.
pub open spec fn piece_bounds(graph: QuadraticGraph, owner: BoundaryOwner, p: int) -> (int, int) {
    let left = endpoint_numerator(graph, p);
    let right = endpoint_numerator(graph, p + 1);
    let lo = min_int(left / 65536, right / 65536);
    let hi = max_int(-((-left) / 65536), -((-right) / 65536));
    if owns_stationary(graph, owner, p) {
        let v = stationary_value(graph);
        (min_int(lo, v.0 / v.1), max_int(hi, -((-v.0) / v.1)))
    } else {
        (lo, hi)
    }
}

/// Sums of the clipped piece bounds over the first `n` pieces.
pub open spec fn piece_sums(graph: QuadraticGraph, owner: BoundaryOwner, scale: int, n: nat) -> (
    int,
    int,
)
    decreases n,
{
    if n == 0 {
        (0, 0)
    } else {
        let previous = piece_sums(graph, owner, scale, (n - 1) as nat);
        let bounds = piece_bounds(graph, owner, n - 1);
        (previous.0 + clamp(bounds.0, 0, scale), previous.1 + clamp(bounds.1, 0, scale))
    }
}

/// Strip-widened, clamped area interval from raw `[lo, hi]`.
pub open spec fn finish_area(lo: int, hi: int, strip: int, scale: int) -> Result<Iv32, NumericError> {
    let lo = max_int(lo - strip, 0);
    let hi = min_int(hi + strip, scale);
    if !(i32::MIN <= lo <= i32::MAX && i32::MIN <= hi <= i32::MAX) {
        Err(NumericError::Overflow)
    } else if lo > hi {
        Err(NumericError::InvalidInterval)
    } else {
        Ok(Iv32 { lo: lo as i32, hi: hi as i32 })
    }
}

/// Area under (or above) a crossing graph: each of the 256 pieces is
/// enclosed by its endpoint values and, on the piece that owns it, the
/// stationary value; enclosures are clipped to the pixel and summed.
pub open spec fn clipped_area_spec(
    graph: QuadraticGraph,
    strip_area_raw: int,
    scale: int,
    foreground_below: bool,
    owner: BoundaryOwner,
) -> Result<Iv32, NumericError> {
    if !(coefficient_in_range(graph.c as int) && coefficient_in_range(graph.b as int)
        && coefficient_in_range(graph.a as int)) {
        if !(i32::MIN <= scale <= i32::MAX) {
            Err(NumericError::Overflow)
        } else if 0 > scale {
            Err(NumericError::InvalidInterval)
        } else {
            Ok(Iv32 { lo: 0, hi: scale as i32 })
        }
    } else {
        let sums = piece_sums(graph, owner, scale, 256);
        let lo = sums.0 / 256;
        let hi = -((-sums.1) / 256);
        if foreground_below {
            finish_area(lo, hi, strip_area_raw, scale)
        } else {
            finish_area(scale - hi, scale - lo, strip_area_raw, scale)
        }
    }
}

proof fn lemma_endpoint_bounds(graph: QuadraticGraph, x: int)
    requires
        coefficient_in_range(graph.c as int),
        coefficient_in_range(graph.b as int),
        coefficient_in_range(graph.a as int),
        0 <= x <= 256,
    ensures
        -0x1_0000_0000_0000 <= endpoint_numerator(graph, x) <= 0x1_0000_0000_0000,
        -0x1_0000_0000_0000 <= graph.b * x * 256 <= 0x1_0000_0000_0000,
        -0x1_0000_0000_0000 <= graph.a * x * x <= 0x1_0000_0000_0000,
        -0x1_0000_0000_0000 <= graph.b * x <= 0x1_0000_0000_0000,
        -0x1_0000_0000_0000 <= graph.a * x <= 0x1_0000_0000_0000,
{
    let (a, b, c) = (graph.a as int, graph.b as int, graph.c as int);
    assert(-0x1_0000_0000_0000 <= b * x * 256 <= 0x1_0000_0000_0000 && -0x1_0000_0000_0000 <= a
        * x * x <= 0x1_0000_0000_0000 && -0x1_0000_0000_0000 <= b * x <= 0x1_0000_0000_0000
        && -0x1_0000_0000_0000 <= a * x <= 0x1_0000_0000_0000 && -0x1_0000_0000_0000 <= c * 65536
        + b * x * 256 + a * x * x <= 0x1_0000_0000_0000) by (nonlinear_arith)
        requires
            -1_000_000 <= a <= 1_000_000,
            -1_000_000 <= b <= 1_000_000,
            -1_000_000 <= c <= 1_000_000,
            0 <= x <= 256,
    ;
}

fn endpoint_value(graph: QuadraticGraph, x: i128) -> (r: i128)
    requires
        coefficient_in_range(graph.c as int),
        coefficient_in_range(graph.b as int),
        coefficient_in_range(graph.a as int),
        0 <= x <= 256,
    ensures
        r == endpoint_numerator(graph, x as int),
        -0x1_0000_0000_0000 <= r <= 0x1_0000_0000_0000,
{
    proof {
        lemma_endpoint_bounds(graph, x as int);
    }
    graph.c as i128 * 65536 + graph.b as i128 * x * 256 + graph.a as i128 * x * x
}

fn ceil_small(v: i128, d: i128) -> (r: i128)
    requires
        d > 0,
        -0x1_0000_0000_0000_0000_0000_0000 <= v <= 0x1_0000_0000_0000_0000_0000_0000,
    ensures
        r == -((-(v as int)) / (d as int)),
        -0x1_0000_0000_0000_0000_0000_0000 <= r <= 0x1_0000_0000_0000_0000_0000_0000,
{
    let q = floor_div_any(-v, d);
    -q
}

/// Clips a crossing graph analytically over 256 fixed dyadic x pieces.
/// Coefficients beyond `±10^6` keep the conservative full interval.
#[verifier::loop_isolation(false)]
#[verifier::rlimit(60)]
fn clipped_quadratic_graph_area(
    graph: QuadraticGraph,
    strip_area_raw: u32,
    scale: i64,
    foreground_below: bool,
    owner: BoundaryOwner,
) -> (r: Result<Iv32, NumericError>)
    requires
        scale >= 0 || !(coefficient_in_range(graph.c as int) && coefficient_in_range(graph.b as int)
            && coefficient_in_range(graph.a as int)),
    ensures
        r == clipped_area_spec(graph, strip_area_raw as int, scale as int, foreground_below, owner),
{
    if graph.c < -1_000_000 || graph.c > 1_000_000 || graph.b < -1_000_000 || graph.b > 1_000_000
        || graph.a < -1_000_000 || graph.a > 1_000_000 {
        if scale > i32::MAX as i64 || scale < i32::MIN as i64 {
            return Err(NumericError::Overflow);
        }
        return Iv32::new(0, scale as i32);
    }
    let denominator: i128 = PIECES * PIECES;
    let raw_numerator: i128 = -(graph.b as i128);
    let raw_denominator: i128 = 2 * graph.a as i128;
    let (stationary_numerator, stationary_denominator) = if raw_denominator < 0 {
        (-raw_numerator, -raw_denominator)
    } else {
        (raw_numerator, raw_denominator)
    };
    proof {
        let (a, b, c) = (graph.a as int, graph.b as int, graph.c as int);
        assert(-0x10_0000_0000_0000 <= 4 * a * c - b * b <= 0x10_0000_0000_0000
            && -0x10_0000_0000_0000 <= 4 * a * c <= 0x10_0000_0000_0000 && 0 <= b * b
            <= 0x10_0000_0000_0000 && -0x10_0000_0000_0000 <= 4 * a <= 0x10_0000_0000_0000)
            by (nonlinear_arith)
            requires
                -1_000_000 <= a <= 1_000_000,
                -1_000_000 <= b <= 1_000_000,
                -1_000_000 <= c <= 1_000_000,
        ;
    }
    let stationary = if graph.a == 0 {
        None
    } else {
        let value_numerator: i128 = 4 * graph.a as i128 * graph.c as i128 - graph.b as i128
            * graph.b as i128;
        Some(Rational::new(value_numerator, 4 * graph.a as i128)?)
    };
    proof {
        if graph.a != 0 {
            assert(stationary.unwrap().ratio() == stationary_value(graph));
        }
    }
    let mut lower_sum: i128 = 0;
    let mut upper_sum: i128 = 0;
    let mut piece: i128 = 0;
    while piece < PIECES
        invariant
            0 <= piece <= 256,
            scale >= 0,
            (lower_sum as int, upper_sum as int) == piece_sums(
                graph,
                owner,
                scale as int,
                piece as nat,
            ),
            0 <= lower_sum <= piece * scale,
            0 <= upper_sum <= piece * scale,
            graph.a != 0 ==> (stationary matches Some(v) && v.ratio() == stationary_value(graph)
                && v.denominator > 0),
            graph.a == 0 ==> stationary is None,
            (stationary_numerator as int, stationary_denominator as int) == stationary_x(graph),
            -2_000_000 <= stationary_numerator <= 2_000_000,
            0 <= stationary_denominator <= 2_000_000,
        decreases 256 - piece,
    {
        let left_value = endpoint_value(graph, piece);
        let right_value = endpoint_value(graph, piece + 1);
        let left = Rational::new(left_value, denominator)?;
        let right = Rational::new(right_value, denominator)?;
        let left_floor = left.floor();
        let right_floor = right.floor();
        let mut lo: i128 = if left_floor <= right_floor {
            left_floor
        } else {
            right_floor
        };
        let left_ceil = ceil_small(left_value, denominator);
        let right_ceil = ceil_small(right_value, denominator);
        let mut hi: i128 = if left_ceil >= right_ceil {
            left_ceil
        } else {
            right_ceil
        };
        match stationary {
            Some(value) => {
                let scaled_stationary: i128 = stationary_numerator * PIECES;
                proof {
                    assert(0 <= piece * stationary_denominator <= 256 * 2_000_000 && 0 <= (piece + 1)
                        * stationary_denominator <= 257 * 2_000_000) by (nonlinear_arith)
                        requires
                            0 <= piece <= 256,
                            0 <= stationary_denominator <= 2_000_000,
                    ;
                }
                let lower: i128 = piece * stationary_denominator;
                let upper: i128 = (piece + 1) * stationary_denominator;
                let assigned = match owner {
                    BoundaryOwner::LowerOrLeft => lower <= scaled_stationary && scaled_stationary
                        < upper,
                    BoundaryOwner::UpperOrRight => lower < scaled_stationary && scaled_stationary
                        <= upper,
                };
                if assigned {
                    let value_floor = value.floor();
                    if value_floor < lo {
                        lo = value_floor;
                    }
                    let value_ceil = value.ceil()?;
                    if value_ceil > hi {
                        hi = value_ceil;
                    }
                }
            },
            None => {},
        }
        let clamped_lo: i128 = if lo < 0 {
            0
        } else if lo > scale as i128 {
            scale as i128
        } else {
            lo
        };
        let clamped_hi: i128 = if hi < 0 {
            0
        } else if hi > scale as i128 {
            scale as i128
        } else {
            hi
        };
        proof {
            assert((piece + 1) * scale == piece * scale + scale) by (nonlinear_arith);
            assert((piece + 1) * scale <= 256 * 0x8000_0000_0000_0000) by (nonlinear_arith)
                requires
                    0 <= piece < 256,
                    0 <= scale <= 0x8000_0000_0000_0000,
            ;
        }
        lower_sum = lower_sum + clamped_lo;
        upper_sum = upper_sum + clamped_hi;
        piece = piece + 1;
    }
    assert(piece * scale == 256 * scale) by (nonlinear_arith)
        requires
            piece == 256,
    ;
    let lo_total: i128 = floor_div_any(lower_sum, 256);
    let hi_total: i128 = ceil_small(upper_sum, 256);
    let (lo, hi) = if foreground_below {
        (lo_total, hi_total)
    } else {
        (scale as i128 - hi_total, scale as i128 - lo_total)
    };
    let strip: i128 = strip_area_raw as i128;
    let widened_lo: i128 = if lo - strip < 0 {
        0
    } else {
        lo - strip
    };
    let widened_hi: i128 = if hi + strip > scale as i128 {
        scale as i128
    } else {
        hi + strip
    };
    if widened_lo < i32::MIN as i128 || widened_lo > i32::MAX as i128 || widened_hi
        < i32::MIN as i128 || widened_hi > i32::MAX as i128 {
        return Err(NumericError::Overflow);
    }
    Iv32::new(widened_lo as i32, widened_hi as i32)
}

/// The graph as a quadratic in `u` alone.
pub open spec fn graph_quadratic(graph: QuadraticGraph) -> Quadratic2 {
    Quadratic2 { c: graph.c, bu: graph.b, bv: 0, buu: graph.a, buv: 0, bvv: 0 }
}

/// Exact integral `c + b/2 + a/3` of the graph over the unit interval.
pub open spec fn graph_integral(graph: QuadraticGraph) -> Ratio {
    ((2 * graph.c + graph.b) * 3 + graph.a * 2, 6)
}

pub open spec fn quadratic_graph_area_spec(
    graph: QuadraticGraph,
    strip_area_raw: int,
    domain: FixedDomain,
    foreground_below: bool,
    owner: BoundaryOwner,
) -> Result<Iv32, NumericError> {
    match coverage_scale_spec(domain) {
        Err(e) => Err(e),
        Ok(scale) => match exact_quadratic_range_spec(graph_quadratic(graph), domain) {
            Err(e) => Err(e),
            Ok(range) => if range.lo < 0 || range.hi > scale {
                clipped_area_spec(graph, strip_area_raw, scale, foreground_below, owner)
            } else {
                let integral = graph_integral(graph);
                let floor = integral.0 / 6;
                let ceil = -((-integral.0) / 6);
                if foreground_below {
                    finish_area(floor, ceil, strip_area_raw, scale)
                } else {
                    finish_area(scale - ceil, scale - floor, strip_area_raw, scale)
                }
            },
        },
    }
}

/// `c + b/2 + a/3` as an unreduced rational over `6`, the sum of `c/1`,
/// `b/2` and `a/3` over their product denominator.
fn graph_integral_exec(graph: QuadraticGraph) -> (r: Rational)
    ensures
        r.ratio() == graph_integral(graph),
        r.denominator == 6,
{
    let numerator: i128 = (2 * graph.c as i128 + graph.b as i128) * 3 + graph.a as i128 * 2;
    Rational { numerator, denominator: 6 }
}

/// Analytic box-filter area of a quadratic graph that stays inside the unit
/// pixel vertically; a crossing graph is clipped piece by piece instead.
pub fn quadratic_graph_area(
    graph: QuadraticGraph,
    strip_area_raw: u32,
    coverage_domain: FixedDomain,
    foreground_below: bool,
    owner: BoundaryOwner,
) -> (r: Result<Iv32, NumericError>)
    requires
        coverage_domain.exponent > i16::MIN,
        coverage_domain.exponent == -63 ==> !(coefficient_in_range(graph.c as int)
            && coefficient_in_range(graph.b as int) && coefficient_in_range(graph.a as int)),
    ensures
        r == quadratic_graph_area_spec(
            graph,
            strip_area_raw as int,
            coverage_domain,
            foreground_below,
            owner,
        ),
{
    let scale = coverage_scale(coverage_domain)?;
    let range = exact_quadratic_range(
        Quadratic2 { c: graph.c, bu: graph.b, bv: 0, buu: graph.a, buv: 0, bvv: 0 },
        coverage_domain,
    )?;
    if range.lo < 0 || range.hi as i64 > scale {
        return clipped_quadratic_graph_area(graph, strip_area_raw, scale, foreground_below, owner);
    }
    let integral = graph_integral_exec(graph);
    let (lo, hi) = if foreground_below {
        let floor = integral.floor();
        let ceil = integral.ceil()?;
        (floor, ceil)
    } else {
        let ceil = integral.ceil()?;
        let floor = integral.floor();
        (scale as i128 - ceil, scale as i128 - floor)
    };
    let strip: i128 = strip_area_raw as i128;
    let widened_lo: i128 = if lo - strip < 0 {
        0
    } else {
        lo - strip
    };
    let widened_hi: i128 = if hi + strip > scale as i128 {
        scale as i128
    } else {
        hi + strip
    };
    if widened_lo < i32::MIN as i128 || widened_lo > i32::MAX as i128 || widened_hi
        < i32::MIN as i128 || widened_hi > i32::MAX as i128 {
        return Err(NumericError::Overflow);
    }
    Iv32::new(widened_lo as i32, widened_hi as i32)
}

/// The exact boundary has one owner: a signed distance is inside the
/// lower-or-left half plane exactly when its negation is outside the
/// upper-or-right half plane of the complementary line, and the boundary
/// itself belongs to the lower-or-left side.
pub proof fn boundary_has_one_owner(value: int)
    ensures
        inside_spec(value, BoundaryOwner::LowerOrLeft) != inside_spec(
            -value,
            BoundaryOwner::UpperOrRight,
        ),
        inside_spec(0, BoundaryOwner::LowerOrLeft),
        !inside_spec(0, BoundaryOwner::UpperOrRight),
{
}

} // verus!
