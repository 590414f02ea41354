//! Interval normal reconstruction from inverse-depth sheets.
use vstd::prelude::*;
use crate::dyadic::{floor_div, ceil_div, floor_div_i128};
use crate::iv32::{FixedDomain, Iv32, NumericError, then, min_int, max_int, abs_int, min4, max4, lemma_i32_product_bounds};
use crate::iv32::{encloses_ratio, interval_arithmetic_encloses_ratios, scaled_ratio_product, square_encloses};

verus! {

#[derive(Clone, Copy, Debug, PartialEq, Eq, Structural)]
pub struct Iv3 {
    pub x: Iv32,
    pub y: Iv32,
    pub z: Iv32,
}

/// Unnormalized direction enclosure. Normalization may only consume this
/// record when `norm_squared.lo > 0`.
#[derive(Clone, Copy, Debug, PartialEq, Eq, Structural)]
pub struct NormalCone {
    pub direction: Iv3,
    pub norm_squared: Iv32,
}

/// `a + b` where both operands are themselves results, left first.
pub open spec fn add_results(
    a: Result<Iv32, NumericError>,
    b: Result<Iv32, NumericError>,
    domain: FixedDomain,
) -> Result<Iv32, NumericError> {
    match a {
        Err(e) => Err(e),
        Ok(x) => match b {
            Err(e) => Err(e),
            Ok(y) => x.spec_add(y, domain),
        },
    }
}

/// Direction `(q_u, q_v, q - u q_u - v q_v)` of the inverse-depth sheet.
pub open spec fn reconstruct_spec(
    u: Iv32,
    v: Iv32,
    q: Iv32,
    q_u: Iv32,
    q_v: Iv32,
    domain: FixedDomain,
) -> Result<Iv3, NumericError> {
    match u.spec_multiply(q_u, domain) {
        Err(e) => Err(e),
        Ok(uq) => match q.spec_subtract(uq, domain) {
            Err(e) => Err(e),
            Ok(partial) => match v.spec_multiply(q_v, domain) {
                Err(e) => Err(e),
                Ok(vq) => match partial.spec_subtract(vq, domain) {
                    Err(e) => Err(e),
                    Ok(z) => Ok(Iv3 { x: q_u, y: q_v, z }),
                },
            },
        },
    }
}

/// Exact `q - u q_u - v q_v` for rational values (numerator, positive
/// denominator), each product taken at the domain scale `2^shift`.
pub open spec fn exact_sheet_offset(
    u: (int, int),
    v: (int, int),
    q: (int, int),
    q_u: (int, int),
    q_v: (int, int),
    shift: int,
) -> (int, int) {
    let uq = scaled_ratio_product(u.0, u.1, q_u.0, q_u.1, shift);
    let partial = (q.0 * uq.1 - uq.0 * q.1, q.1 * uq.1);
    let vq = scaled_ratio_product(v.0, v.1, q_v.0, q_v.1, shift);
    (partial.0 * vq.1 - vq.0 * partial.1, partial.1 * vq.1)
}

/// The reconstructed direction encloses the sheet's normal direction: its
/// x and y parts are the slopes `q_u` and `q_v` themselves, and its z part
/// holds `q - u q_u - v q_v` for every choice of values inside the five
/// input intervals.
pub proof fn reconstruction_encloses_direction(
    u: Iv32,
    v: Iv32,
    q: Iv32,
    q_u: Iv32,
    q_v: Iv32,
    domain: FixedDomain,
    uv: (int, int),
    vv: (int, int),
    qv: (int, int),
    quv: (int, int),
    qvv: (int, int),
)
    requires
        uv.1 > 0 && encloses_ratio(u, uv.0, uv.1),
        vv.1 > 0 && encloses_ratio(v, vv.0, vv.1),
        qv.1 > 0 && encloses_ratio(q, qv.0, qv.1),
        quv.1 > 0 && encloses_ratio(q_u, quv.0, quv.1),
        qvv.1 > 0 && encloses_ratio(q_v, qvv.0, qvv.1),
    ensures
        exact_sheet_offset(uv, vv, qv, quv, qvv, domain.exponent as int).1 > 0,
        reconstruct_spec(u, v, q, q_u, q_v, domain) matches Ok(d) ==> {
            &&& d.x == q_u
            &&& d.y == q_v
            &&& encloses_ratio(
                d.z,
                exact_sheet_offset(uv, vv, qv, quv, qvv, domain.exponent as int).0,
                exact_sheet_offset(uv, vv, qv, quv, qvv, domain.exponent as int).1,
            )
        },
{
    let e = domain.exponent as int;
    let uq = scaled_ratio_product(uv.0, uv.1, quv.0, quv.1, e);
    let vq = scaled_ratio_product(vv.0, vv.1, qvv.0, qvv.1, e);
    interval_arithmetic_encloses_ratios(u, q_u, domain, uv.0, uv.1, quv.0, quv.1);
    interval_arithmetic_encloses_ratios(v, q_v, domain, vv.0, vv.1, qvv.0, qvv.1);
    let partial = (qv.0 * uq.1 - uq.0 * qv.1, qv.1 * uq.1);
    assert(partial.1 > 0) by (nonlinear_arith)
        requires
            qv.1 > 0,
            uq.1 > 0,
            partial.1 == qv.1 * uq.1,
    ;
    assert(partial.1 * vq.1 > 0) by (nonlinear_arith)
        requires
            partial.1 > 0,
            vq.1 > 0,
    ;
    match u.spec_multiply(q_u, domain) {
        Ok(uqi) => {
            interval_arithmetic_encloses_ratios(q, uqi, domain, qv.0, qv.1, uq.0, uq.1);
            match q.spec_subtract(uqi, domain) {
                Ok(p) => match v.spec_multiply(q_v, domain) {
                    Ok(vqi) => {
                        interval_arithmetic_encloses_ratios(p, vqi, domain, partial.0, partial.1, vq.0, vq.1);
                    },
                    Err(_) => {},
                },
                Err(_) => {},
            }
        },
        Err(_) => {},
    }
}

pub open spec fn norm_squared_spec(vector: Iv3, domain: FixedDomain) -> Result<Iv32, NumericError> {
    add_results(
        add_results(vector.x.spec_square(domain), vector.y.spec_square(domain), domain),
        vector.z.spec_square(domain),
        domain,
    )
}

pub open spec fn dot_spec(a: Iv3, b: Iv3, domain: FixedDomain) -> Result<Iv32, NumericError> {
    add_results(
        add_results(a.x.spec_multiply(b.x, domain), a.y.spec_multiply(b.y, domain), domain),
        a.z.spec_multiply(b.z, domain),
        domain,
    )
}

/// Exact sum of three rationals.
pub open spec fn ratio_sum3(a: (int, int), b: (int, int), c: (int, int)) -> (int, int) {
    let ab = (a.0 * b.1 + b.0 * a.1, a.1 * b.1);
    (ab.0 * c.1 + c.0 * ab.1, ab.1 * c.1)
}

proof fn lemma_sum3_encloses(
    p: Result<Iv32, NumericError>,
    q: Result<Iv32, NumericError>,
    r: Result<Iv32, NumericError>,
    domain: FixedDomain,
    a: (int, int),
    b: (int, int),
    c: (int, int),
)
    requires
        a.1 > 0,
        b.1 > 0,
        c.1 > 0,
        p matches Ok(x) ==> encloses_ratio(x, a.0, a.1),
        q matches Ok(x) ==> encloses_ratio(x, b.0, b.1),
        r matches Ok(x) ==> encloses_ratio(x, c.0, c.1),
    ensures
        ratio_sum3(a, b, c).1 > 0,
        add_results(add_results(p, q, domain), r, domain) matches Ok(t) ==> encloses_ratio(
            t,
            ratio_sum3(a, b, c).0,
            ratio_sum3(a, b, c).1,
        ),
{
    let ab = (a.0 * b.1 + b.0 * a.1, a.1 * b.1);
    assert(ab.1 > 0) by (nonlinear_arith)
        requires
            a.1 > 0,
            b.1 > 0,
            ab.1 == a.1 * b.1,
    ;
    assert(ab.1 * c.1 > 0) by (nonlinear_arith)
        requires
            ab.1 > 0,
            c.1 > 0,
    ;
    match (p, q) {
        (Ok(x), Ok(y)) => {
            interval_arithmetic_encloses_ratios(x, y, domain, a.0, a.1, b.0, b.1);
            match (x.spec_add(y, domain), r) {
                (Ok(xy), Ok(z)) => {
                    interval_arithmetic_encloses_ratios(xy, z, domain, ab.0, ab.1, c.0, c.1);
                },
                _ => {},
            }
        },
        _ => {},
    }
}

/// The dot product encloses the exact one: for rational components held by
/// the two vectors, a returned dot product holds `ax bx + ay by + az bz`,
/// each product scaled by the domain's power of two.
pub proof fn dot_encloses(
    a: Iv3,
    b: Iv3,
    domain: FixedDomain,
    av: ((int, int), (int, int), (int, int)),
    bv: ((int, int), (int, int), (int, int)),
)
    requires
        av.0.1 > 0 && encloses_ratio(a.x, av.0.0, av.0.1),
        av.1.1 > 0 && encloses_ratio(a.y, av.1.0, av.1.1),
        av.2.1 > 0 && encloses_ratio(a.z, av.2.0, av.2.1),
        bv.0.1 > 0 && encloses_ratio(b.x, bv.0.0, bv.0.1),
        bv.1.1 > 0 && encloses_ratio(b.y, bv.1.0, bv.1.1),
        bv.2.1 > 0 && encloses_ratio(b.z, bv.2.0, bv.2.1),
    ensures
        ({
            let e = domain.exponent as int;
            let t = ratio_sum3(
                scaled_ratio_product(av.0.0, av.0.1, bv.0.0, bv.0.1, e),
                scaled_ratio_product(av.1.0, av.1.1, bv.1.0, bv.1.1, e),
                scaled_ratio_product(av.2.0, av.2.1, bv.2.0, bv.2.1, e),
            );
            &&& t.1 > 0
            &&& dot_spec(a, b, domain) matches Ok(d) ==> encloses_ratio(d, t.0, t.1)
        }),
{
    let e = domain.exponent as int;
    interval_arithmetic_encloses_ratios(a.x, b.x, domain, av.0.0, av.0.1, bv.0.0, bv.0.1);
    interval_arithmetic_encloses_ratios(a.y, b.y, domain, av.1.0, av.1.1, bv.1.0, bv.1.1);
    interval_arithmetic_encloses_ratios(a.z, b.z, domain, av.2.0, av.2.1, bv.2.0, bv.2.1);
    lemma_sum3_encloses(
        a.x.spec_multiply(b.x, domain),
        a.y.spec_multiply(b.y, domain),
        a.z.spec_multiply(b.z, domain),
        domain,
        scaled_ratio_product(av.0.0, av.0.1, bv.0.0, bv.0.1, e),
        scaled_ratio_product(av.1.0, av.1.1, bv.1.0, bv.1.1, e),
        scaled_ratio_product(av.2.0, av.2.1, bv.2.0, bv.2.1, e),
    );
}

/// The squared norm encloses the exact one: for rational components held by
/// the vector, a returned squared norm holds `x^2 + y^2 + z^2`, each square
/// scaled by the domain's power of two.
pub proof fn norm_squared_encloses(
    a: Iv3,
    domain: FixedDomain,
    av: ((int, int), (int, int), (int, int)),
)
    requires
        av.0.1 > 0 && encloses_ratio(a.x, av.0.0, av.0.1),
        av.1.1 > 0 && encloses_ratio(a.y, av.1.0, av.1.1),
        av.2.1 > 0 && encloses_ratio(a.z, av.2.0, av.2.1),
    ensures
        ({
            let e = domain.exponent as int;
            let t = ratio_sum3(
                scaled_ratio_product(av.0.0, av.0.1, av.0.0, av.0.1, e),
                scaled_ratio_product(av.1.0, av.1.1, av.1.0, av.1.1, e),
                scaled_ratio_product(av.2.0, av.2.1, av.2.0, av.2.1, e),
            );
            &&& t.1 > 0
            &&& norm_squared_spec(a, domain) matches Ok(n) ==> encloses_ratio(n, t.0, t.1)
        }),
{
    let e = domain.exponent as int;
    square_encloses(a.x, domain, av.0.0, av.0.1);
    square_encloses(a.y, domain, av.1.0, av.1.1);
    square_encloses(a.z, domain, av.2.0, av.2.1);
    lemma_sum3_encloses(
        a.x.spec_square(domain),
        a.y.spec_square(domain),
        a.z.spec_square(domain),
        domain,
        scaled_ratio_product(av.0.0, av.0.1, av.0.0, av.0.1, e),
        scaled_ratio_product(av.1.0, av.1.1, av.1.0, av.1.1, e),
        scaled_ratio_product(av.2.0, av.2.1, av.2.0, av.2.1, e),
    );
}

pub fn reconstruct(u: Iv32, v: Iv32, q: Iv32, q_u: Iv32, q_v: Iv32, domain: FixedDomain) -> (r:
    Result<Iv3, NumericError>)
    ensures
        r == reconstruct_spec(u, v, q, q_u, q_v, domain),
{
    let z = q.subtract(u.multiply(q_u, domain)?, domain)?.subtract(v.multiply(q_v, domain)?, domain)?;
    Ok(Iv3 { x: q_u, y: q_v, z })
}

pub fn norm_squared(vector: Iv3, domain: FixedDomain) -> (r: Result<Iv32, NumericError>)
    ensures
        r == norm_squared_spec(vector, domain),
{
    vector.x.square(domain)?.add(vector.y.square(domain)?, domain)?.add(vector.z.square(domain)?, domain)
}

pub fn normalization_is_safe(vector: Iv3, domain: FixedDomain) -> (r: Result<bool, NumericError>)
    ensures
        r == (match norm_squared_spec(vector, domain) {
            Ok(n) => Ok(n.lo > 0),
            Err(e) => Err(e),
        }),
{
    Ok(norm_squared(vector, domain)?.strict_positive())
}

/// The reconstructed direction with its squared norm, or `None` when the norm
/// enclosure reaches zero.
pub fn normal_cone(u: Iv32, v: Iv32, q: Iv32, q_u: Iv32, q_v: Iv32, domain: FixedDomain) -> (r:
    Result<Option<NormalCone>, NumericError>)
    ensures
        r == (match reconstruct_spec(u, v, q, q_u, q_v, domain) {
            Err(e) => Err(e),
            Ok(direction) => match norm_squared_spec(direction, domain) {
                Err(e) => Err(e),
                Ok(n) => Ok(
                    if n.lo > 0 {
                        Some(NormalCone { direction, norm_squared: n })
                    } else {
                        None
                    },
                ),
            },
        }),
{
    let direction = reconstruct(u, v, q, q_u, q_v, domain)?;
    let norm_squared = norm_squared(direction, domain)?;
    if norm_squared.strict_positive() {
        Ok(Some(NormalCone { direction, norm_squared }))
    } else {
        Ok(None)
    }
}

pub fn cone_dot(normal: NormalCone, other_direction: Iv3, domain: FixedDomain) -> (r: Result<
    Iv32,
    NumericError,
>)
    ensures
        r == (if normal.norm_squared.lo <= 0 {
            Err(NumericError::InvalidDomain)
        } else {
            normalized_dot_spec(normal.direction, other_direction, domain)
        }),
{
    if !normal.norm_squared.strict_positive() {
        return Err(NumericError::InvalidDomain);
    }
    normalized_dot_q8(normal.direction, other_direction, domain)
}

pub fn dot(a: Iv3, b: Iv3, domain: FixedDomain) -> (r: Result<Iv32, NumericError>)
    ensures
        r == dot_spec(a, b, domain),
{
    a.x.multiply(b.x, domain)?.add(a.y.multiply(b.y, domain)?, domain)?.add(
        a.z.multiply(b.z, domain)?,
        domain,
    )
}

pub open spec fn fits_i64(v: int) -> bool {
    i64::MIN <= v <= i64::MAX
}

/// Component check: ordered ends inside the domain's raw range.
pub open spec fn component_check(c: Iv32, domain: FixedDomain) -> Result<(), NumericError> {
    if c.lo > c.hi {
        Err(NumericError::InvalidInterval)
    } else if c.lo < domain.min_raw || c.hi > domain.max_raw {
        Err(NumericError::DomainMismatch)
    } else {
        Ok(())
    }
}

pub open spec fn vector_check(v: Iv3, domain: FixedDomain) -> Result<(), NumericError> {
    then(
        domain.check(),
        then(
            component_check(v.x, domain),
            then(component_check(v.y, domain), component_check(v.z, domain)),
        ),
    )
}

/// Sum of three raw `(lo, hi)` pairs, refused when a partial sum leaves `i64`.
pub open spec fn raw_sum3(p: (int, int), q: (int, int), s: (int, int)) -> Result<
    (int, int),
    NumericError,
> {
    if !(fits_i64(p.0 + q.0) && fits_i64(p.1 + q.1)) {
        Err(NumericError::Overflow)
    } else if !(fits_i64(p.0 + q.0 + s.0) && fits_i64(p.1 + q.1 + s.1)) {
        Err(NumericError::Overflow)
    } else {
        Ok((p.0 + q.0 + s.0, p.1 + q.1 + s.1))
    }
}

pub open spec fn raw_dot_spec(a: Iv3, b: Iv3) -> Result<(int, int), NumericError> {
    raw_sum3(
        (a.x.product_lo(b.x), a.x.product_hi(b.x)),
        (a.y.product_lo(b.y), a.y.product_hi(b.y)),
        (a.z.product_lo(b.z), a.z.product_hi(b.z)),
    )
}

pub open spec fn raw_norm_spec(a: Iv3) -> Result<(int, int), NumericError> {
    raw_sum3(
        (a.x.square_lo(), a.x.square_hi()),
        (a.y.square_lo(), a.y.square_hi()),
        (a.z.square_lo(), a.z.square_hi()),
    )
}

pub open spec fn is_floor_sqrt(r: int, v: int) -> bool {
    0 <= r && r * r <= v && v < (r + 1) * (r + 1)
}

/// The integer square root, rounded down.
pub open spec fn floor_sqrt(v: int) -> int {
    choose|r: int| is_floor_sqrt(r, v)
}

/// The integer square root, rounded up.
pub open spec fn ceil_sqrt(v: int) -> int {
    if floor_sqrt(v) * floor_sqrt(v) == v {
        floor_sqrt(v)
    } else {
        floor_sqrt(v) + 1
    }
}

pub proof fn lemma_floor_sqrt(r: int, v: int)
    requires
        is_floor_sqrt(r, v),
    ensures
        floor_sqrt(v) == r,
{
    let c = floor_sqrt(v);
    assert(is_floor_sqrt(c, v));
    if c < r {
        assert((c + 1) * (c + 1) <= r * r) by (nonlinear_arith)
            requires
                0 <= c < r,
        ;
    } else if r < c {
        assert((r + 1) * (r + 1) <= c * c) by (nonlinear_arith)
            requires
                0 <= r < c,
        ;
    }
}

/// Bounds of `value / denominator` rounded outward and clamped to `[-256, 256]`.
pub open spec fn quotient_bounds(n0: int, n1: int, dlo: int, dhi: int) -> (int, int) {
    (
        max_int(
            min4(
                floor_div(n0 * 256, dlo),
                floor_div(n0 * 256, dhi),
                floor_div(n1 * 256, dlo),
                floor_div(n1 * 256, dhi),
            ),
            -256,
        ),
        min_int(
            max4(
                ceil_div(n0 * 256, dlo),
                ceil_div(n0 * 256, dhi),
                ceil_div(n1 * 256, dlo),
                ceil_div(n1 * 256, dhi),
            ),
            256,
        ),
    )
}

/// Scale-invariant cosine enclosure in signed Q8 raw units.
pub open spec fn normalized_dot_spec(a: Iv3, b: Iv3, domain: FixedDomain) -> Result<
    Iv32,
    NumericError,
> {
    match then(vector_check(a, domain), vector_check(b, domain)) {
        Err(e) => Err(e),
        Ok(_) => match raw_dot_spec(a, b) {
            Err(e) => Err(e),
            Ok(num) => match raw_norm_spec(a) {
                Err(e) => Err(e),
                Ok(na) => match raw_norm_spec(b) {
                    Err(e) => Err(e),
                    Ok(nb) => {
                        let dlo = floor_sqrt(na.0) * floor_sqrt(nb.0);
                        let dhi = ceil_sqrt(na.1) * ceil_sqrt(nb.1);
                        if na.0 <= 0 || nb.0 <= 0 {
                            Err(NumericError::InvalidDomain)
                        } else if !fits_i64(dlo) || !fits_i64(dhi) {
                            Err(NumericError::Overflow)
                        } else if dlo == 0 {
                            Err(NumericError::InvalidDomain)
                        } else if !fits_i64(num.0 * 256) || !fits_i64(num.1 * 256) {
                            Err(NumericError::Overflow)
                        } else if num.0 * 256 == i64::MIN || num.1 * 256 == i64::MIN {
                            Err(NumericError::Overflow)
                        } else {
                            let bounds = quotient_bounds(num.0, num.1, dlo, dhi);
                            if !(i32::MIN <= bounds.0 <= i32::MAX && i32::MIN <= bounds.1
                                <= i32::MAX) {
                                Err(NumericError::Overflow)
                            } else if bounds.0 > bounds.1 {
                                Err(NumericError::InvalidInterval)
                            } else {
                                Ok(Iv32 { lo: bounds.0 as i32, hi: bounds.1 as i32 })
                            }
                        }
                    },
                },
            },
        },
    }
}

fn validate_component(c: Iv32, domain: FixedDomain) -> (r: Result<(), NumericError>)
    ensures
        r == component_check(c, domain),
{
    if c.lo > c.hi {
        return Err(NumericError::InvalidInterval);
    }
    if c.lo < domain.min_raw || c.hi > domain.max_raw {
        return Err(NumericError::DomainMismatch);
    }
    Ok(())
}

fn validate_vector(vector: Iv3, domain: FixedDomain) -> (r: Result<(), NumericError>)
    ensures
        r == vector_check(vector, domain),
{
    domain.validate()?;
    validate_component(vector.x, domain)?;
    validate_component(vector.y, domain)?;
    validate_component(vector.z, domain)?;
    Ok(())
}

fn raw_product(a: Iv32, b: Iv32) -> (r: (i64, i64))
    ensures
        r.0 == a.product_lo(b),
        r.1 == a.product_hi(b),
        -0x4000_0000_0000_0000 <= r.0 <= 0x4000_0000_0000_0000,
        -0x4000_0000_0000_0000 <= r.1 <= 0x4000_0000_0000_0000,
{
    proof {
        lemma_i32_product_bounds(a.lo as int, b.lo as int);
        lemma_i32_product_bounds(a.lo as int, b.hi as int);
        lemma_i32_product_bounds(a.hi as int, b.lo as int);
        lemma_i32_product_bounds(a.hi as int, b.hi as int);
    }
    let p0: i64 = a.lo as i64 * b.lo as i64;
    let p1: i64 = a.lo as i64 * b.hi as i64;
    let p2: i64 = a.hi as i64 * b.lo as i64;
    let p3: i64 = a.hi as i64 * b.hi as i64;
    let lo01 = if p0 <= p1 { p0 } else { p1 };
    let lo23 = if p2 <= p3 { p2 } else { p3 };
    let hi01 = if p0 >= p1 { p0 } else { p1 };
    let hi23 = if p2 >= p3 { p2 } else { p3 };
    (if lo01 <= lo23 { lo01 } else { lo23 }, if hi01 >= hi23 { hi01 } else { hi23 })
}

fn raw_square(value: Iv32) -> (r: (i64, i64))
    ensures
        r.0 == value.square_lo(),
        r.1 == value.square_hi(),
        r.0 <= r.1,
        0 <= r.0 <= 0x4000_0000_0000_0000,
        0 <= r.1 <= 0x4000_0000_0000_0000,
{
    let a: i64 = if value.lo < 0 { -(value.lo as i64) } else { value.lo as i64 };
    let b: i64 = if value.hi < 0 { -(value.hi as i64) } else { value.hi as i64 };
    let low_magnitude: i64 = if value.contains_zero() {
        0
    } else if a <= b {
        a
    } else {
        b
    };
    let high_magnitude: i64 = if a >= b { a } else { b };
    proof {
        lemma_i32_product_bounds(low_magnitude as int, low_magnitude as int);
        lemma_i32_product_bounds(high_magnitude as int, high_magnitude as int);
        let l = low_magnitude as int;
        let h = high_magnitude as int;
        assert(0 <= l * l && 0 <= h * h) by (nonlinear_arith)
            requires
                0 <= l,
                0 <= h,
        ;
        assert(l * l <= h * h) by (nonlinear_arith)
            requires
                0 <= l <= h,
        ;
    }
    (low_magnitude * low_magnitude, high_magnitude * high_magnitude)
}

fn checked_raw_add(a: (i64, i64), b: (i64, i64)) -> (r: Result<(i64, i64), NumericError>)
    ensures
        r == (if fits_i64(a.0 + b.0) && fits_i64(a.1 + b.1) {
            Ok(((a.0 + b.0) as i64, (a.1 + b.1) as i64))
        } else {
            Err(NumericError::Overflow)
        }),
{
    let lo = match a.0.checked_add(b.0) {
        Some(v) => v,
        None => return Err(NumericError::Overflow),
    };
    let hi = match a.1.checked_add(b.1) {
        Some(v) => v,
        None => return Err(NumericError::Overflow),
    };
    Ok((lo, hi))
}

fn raw_dot(a: Iv3, b: Iv3) -> (r: Result<(i64, i64), NumericError>)
    ensures
        match raw_dot_spec(a, b) {
            Ok(p) => r == Ok::<(i64, i64), NumericError>((p.0 as i64, p.1 as i64)) && fits_i64(
                p.0,
            ) && fits_i64(p.1),
            Err(e) => r == Err::<(i64, i64), NumericError>(e),
        },
{
    checked_raw_add(checked_raw_add(raw_product(a.x, b.x), raw_product(a.y, b.y))?, raw_product(a.z, b.z))
}

fn raw_norm_squared(vector: Iv3) -> (r: Result<(i64, i64), NumericError>)
    ensures
        match raw_norm_spec(vector) {
            Ok(p) => r == Ok::<(i64, i64), NumericError>((p.0 as i64, p.1 as i64)) && fits_i64(
                p.0,
            ) && fits_i64(p.1) && 0 <= p.0 <= p.1,
            Err(e) => r == Err::<(i64, i64), NumericError>(e),
        },
{
    checked_raw_add(checked_raw_add(raw_square(vector.x), raw_square(vector.y))?, raw_square(vector.z))
}

/// `ceil(value / denominator)`; refused for `i64::MIN`, whose negation overflows.
fn ceil_div_i64(value: i64, denominator: i64) -> (r: Result<i64, NumericError>)
    requires
        denominator > 0,
    ensures
        r == (if value == i64::MIN {
            Err(NumericError::Overflow)
        } else {
            Ok(ceil_div(value as int, denominator as int) as i64)
        }),
        value != i64::MIN ==> fits_i64(ceil_div(value as int, denominator as int)),
{
    if value == i64::MIN {
        return Err(NumericError::Overflow);
    }
    let negated: i64 = -value;
    let q = floor_div_i128(negated as i128, denominator as i128);
    Ok(-(q as i64))
}

proof fn lemma_square_test(m: int, v: int)
    requires
        m > 0,
        v >= 0,
    ensures
        (m <= v / m) <==> (m * m <= v),
{
    let q = v / m;
    let rem = v % m;
    assert(v == m * q + rem && 0 <= rem < m) by {
        vstd::arithmetic::div_mod::lemma_fundamental_div_mod(v, m);
    }
    if m <= q {
        assert(m * m <= v) by (nonlinear_arith)
            requires
                0 < m <= q,
                v == m * q + rem,
                0 <= rem,
        ;
    } else {
        assert(m * m > v) by (nonlinear_arith)
            requires
                0 < m,
                q + 1 <= m,
                v == m * q + rem,
                rem < m,
        ;
    }
}

fn floor_sqrt_i64(value: i64) -> (r: i64)
    requires
        value >= 0,
    ensures
        is_floor_sqrt(r as int, value as int),
        r as int == floor_sqrt(value as int),
        r <= 3_037_000_499,
{
    if value < 2 {
        proof {
            if value == 0 {
                assert(is_floor_sqrt(0, 0));
            } else {
                assert(is_floor_sqrt(1, 1));
            }
            lemma_floor_sqrt(value as int, value as int);
        }
        return value;
    }
    let mut lo: i64 = 1;
    let mut hi: i64 = if value < 3_037_000_499 { value } else { 3_037_000_499 };
    proof {
        let v = value as int;
        let h = hi as int;
        if h == v {
            assert(v < (h + 1) * (h + 1)) by (nonlinear_arith)
                requires
                    h == v,
                    v >= 2,
            ;
        } else {
            assert(3_037_000_500int * 3_037_000_500int > 0x7fff_ffff_ffff_ffffint);
        }
    }
    while lo <= hi
        invariant
            2 <= value,
            1 <= lo <= hi + 1,
            hi <= 3_037_000_499,
            hi <= value,
            (lo - 1) * (lo - 1) <= value,
            value < (hi + 1) * (hi + 1),
        decreases hi - lo + 1,
    {
        let midpoint = lo + (hi - lo) / 2;
        proof {
            lemma_square_test(midpoint as int, value as int);
        }
        if midpoint <= value / midpoint {
            lo = midpoint + 1;
        } else {
            hi = midpoint - 1;
        }
    }
    proof {
        lemma_floor_sqrt(hi as int, value as int);
    }
    hi
}

fn ceil_sqrt_i64(value: i64) -> (r: i64)
    requires
        value >= 0,
    ensures
        r as int == ceil_sqrt(value as int),
        r <= 3_037_000_500,
        value > 0 ==> r >= 1,
{
    let floor = floor_sqrt_i64(value);
    proof {
        if floor == 0 {
            assert(floor * floor == 0) by (nonlinear_arith)
                requires
                    floor == 0,
            ;
        }
    }
    if floor * floor == value {
        floor
    } else {
        floor + 1
    }
}

proof fn lemma_sqrt_positive(v: int)
    requires
        v > 0,
    ensures
        floor_sqrt(v) >= 1,
        ceil_sqrt(v) >= floor_sqrt(v),
{
    let r = floor_sqrt(v);
    assert(is_floor_sqrt(r, v)) by {
        assert(exists|x: int| is_floor_sqrt(x, v)) by {
            let w = choose_floor_sqrt_witness(v);
        }
    }
    if r == 0 {
        assert((r + 1) * (r + 1) == 1) by (nonlinear_arith)
            requires
                r == 0,
        ;
    }
}

proof fn choose_floor_sqrt_witness(v: int) -> (w: int)
    requires
        v >= 0,
    ensures
        is_floor_sqrt(w, v),
    decreases v,
{
    if v == 0 {
        assert(is_floor_sqrt(0, 0));
        0
    } else {
        let p = choose_floor_sqrt_witness(v - 1);
        if (p + 1) * (p + 1) <= v {
            assert(v < (p + 2) * (p + 2)) by (nonlinear_arith)
                requires
                    v - 1 < (p + 1) * (p + 1),
                    0 <= p,
            ;
            assert(is_floor_sqrt(p + 1, v));
            p + 1
        } else {
            assert(p * p <= v - 1);
            assert(is_floor_sqrt(p, v));
            p
        }
    }
}

/// Scale-invariant cosine enclosure in signed Q8 raw units.
#[verifier::rlimit(40)]
pub fn normalized_dot_q8(a: Iv3, b: Iv3, domain: FixedDomain) -> (r: Result<Iv32, NumericError>)
    ensures
        r == normalized_dot_spec(a, b, domain),
{
    validate_vector(a, domain)?;
    validate_vector(b, domain)?;
    let numerator = raw_dot(a, b)?;
    let norm_a = raw_norm_squared(a)?;
    let norm_b = raw_norm_squared(b)?;
    if norm_a.0 <= 0 || norm_b.0 <= 0 {
        return Err(NumericError::InvalidDomain);
    }
    proof {
        lemma_sqrt_positive(norm_a.0 as int);
        lemma_sqrt_positive(norm_b.0 as int);
    }
    let fa = floor_sqrt_i64(norm_a.0);
    let fb = floor_sqrt_i64(norm_b.0);
    let denominator_lo = match fa.checked_mul(fb) {
        Some(v) => v,
        None => return Err(NumericError::Overflow),
    };
    let ca = ceil_sqrt_i64(norm_a.1);
    let cb = ceil_sqrt_i64(norm_b.1);
    let denominator_hi = match ca.checked_mul(cb) {
        Some(v) => v,
        None => return Err(NumericError::Overflow),
    };
    if denominator_lo == 0 {
        return Err(NumericError::InvalidDomain);
    }
    proof {
        assert(denominator_lo > 0) by (nonlinear_arith)
            requires
                fa >= 1,
                fb >= 1,
                denominator_lo == fa * fb,
        ;
        assert(denominator_hi > 0) by (nonlinear_arith)
            requires
                ca >= 1,
                cb >= 1,
                denominator_hi == ca * cb,
        ;
    }
    let n0 = match numerator.0.checked_mul(256) {
        Some(v) => v,
        None => return Err(NumericError::Overflow),
    };
    let n1 = match numerator.1.checked_mul(256) {
        Some(v) => v,
        None => return Err(NumericError::Overflow),
    };
    let f0 = floor_div_i128(n0 as i128, denominator_lo as i128) as i64;
    let c0 = ceil_div_i64(n0, denominator_lo)?;
    let f1 = floor_div_i128(n0 as i128, denominator_hi as i128) as i64;
    let c1 = ceil_div_i64(n0, denominator_hi)?;
    let f2 = floor_div_i128(n1 as i128, denominator_lo as i128) as i64;
    let c2 = ceil_div_i64(n1, denominator_lo)?;
    let f3 = floor_div_i128(n1 as i128, denominator_hi as i128) as i64;
    let c3 = ceil_div_i64(n1, denominator_hi)?;
    let mut lo: i64 = f0;
    if f1 < lo {
        lo = f1;
    }
    if f2 < lo {
        lo = f2;
    }
    if f3 < lo {
        lo = f3;
    }
    let mut hi: i64 = c0;
    if c1 > hi {
        hi = c1;
    }
    if c2 > hi {
        hi = c2;
    }
    if c3 > hi {
        hi = c3;
    }
    if lo < -256 {
        lo = -256;
    }
    if hi > 256 {
        hi = 256;
    }
    if lo < i32::MIN as i64 || lo > i32::MAX as i64 || hi < i32::MIN as i64 || hi > i32::MAX as i64 {
        return Err(NumericError::Overflow);
    }
    Iv32::new(lo as i32, hi as i32)
}

} // verus!
