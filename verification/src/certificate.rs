//! Ordered monotone-tube and scalar Krawczyk certificate predicates.
use vstd::prelude::*;
use crate::iv32::{FixedDomain, Iv32, NumericError, abs_int, min_int};
use crate::poly::{Bernstein, CoefficientSign, MAX_DEGREE, casteljau, padded};

verus! {

#[derive(Clone, Copy, Debug, PartialEq, Eq, Structural)]
pub enum RootCertMethod {
    BernsteinFaces,
    MonotoneTube,
    Krawczyk,
}

#[derive(Clone, Copy, Debug, PartialEq, Eq, Structural)]
pub enum CompositionShape {
    Plane,
    Sphere,
    Torus,
}

#[derive(Clone, Copy, Debug, PartialEq, Eq, Structural)]
pub struct RootCertificate {
    pub correction: Iv32,
    pub derivative_margin: Iv32,
    pub face_margin: Iv32,
    pub contraction_margin: Iv32,
    pub method: RootCertMethod,
}

#[derive(Clone, Copy, Debug, PartialEq, Eq)]
pub struct RunCertificateInput {
    pub composition_shape: Option<CompositionShape>,
    pub lower_coefficients: Bernstein,
    pub upper_coefficients: Bernstein,
    pub lower_face: Iv32,
    pub upper_face: Iv32,
    pub derivative: Iv32,
    pub reciprocal_derivative: Iv32,
    pub residual: Iv32,
    pub correction: Iv32,
    pub domain: FixedDomain,
}

#[derive(Clone, Copy, Debug, PartialEq, Eq, Structural)]
pub struct CertifiedRun {
    pub certificate: RootCertificate,
    pub composition_shape: Option<CompositionShape>,
}

/// Bit pattern of the `f32` value one.
pub const ONE_F32_BITS: u32 = 0x3f80_0000;

pub open spec fn point(v: int) -> Iv32 {
    Iv32 { lo: v as i32, hi: v as i32 }
}

pub open spec fn opposite(a: CoefficientSign, b: CoefficientSign) -> bool {
    (a == CoefficientSign::StrictNegative && b == CoefficientSign::StrictPositive) || (a
        == CoefficientSign::StrictPositive && b == CoefficientSign::StrictNegative)
}

/// The derivative enclosure is bounded away from zero.
pub open spec fn strictly_signed(d: Iv32) -> bool {
    d.lo > 0 || d.hi < 0
}

/// Distance of a strictly signed interval from zero, saturating at `i32::MAX`.
pub open spec fn strict_margin_value(d: Iv32) -> int {
    if d.lo > 0 {
        d.lo as int
    } else if d.hi < 0 {
        min_int(-d.hi, i32::MAX as int)
    } else {
        0
    }
}

/// Distance of a coefficient enclosure from zero at its nearer end.
pub open spec fn magnitude(c: Iv32) -> int {
    min_int(abs_int(c.lo as int), abs_int(c.hi as int))
}

/// Sign of the active coefficients `0..=degree` of `cs`.
pub open spec fn seq_sign(cs: Seq<Iv32>, degree: int) -> CoefficientSign {
    if forall|i: int| 0 <= i <= degree ==> cs[i].lo > 0 {
        CoefficientSign::StrictPositive
    } else if forall|i: int| 0 <= i <= degree ==> cs[i].hi < 0 {
        CoefficientSign::StrictNegative
    } else {
        CoefficientSign::Mixed
    }
}

/// `m` is the least magnitude over the active coefficients of both faces.
pub open spec fn is_face_margin(
    lower: Seq<Iv32>,
    lower_degree: int,
    upper: Seq<Iv32>,
    upper_degree: int,
    m: int,
) -> bool {
    &&& forall|i: int| 0 <= i <= lower_degree ==> m <= #[trigger] magnitude(lower[i])
    &&& forall|i: int| 0 <= i <= upper_degree ==> m <= #[trigger] magnitude(upper[i])
    &&& ((exists|i: int| 0 <= i <= lower_degree && m == #[trigger] magnitude(lower[i])) || (exists|
        i: int,
    | 0 <= i <= upper_degree && m == #[trigger] magnitude(upper[i])))
}

/// Halves of the active coefficients at `1/2`, padded to the fixed width.
pub open spec fn halves(cs: Seq<Iv32>, degree: int, domain: FixedDomain) -> Result<
    (Seq<Iv32>, Seq<Iv32>),
    NumericError,
> {
    match domain.check() {
        Err(e) => Err(e),
        Ok(_) => match casteljau(cs.subrange(0, degree + 1), 1, 2, domain) {
            Ok(t) => Ok((padded(t.1), padded(t.2.reverse()))),
            Err(e) => Err(e),
        },
    }
}

/// Depth-first face search: a pair of faces with opposite signs is a leaf
/// contributing its margin; otherwise both faces are halved until
/// `maximum_depth`, where the search gives up.
pub open spec fn face_search(
    lower: Seq<Iv32>,
    lower_degree: int,
    upper: Seq<Iv32>,
    upper_degree: int,
    depth: int,
    maximum_depth: int,
    domain: FixedDomain,
) -> Result<Option<int>, NumericError>
    decreases maximum_depth - depth,
{
    if opposite(seq_sign(lower, lower_degree), seq_sign(upper, upper_degree)) {
        Ok(Some(choose|m: int| is_face_margin(lower, lower_degree, upper, upper_degree, m)))
    } else if depth >= maximum_depth {
        Ok(None)
    } else {
        match halves(lower, lower_degree, domain) {
            Err(e) => Err(e),
            Ok((lower_left, lower_right)) => match halves(upper, upper_degree, domain) {
                Err(e) => Err(e),
                Ok((upper_left, upper_right)) => match face_search(
                    lower_left,
                    lower_degree,
                    upper_left,
                    upper_degree,
                    depth + 1,
                    maximum_depth,
                    domain,
                ) {
                    Ok(Some(m)) => match face_search(
                        lower_right,
                        lower_degree,
                        upper_right,
                        upper_degree,
                        depth + 1,
                        maximum_depth,
                        domain,
                    ) {
                        Ok(Some(n)) => Ok(Some(min_int(m, n))),
                        other => other,
                    },
                    other => other,
                },
            },
        }
    }
}

pub open spec fn face_certificate(derivative: Iv32, margin: int) -> RootCertificate {
    RootCertificate {
        correction: point(0),
        derivative_margin: point(strict_margin_value(derivative)),
        face_margin: point(margin),
        contraction_margin: point(0),
        method: RootCertMethod::BernsteinFaces,
    }
}

pub open spec fn bernstein_faces_spec(lower: Bernstein, upper: Bernstein, derivative: Iv32) -> Option<
    RootCertificate,
> {
    if !opposite(lower.spec_sign(), upper.spec_sign()) || !strictly_signed(derivative) {
        None
    } else {
        Some(
            face_certificate(
                derivative,
                min_int(
                    choose|m: int|
                        is_face_margin(
                            lower.coefficients@,
                            lower.degree as int,
                            upper.coefficients@,
                            upper.degree as int,
                            m,
                        ),
                    i32::MAX as int,
                ),
            ),
        )
    }
}

pub open spec fn monotone_tube_spec(lower_face: Iv32, upper_face: Iv32, derivative: Iv32) -> Option<
    RootCertificate,
> {
    if !((lower_face.hi < 0 && upper_face.lo > 0) || (lower_face.lo > 0 && upper_face.hi < 0))
        || !strictly_signed(derivative) {
        None
    } else {
        Some(
            RootCertificate {
                correction: point(0),
                derivative_margin: point(strict_margin_value(derivative)),
                face_margin: point(
                    min_int(
                        min_int(
                            min_int(abs_int(lower_face.lo as int), abs_int(lower_face.hi as int)),
                            abs_int(upper_face.lo as int),
                        ),
                        abs_int(upper_face.hi as int),
                    ),
                ),
                contraction_margin: point(0),
                method: RootCertMethod::MonotoneTube,
            },
        )
    }
}

/// Krawczyk image `-A r + (1 - A d) x` of the correction box.
pub open spec fn krawczyk_image(
    reciprocal_derivative: Iv32,
    residual: Iv32,
    derivative: Iv32,
    correction: Iv32,
    domain: FixedDomain,
) -> Result<Iv32, NumericError> {
    match Iv32::spec_from_f32_bits(ONE_F32_BITS, 0, domain) {
        Err(e) => Err(e),
        Ok(one) => match reciprocal_derivative.spec_multiply(residual, domain) {
            Err(e) => Err(e),
            Ok(ar) => match ar.spec_negate(domain) {
                Err(e) => Err(e),
                Ok(minus_a_r) => match reciprocal_derivative.spec_multiply(derivative, domain) {
                    Err(e) => Err(e),
                    Ok(ad) => match one.spec_subtract(ad, domain) {
                        Err(e) => Err(e),
                        Ok(contraction) => match contraction.spec_multiply(correction, domain) {
                            Err(e) => Err(e),
                            Ok(cx) => minus_a_r.spec_add(cx, domain),
                        },
                    },
                },
            },
        },
    }
}

pub open spec fn krawczyk_spec(
    reciprocal_derivative: Iv32,
    residual: Iv32,
    derivative: Iv32,
    correction: Iv32,
    domain: FixedDomain,
) -> Result<Option<RootCertificate>, NumericError> {
    if correction.lo >= correction.hi || (derivative.lo <= 0 && derivative.hi >= 0) {
        Ok(None)
    } else {
        match krawczyk_image(reciprocal_derivative, residual, derivative, correction, domain) {
            Err(e) => Err(e),
            Ok(image) => if image.lo <= correction.lo || image.hi >= correction.hi {
                Ok(None)
            } else {
                let margin = min_int(image.lo - correction.lo, correction.hi - image.hi);
                if margin > i32::MAX {
                    Err(NumericError::Overflow)
                } else {
                    Ok(
                        Some(
                            RootCertificate {
                                correction: image,
                                derivative_margin: point(strict_margin_value(derivative)),
                                face_margin: point(0),
                                contraction_margin: point(margin),
                                method: RootCertMethod::Krawczyk,
                            },
                        ),
                    )
                }
            },
        }
    }
}

fn opposite_signs(a: CoefficientSign, b: CoefficientSign) -> (r: bool)
    ensures
        r == opposite(a, b),
{
    match (a, b) {
        (CoefficientSign::StrictNegative, CoefficientSign::StrictPositive) => true,
        (CoefficientSign::StrictPositive, CoefficientSign::StrictNegative) => true,
        _ => false,
    }
}

fn strict_margin(interval: Iv32) -> (r: Iv32)
    ensures
        r == point(strict_margin_value(interval)),
{
    Iv32::point(
        if interval.strict_positive() {
            interval.lo
        } else if interval.strict_negative() {
            if interval.hi == i32::MIN {
                i32::MAX
            } else {
                -interval.hi
            }
        } else {
            0
        },
    )
}

fn magnitude_of(c: Iv32) -> (r: u32)
    ensures
        r == magnitude(c),
{
    let a: u32 = if c.lo < 0 {
        if c.lo == i32::MIN {
            0x8000_0000
        } else {
            (-c.lo) as u32
        }
    } else {
        c.lo as u32
    };
    let b: u32 = if c.hi < 0 {
        if c.hi == i32::MIN {
            0x8000_0000
        } else {
            (-c.hi) as u32
        }
    } else {
        c.hi as u32
    };
    if a <= b {
        a
    } else {
        b
    }
}

/// Least coefficient magnitude over both faces, saturating at `i32::MAX`.
fn coefficient_margin(lower: Bernstein, upper: Bernstein) -> (r: Iv32)
    requires
        lower.wf(),
        upper.wf(),
    ensures
        exists|m: int|
            is_face_margin(
                lower.coefficients@,
                lower.degree as int,
                upper.coefficients@,
                upper.degree as int,
                m,
            ) && r == point(min_int(m, i32::MAX as int)),
{
    let mut margin: u32 = magnitude_of(lower.coefficients[0]);
    let mut i: usize = 1;
    while i <= lower.degree as usize
        invariant
            1 <= i <= lower.degree + 1,
            lower.degree <= MAX_DEGREE,
            forall|k: int| 0 <= k < i ==> margin <= #[trigger] magnitude(lower.coefficients@[k]),
            exists|k: int| 0 <= k < i && margin == #[trigger] magnitude(lower.coefficients@[k]),
        decreases lower.degree + 1 - i,
    {
        let m = magnitude_of(lower.coefficients[i]);
        if m < margin {
            margin = m;
        }
        i = i + 1;
    }
    let ghost from_lower = margin;
    let mut j: usize = 0;
    while j <= upper.degree as usize
        invariant
            j <= upper.degree + 1,
            upper.degree <= MAX_DEGREE,
            lower.degree <= MAX_DEGREE,
            margin <= from_lower,
            forall|k: int|
                0 <= k <= lower.degree ==> margin <= #[trigger] magnitude(lower.coefficients@[k]),
            forall|k: int| 0 <= k < j ==> margin <= #[trigger] magnitude(upper.coefficients@[k]),
            margin == from_lower || exists|k: int|
                0 <= k < j && margin == #[trigger] magnitude(upper.coefficients@[k]),
            exists|k: int|
                0 <= k <= lower.degree && from_lower == #[trigger] magnitude(
                    lower.coefficients@[k],
                ),
        decreases upper.degree + 1 - j,
    {
        let m = magnitude_of(upper.coefficients[j]);
        if m < margin {
            margin = m;
        }
        j = j + 1;
    }
    let value: i32 = if margin > 0x7fff_ffff {
        i32::MAX
    } else {
        margin as i32
    };
    proof {
        assert(is_face_margin(
            lower.coefficients@,
            lower.degree as int,
            upper.coefficients@,
            upper.degree as int,
            margin as int,
        ));
    }
    Iv32::point(value)
}

proof fn lemma_face_margin_unique(
    lower: Seq<Iv32>,
    lower_degree: int,
    upper: Seq<Iv32>,
    upper_degree: int,
    m: int,
)
    requires
        is_face_margin(lower, lower_degree, upper, upper_degree, m),
    ensures
        (choose|n: int| is_face_margin(lower, lower_degree, upper, upper_degree, n)) == m,
{
    let n = choose|n: int| is_face_margin(lower, lower_degree, upper, upper_degree, n);
    assert(is_face_margin(lower, lower_degree, upper, upper_degree, n));
    if exists|i: int| 0 <= i <= lower_degree && n == #[trigger] magnitude(lower[i]) {
        let i = choose|i: int| 0 <= i <= lower_degree && n == #[trigger] magnitude(lower[i]);
        assert(m <= magnitude(lower[i]));
    } else {
        let i = choose|i: int| 0 <= i <= upper_degree && n == #[trigger] magnitude(upper[i]);
        assert(m <= magnitude(upper[i]));
    }
    if exists|i: int| 0 <= i <= lower_degree && m == #[trigger] magnitude(lower[i]) {
        let i = choose|i: int| 0 <= i <= lower_degree && m == #[trigger] magnitude(lower[i]);
        assert(n <= magnitude(lower[i]));
    } else {
        let i = choose|i: int| 0 <= i <= upper_degree && m == #[trigger] magnitude(upper[i]);
        assert(n <= magnitude(upper[i]));
    }
}

pub fn bernstein_faces(lower: Bernstein, upper: Bernstein, derivative: Iv32) -> (r: Option<
    RootCertificate,
>)
    requires
        lower.wf(),
        upper.wf(),
    ensures
        r == bernstein_faces_spec(lower, upper, derivative),
{
    let lower_sign = lower.sign();
    let upper_sign = upper.sign();
    if !opposite_signs(lower_sign, upper_sign) || !(derivative.strict_positive()
        || derivative.strict_negative()) {
        return None;
    }
    let face_margin = coefficient_margin(lower, upper);
    proof {
        let m = choose|m: int|
            is_face_margin(
                lower.coefficients@,
                lower.degree as int,
                upper.coefficients@,
                upper.degree as int,
                m,
            ) && face_margin == point(min_int(m, i32::MAX as int));
        lemma_face_margin_unique(
            lower.coefficients@,
            lower.degree as int,
            upper.coefficients@,
            upper.degree as int,
            m,
        );
    }
    Some(
        RootCertificate {
            correction: Iv32::point(0),
            derivative_margin: strict_margin(derivative),
            face_margin,
            contraction_margin: Iv32::point(0),
            method: RootCertMethod::BernsteinFaces,
        },
    )
}

/// One node of the face search; `Some(m)` carries the least margin of the subtree.
fn search_faces(
    lower: Bernstein,
    upper: Bernstein,
    depth: u8,
    maximum_depth: u8,
    domain: FixedDomain,
) -> (r: Result<Option<i32>, NumericError>)
    requires
        lower.wf(),
        upper.wf(),
        depth <= maximum_depth <= 8,
    ensures
        match face_search(
            lower.coefficients@,
            lower.degree as int,
            upper.coefficients@,
            upper.degree as int,
            depth as int,
            maximum_depth as int,
            domain,
        ) {
            Ok(Some(m)) => r == Ok::<Option<i32>, NumericError>(
                Some(min_int(m, i32::MAX as int) as i32),
            ),
            Ok(None) => r == Ok::<Option<i32>, NumericError>(None),
            Err(e) => r == Err::<Option<i32>, NumericError>(e),
        },
        face_search(
            lower.coefficients@,
            lower.degree as int,
            upper.coefficients@,
            upper.degree as int,
            depth as int,
            maximum_depth as int,
            domain,
        ) matches Ok(Some(m)) ==> m >= 0,
    decreases maximum_depth - depth,
{
    proof {
        assert(seq_sign(lower.coefficients@, lower.degree as int) == lower.spec_sign());
        assert(seq_sign(upper.coefficients@, upper.degree as int) == upper.spec_sign());
        assert(halves(lower.coefficients@, lower.degree as int, domain) == lower.spec_subdivide_at(
            1,
            2,
            domain,
        ));
        assert(halves(upper.coefficients@, upper.degree as int, domain) == upper.spec_subdivide_at(
            1,
            2,
            domain,
        ));
    }
    if opposite_signs(lower.sign(), upper.sign()) {
        let face_margin = coefficient_margin(lower, upper);
        proof {
            let m = choose|m: int|
                is_face_margin(
                    lower.coefficients@,
                    lower.degree as int,
                    upper.coefficients@,
                    upper.degree as int,
                    m,
                ) && face_margin == point(min_int(m, i32::MAX as int));
            lemma_face_margin_unique(
                lower.coefficients@,
                lower.degree as int,
                upper.coefficients@,
                upper.degree as int,
                m,
            );
        }
        return Ok(Some(face_margin.lo));
    }
    if depth >= maximum_depth {
        return Ok(None);
    }
    let (lower_left, lower_right) = lower.subdivide_half(domain)?;
    let (upper_left, upper_right) = upper.subdivide_half(domain)?;
    let left = search_faces(lower_left, upper_left, depth + 1, maximum_depth, domain)?;
    match left {
        None => Ok(None),
        Some(m) => {
            let right = search_faces(lower_right, upper_right, depth + 1, maximum_depth, domain)?;
            match right {
                None => Ok(None),
                Some(n) => Ok(Some(if m <= n { m } else { n })),
            }
        },
    }
}

/// Face certificate after bounded bisection of both coefficient faces; the
/// margin is the least over all accepted leaves.
pub fn bernstein_faces_subdivided(
    lower: Bernstein,
    upper: Bernstein,
    derivative: Iv32,
    domain: FixedDomain,
    maximum_depth: u8,
) -> (r: Result<Option<RootCertificate>, NumericError>)
    requires
        lower.wf(),
        upper.wf(),
    ensures
        r == (if maximum_depth > 8 {
            Err(NumericError::UnsupportedShape)
        } else if !strictly_signed(derivative) {
            Ok(None)
        } else {
            match face_search(
                lower.coefficients@,
                lower.degree as int,
                upper.coefficients@,
                upper.degree as int,
                0,
                maximum_depth as int,
                domain,
            ) {
                Ok(Some(m)) => Ok(Some(face_certificate(derivative, min_int(m, i32::MAX as int)))),
                Ok(None) => Ok(None),
                Err(e) => Err(e),
            }
        }),
{
    if maximum_depth > 8 {
        return Err(NumericError::UnsupportedShape);
    }
    if !(derivative.strict_positive() || derivative.strict_negative()) {
        return Ok(None);
    }
    match search_faces(lower, upper, 0, maximum_depth, domain)? {
        None => Ok(None),
        Some(minimum_margin) => Ok(
            Some(
                RootCertificate {
                    correction: Iv32::point(0),
                    derivative_margin: strict_margin(derivative),
                    face_margin: Iv32::point(minimum_margin),
                    contraction_margin: Iv32::point(0),
                    method: RootCertMethod::BernsteinFaces,
                },
            ),
        ),
    }
}

fn magnitude_i32(v: i32) -> (r: u32)
    ensures
        r == abs_int(v as int),
{
    if v < 0 {
        if v == i32::MIN {
            0x8000_0000
        } else {
            (-v) as u32
        }
    } else {
        v as u32
    }
}

pub fn monotone_tube(lower_face: Iv32, upper_face: Iv32, derivative: Iv32) -> (r: Option<
    RootCertificate,
>)
    ensures
        r == monotone_tube_spec(lower_face, upper_face, derivative),
{
    if !((lower_face.strict_negative() && upper_face.strict_positive()) || (
    lower_face.strict_positive() && upper_face.strict_negative())) || !(
    derivative.strict_positive() || derivative.strict_negative()) {
        return None;
    }
    let mut m = magnitude_i32(lower_face.lo);
    let b = magnitude_i32(lower_face.hi);
    if b < m {
        m = b;
    }
    let c = magnitude_i32(upper_face.lo);
    if c < m {
        m = c;
    }
    let d = magnitude_i32(upper_face.hi);
    if d < m {
        m = d;
    }
    Some(
        RootCertificate {
            correction: Iv32::point(0),
            derivative_margin: strict_margin(derivative),
            face_margin: Iv32::point(m as i32),
            contraction_margin: Iv32::point(0),
            method: RootCertMethod::MonotoneTube,
        },
    )
}

pub fn krawczyk(
    reciprocal_derivative: Iv32,
    residual: Iv32,
    derivative: Iv32,
    correction: Iv32,
    domain: FixedDomain,
) -> (r: Result<Option<RootCertificate>, NumericError>)
    ensures
        r == krawczyk_spec(reciprocal_derivative, residual, derivative, correction, domain),
{
    if correction.lo >= correction.hi || derivative.contains_zero() {
        return Ok(None);
    }
    let one = Iv32::from_f32_bits(ONE_F32_BITS, 0, domain)?;
    let minus_a_r = reciprocal_derivative.multiply(residual, domain)?.negate(domain)?;
    let contraction = one.subtract(reciprocal_derivative.multiply(derivative, domain)?, domain)?;
    let image = minus_a_r.add(contraction.multiply(correction, domain)?, domain)?;
    if image.lo <= correction.lo || image.hi >= correction.hi {
        return Ok(None);
    }
    let left: i64 = image.lo as i64 - correction.lo as i64;
    let right: i64 = correction.hi as i64 - image.hi as i64;
    let margin: i64 = if left <= right { left } else { right };
    if margin > i32::MAX as i64 {
        return Err(NumericError::Overflow);
    }
    Ok(
        Some(
            RootCertificate {
                correction: image,
                derivative_margin: strict_margin(derivative),
                face_margin: Iv32::point(0),
                contraction_margin: Iv32::point(margin as i32),
                method: RootCertMethod::Krawczyk,
            },
        ),
    )
}

/// Applies the sealed certificate policy in preference order: coefficient
/// faces (only for a known composition shape), then the monotone tube, then
/// Krawczyk. An inconclusive face test falls through without widening.
pub fn certify_run(input: RunCertificateInput) -> (r: Result<Option<CertifiedRun>, NumericError>)
    requires
        input.lower_coefficients.wf(),
        input.upper_coefficients.wf(),
    ensures
        r == (if input.composition_shape is Some && bernstein_faces_spec(
            input.lower_coefficients,
            input.upper_coefficients,
            input.derivative,
        ) is Some {
            Ok(
                Some(
                    CertifiedRun {
                        certificate: bernstein_faces_spec(
                            input.lower_coefficients,
                            input.upper_coefficients,
                            input.derivative,
                        ).unwrap(),
                        composition_shape: input.composition_shape,
                    },
                ),
            )
        } else if monotone_tube_spec(input.lower_face, input.upper_face, input.derivative) is Some {
            Ok(
                Some(
                    CertifiedRun {
                        certificate: monotone_tube_spec(
                            input.lower_face,
                            input.upper_face,
                            input.derivative,
                        ).unwrap(),
                        composition_shape: input.composition_shape,
                    },
                ),
            )
        } else {
            match krawczyk_spec(
                input.reciprocal_derivative,
                input.residual,
                input.derivative,
                input.correction,
                input.domain,
            ) {
                Ok(Some(c)) => Ok(Some(CertifiedRun { certificate: c, composition_shape: input.composition_shape })),
                Ok(None) => Ok(None),
                Err(e) => Err(e),
            }
        }),
{
    if input.composition_shape.is_some() {
        if let Some(certificate) = bernstein_faces(
            input.lower_coefficients,
            input.upper_coefficients,
            input.derivative,
        ) {
            return Ok(Some(CertifiedRun { certificate, composition_shape: input.composition_shape }));
        }
    }
    if let Some(certificate) = monotone_tube(input.lower_face, input.upper_face, input.derivative) {
        return Ok(Some(CertifiedRun { certificate, composition_shape: input.composition_shape }));
    }
    match krawczyk(
        input.reciprocal_derivative,
        input.residual,
        input.derivative,
        input.correction,
        input.domain,
    )? {
        Some(certificate) => Ok(
            Some(CertifiedRun { certificate, composition_shape: input.composition_shape }),
        ),
        None => Ok(None),
    }
}

} // verus!
