use pixels_reference::certificate::{
    bernstein_faces, bernstein_faces_subdivided, certify_run, krawczyk, monotone_tube,
    CompositionShape, RootCertMethod, RunCertificateInput,
};
use pixels_reference::iv32::{FixedDomain, Iv32, NumericError};
use pixels_reference::poly::{Bernstein, MAX_COEFFICIENTS};

#[test]
fn monotone_plane_accepts_and_grazing_rejects() {
    assert!(monotone_tube(
        Iv32::new(-3, -1).unwrap(),
        Iv32::new(1, 4).unwrap(),
        Iv32::new(2, 3).unwrap()
    )
    .is_some());
    assert!(monotone_tube(
        Iv32::new(-3, -1).unwrap(),
        Iv32::new(1, 4).unwrap(),
        Iv32::new(-1, 1).unwrap()
    )
    .is_none());
}

#[test]
fn failed_contraction_is_false_not_error() {
    let domain = FixedDomain::full(-4);
    assert_eq!(
        krawczyk(
            Iv32::point(16),
            Iv32::new(-1, 1).unwrap(),
            Iv32::new(15, 17).unwrap(),
            Iv32::new(-2, 2).unwrap(),
            domain
        ),
        Ok(None)
    );
}

#[test]
fn coefficient_faces_can_decide_after_bounded_subdivision() {
    let domain = FixedDomain::full(0);
    let mut lower = [Iv32::point(-4); MAX_COEFFICIENTS];
    let mut upper = [Iv32::point(4); MAX_COEFFICIENTS];
    lower[1] = Iv32::point(0);
    upper[1] = Iv32::point(0);
    let lower = Bernstein {
        coefficients: lower,
        degree: 2,
    };
    let upper = Bernstein {
        coefficients: upper,
        degree: 2,
    };
    assert!(bernstein_faces_subdivided(lower, upper, Iv32::point(1), domain, 4)
        .unwrap()
        .is_some());
    assert_eq!(
        bernstein_faces_subdivided(lower, upper, Iv32::point(1), domain, 9),
        Err(NumericError::UnsupportedShape)
    );
    assert_eq!(
        bernstein_faces_subdivided(lower, upper, Iv32::new(0, 1).unwrap(), domain, 4),
        Ok(None)
    );
    assert_eq!(
        bernstein_faces_subdivided(lower, upper, Iv32::point(1), domain, 0),
        Ok(None)
    );
}

fn make(values: [Iv32; 3]) -> Bernstein {
    let mut coefficients = [Iv32::point(0); MAX_COEFFICIENTS];
    coefficients[..3].copy_from_slice(&values);
    Bernstein {
        coefficients,
        degree: 2,
    }
}

#[test]
fn ordered_policy_prefers_coefficients_then_falls_through_without_widening() {
    let base = RunCertificateInput {
        composition_shape: Some(CompositionShape::Plane),
        lower_coefficients: make([Iv32::point(-4); 3]),
        upper_coefficients: make([Iv32::point(4); 3]),
        lower_face: Iv32::point(-4),
        upper_face: Iv32::point(4),
        derivative: Iv32::point(2),
        reciprocal_derivative: Iv32::point(1),
        residual: Iv32::point(0),
        correction: Iv32::new(-2, 2).unwrap(),
        domain: FixedDomain::full(0),
    };
    assert!(monotone_tube(base.lower_face, base.upper_face, base.derivative).is_some());
    let tier_zero = certify_run(base).unwrap().unwrap();
    assert_eq!(tier_zero.certificate.method, RootCertMethod::BernsteinFaces);
    assert_eq!(tier_zero.composition_shape, Some(CompositionShape::Plane));

    let mut inconclusive = base;
    inconclusive.lower_coefficients =
        make([Iv32::point(-4), Iv32::new(-1, 1).unwrap(), Iv32::point(-4)]);
    let tier_one = certify_run(inconclusive).unwrap().unwrap();
    assert_eq!(tier_one.certificate.method, RootCertMethod::MonotoneTube);
    assert_eq!(tier_one.certificate.face_margin, Iv32::point(4));

    let mut tier_two = base;
    tier_two.composition_shape = None;
    tier_two.lower_face = Iv32::point(1);
    tier_two.upper_face = Iv32::point(2);
    tier_two.derivative = Iv32::point(1);
    let tier_two = certify_run(tier_two).unwrap().unwrap();
    assert_eq!(tier_two.certificate.method, RootCertMethod::Krawczyk);
}

#[test]
fn face_margins_are_exact() {
    let lower = make([Iv32::new(-9, -3).unwrap(), Iv32::point(-5), Iv32::point(-7)]);
    let upper = make([Iv32::point(6), Iv32::new(2, 8).unwrap(), Iv32::point(4)]);
    let certificate = bernstein_faces(lower, upper, Iv32::new(-6, -2).unwrap()).unwrap();
    assert_eq!(certificate.face_margin, Iv32::point(2));
    assert_eq!(certificate.derivative_margin, Iv32::point(2));
    assert_eq!(certificate.method, RootCertMethod::BernsteinFaces);
    assert!(bernstein_faces(lower, lower, Iv32::point(1)).is_none());
}

#[test]
fn krawczyk_contraction_reports_its_margin() {
    let domain = FixedDomain::full(0);
    let certificate = krawczyk(
        Iv32::point(1),
        Iv32::point(0),
        Iv32::point(1),
        Iv32::new(-2, 2).unwrap(),
        domain,
    )
    .unwrap()
    .unwrap();
    assert_eq!(certificate.correction, Iv32::point(0));
    assert_eq!(certificate.contraction_margin, Iv32::point(2));
    assert_eq!(certificate.derivative_margin, Iv32::point(1));
    assert_eq!(
        krawczyk(Iv32::point(1), Iv32::point(0), Iv32::point(1), Iv32::point(3), domain),
        Ok(None)
    );
}
