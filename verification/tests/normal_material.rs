use pixels_reference::iv32::{FixedDomain, Iv32, NumericError};
use pixels_reference::material::{
    evaluate_affine_scalar, evaluate_affine_vector, footprint_bound, low_rank_residual_accepts,
    quadratic_moments, affine_moments,
};
use pixels_reference::normal::{
    cone_dot, dot, norm_squared, normal_cone, normalization_is_safe, normalized_dot_q8,
    reconstruct, Iv3, NormalCone,
};

fn d() -> FixedDomain {
    FixedDomain::full(-8)
}

#[test]
fn plane_normal_is_exact_and_constant() {
    let normal = reconstruct(
        Iv32::point(0),
        Iv32::point(0),
        Iv32::point(256),
        Iv32::point(0),
        Iv32::point(0),
        d(),
    )
    .unwrap();
    assert_eq!(
        normal,
        Iv3 {
            x: Iv32::point(0),
            y: Iv32::point(0),
            z: Iv32::point(256)
        }
    );
    assert_eq!(normalization_is_safe(normal, d()), Ok(true));
}

#[test]
fn zero_containing_norm_is_certificate_failure() {
    let uncertain = Iv3 {
        x: Iv32::new(-1, 1).unwrap(),
        y: Iv32::new(-1, 1).unwrap(),
        z: Iv32::new(-1, 1).unwrap(),
    };
    assert_eq!(normalization_is_safe(uncertain, d()), Ok(false));
}

#[test]
fn curved_inverse_depth_gradient_is_inside_the_cone() {
    let cone = normal_cone(
        Iv32::new(31, 33).unwrap(),
        Iv32::new(-17, -15).unwrap(),
        Iv32::new(250, 258).unwrap(),
        Iv32::new(10, 12).unwrap(),
        Iv32::new(-7, -5).unwrap(),
        d(),
    )
    .unwrap()
    .expect("regular curved sheet");
    assert!(cone.direction.x.lo <= 11 && 11 <= cone.direction.x.hi);
    assert!(cone.direction.y.lo <= -6 && -6 <= cone.direction.y.hi);
    let exact_z = 254 - (32 * 11) / 256 - (-16 * -6) / 256;
    assert!(cone.direction.z.lo <= exact_z && exact_z <= cone.direction.z.hi);
}

#[test]
fn normalized_dot_is_scale_invariant() {
    let direction = Iv3 {
        x: Iv32::point(3),
        y: Iv32::point(4),
        z: Iv32::point(0),
    };
    let scaled = Iv3 {
        x: Iv32::point(6),
        y: Iv32::point(8),
        z: Iv32::point(0),
    };
    assert_eq!(
        normalized_dot_q8(direction, direction, d()),
        Ok(Iv32::point(256))
    );
    assert_eq!(normalized_dot_q8(direction, scaled, d()), Ok(Iv32::point(256)));
    let zero = Iv3 {
        x: Iv32::point(0),
        y: Iv32::point(0),
        z: Iv32::point(0),
    };
    assert_eq!(
        normalized_dot_q8(direction, zero, d()),
        Err(NumericError::InvalidDomain)
    );
}

#[test]
fn orthogonal_and_opposite_directions() {
    let x = Iv3 {
        x: Iv32::point(5),
        y: Iv32::point(0),
        z: Iv32::point(0),
    };
    let y = Iv3 {
        x: Iv32::point(0),
        y: Iv32::point(7),
        z: Iv32::point(0),
    };
    let minus_x = Iv3 {
        x: Iv32::point(-2),
        y: Iv32::point(0),
        z: Iv32::point(0),
    };
    assert_eq!(normalized_dot_q8(x, y, d()), Ok(Iv32::point(0)));
    assert_eq!(normalized_dot_q8(x, minus_x, d()), Ok(Iv32::point(-256)));
    let bad = Iv3 {
        x: Iv32 { lo: 2, hi: 1 },
        y: Iv32::point(0),
        z: Iv32::point(0),
    };
    assert_eq!(normalized_dot_q8(x, bad, d()), Err(NumericError::InvalidInterval));
    let narrow = FixedDomain::new(-8, -4, 4).unwrap();
    assert_eq!(normalized_dot_q8(x, y, narrow), Err(NumericError::DomainMismatch));
}

#[test]
fn cone_dot_requires_a_positive_norm_and_dot_adds_products() {
    let direction = Iv3 {
        x: Iv32::point(3),
        y: Iv32::point(4),
        z: Iv32::point(0),
    };
    let cone = NormalCone {
        direction,
        norm_squared: Iv32::point(0),
    };
    assert_eq!(cone_dot(cone, direction, d()), Err(NumericError::InvalidDomain));
    let cone = NormalCone {
        direction,
        norm_squared: Iv32::point(25),
    };
    assert_eq!(cone_dot(cone, direction, d()), Ok(Iv32::point(256)));
    let unit = FixedDomain::full(0);
    assert_eq!(dot(direction, direction, unit), Ok(Iv32::point(25)));
    assert_eq!(norm_squared(direction, unit), Ok(Iv32::point(25)));
}

#[test]
fn proposal_residual_never_becomes_a_premise() {
    let domain = FixedDomain::full(-8);
    assert_eq!(
        low_rank_residual_accepts(Iv32::new(-2, 2).unwrap(), 1, 3, domain),
        Ok(true)
    );
    assert_eq!(
        low_rank_residual_accepts(Iv32::new(-3, 3).unwrap(), 1, 3, domain),
        Ok(false)
    );
    assert_eq!(
        low_rank_residual_accepts(
            Iv32::new(i32::MIN, 0).unwrap(),
            0,
            i32::MAX,
            FixedDomain::full(0),
        ),
        Err(NumericError::Overflow)
    );
    assert_eq!(
        low_rank_residual_accepts(
            Iv32::new(0, i32::MAX).unwrap(),
            i32::MAX,
            i32::MAX,
            FixedDomain::full(0),
        ),
        Ok(false)
    );
    assert_eq!(
        low_rank_residual_accepts(Iv32::point(0), -1, 3, domain),
        Err(NumericError::InvalidDomain)
    );
}

#[test]
fn scalar_vector_and_moment_bounds_share_checked_arithmetic() {
    let domain = FixedDomain::full(-8);
    let offset = Iv32::new(-8, 8).unwrap();
    let scalar = evaluate_affine_scalar(
        Iv32::point(128),
        Iv32::point(16),
        Iv32::point(-8),
        offset,
        offset,
        domain,
    )
    .unwrap();
    assert!(scalar.lo <= 128 && scalar.hi >= 128);
    let moments = quadratic_moments(
        Iv32::point(128),
        Iv32::point(16),
        Iv32::point(4),
        Iv32::point(0),
        Iv32::point(8),
        domain,
    )
    .unwrap();
    assert!(moments.mean.lo <= moments.mean.hi);
}

#[test]
fn affine_helpers_give_exact_values_on_points() {
    let unit = FixedDomain::full(0);
    assert_eq!(
        evaluate_affine_scalar(
            Iv32::point(1),
            Iv32::point(2),
            Iv32::point(3),
            Iv32::point(4),
            Iv32::point(5),
            unit
        ),
        Ok(Iv32::point(24))
    );
    let v = Iv3 {
        x: Iv32::point(1),
        y: Iv32::point(2),
        z: Iv32::point(3),
    };
    assert_eq!(
        evaluate_affine_vector(v, v, v, Iv32::point(1), Iv32::point(0), unit),
        Ok(Iv3 {
            x: Iv32::point(2),
            y: Iv32::point(4),
            z: Iv32::point(6)
        })
    );
    let moments = affine_moments(
        Iv32::point(10),
        Iv32::point(2),
        Iv32::point(3),
        Iv32::point(4),
        unit,
    )
    .unwrap();
    assert_eq!(moments.mean, Iv32::point(16));
    assert_eq!(moments.first, Iv32::point(8));
    assert_eq!(moments.second, Iv32::point(0));
    assert_eq!(
        footprint_bound(Iv32::new(-5, 2).unwrap(), Iv32::point(-3), unit),
        Ok(Iv32 { lo: 3, hi: 5 })
    );
}
