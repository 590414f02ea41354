use pixels_reference::iv32::{FixedDomain, Iv32, NumericError};
use pixels_reference::poly::{exact_quadratic_range, Quadratic2, 
    compose_univariate, evaluate_sparse, Bernstein, CoefficientSign, Polynomial, SignVariation,
    SparseTerm, MAX_COEFFICIENTS, MAX_SPARSE_TERMS,
};

fn d() -> FixedDomain {
    FixedDomain::full(0)
}

#[test]
fn horner_and_derivative_are_checked() {
    let polynomial = Polynomial::new(&[Iv32::point(1), Iv32::point(2), Iv32::point(3)]).unwrap();
    assert_eq!(polynomial.evaluate(Iv32::point(2), d()), Ok(Iv32::point(17)));
    assert_eq!(
        polynomial.derivative(d()).unwrap().coefficients[..2],
        [Iv32::point(2), Iv32::point(6)]
    );
}

#[test]
fn bernstein_subdivision_preserves_endpoints_and_sign() {
    let polynomial = Polynomial::new(&[Iv32::point(1), Iv32::point(2), Iv32::point(1)]).unwrap();
    let bernstein = polynomial.to_bernstein(d()).unwrap();
    assert_eq!(bernstein.sign(), CoefficientSign::StrictPositive);
    let (left, right) = bernstein.subdivide_half(d()).unwrap();
    assert_eq!(left.coefficients[0], bernstein.coefficients[0]);
    assert_eq!(
        right.coefficients[usize::from(right.degree)],
        bernstein.coefficients[usize::from(bernstein.degree)]
    );
}

#[test]
fn sign_variation_is_fail_closed_on_uncertain_coefficient() {
    let mut coefficients = [Iv32::point(1); MAX_COEFFICIENTS];
    coefficients[1] = Iv32::new(-1, 1).unwrap();
    let polynomial = Bernstein {
        coefficients,
        degree: 2,
    };
    assert_eq!(polynomial.sign_variations(), SignVariation::Inconclusive);
}

#[test]
fn sparse_shape_is_bounded() {
    let terms = vec![
        SparseTerm {
            coefficient: Iv32::point(1),
            powers: [0; 4],
        };
        MAX_SPARSE_TERMS + 1
    ];
    assert_eq!(
        evaluate_sparse(&terms, [Iv32::point(0); 4], d()),
        Err(NumericError::UnsupportedShape)
    );
}

#[test]
fn checked_composition_contains_direct_evaluation() {
    let outer = Polynomial::new(&[Iv32::point(1), Iv32::point(2), Iv32::point(1)]).unwrap();
    let candidate = Polynomial::new(&[Iv32::point(1), Iv32::point(1)]).unwrap();
    let composed = compose_univariate(outer, candidate, d()).unwrap();
    assert_eq!(
        composed.coefficients[..=2],
        [Iv32::point(4), Iv32::point(4), Iv32::point(1)]
    );
    assert_eq!(
        composed.evaluate(Iv32::point(2), d()),
        outer.evaluate(candidate.evaluate(Iv32::point(2), d()).unwrap(), d())
    );
}

#[test]
fn quadratic_range_finds_edge_extremum_missed_by_corners_and_center() {
    // (4u - 1)^2 has its minimum at u=1/4.
    let range = exact_quadratic_range(
        Quadratic2 {
            c: 1,
            bu: -8,
            bv: 0,
            buu: 16,
            buv: 0,
            bvv: 0,
        },
        FixedDomain::full(0),
    )
    .unwrap();
    assert_eq!(range, Iv32 { lo: 0, hi: 9 });
}

#[test]
fn quadratic_range_rejects_a_coupled_schedule_outside_the_shared_i64_envelope() {
    assert_eq!(
        exact_quadratic_range(
            Quadratic2 {
                c: 0,
                bu: 0,
                bv: 1_500_000_000,
                buu: 0,
                buv: 1_500_000_000,
                bvv: -2_000_000_000,
            },
            FixedDomain::full(0),
        ),
        Err(NumericError::Overflow)
    );
}

#[test]
fn quadratic_range_contains_dense_deterministic_grid() {
    let cases = [
        Quadratic2 {
            c: 7,
            bu: -11,
            bv: 5,
            buu: 9,
            buv: -13,
            bvv: 6,
        },
        Quadratic2 {
            c: -3,
            bu: 4,
            bv: -8,
            buu: 0,
            buv: 7,
            bvv: 0,
        },
    ];
    for quadratic in cases {
        let range = exact_quadratic_range(quadratic, FixedDomain::full(0)).unwrap();
        for u in 0..=64_i64 {
            for v in 0..=64_i64 {
                let denominator = 64_i128 * 64;
                let numerator = i128::from(quadratic.c) * denominator
                    + i128::from(quadratic.bu) * i128::from(u) * 64
                    + i128::from(quadratic.bv) * i128::from(v) * 64
                    + i128::from(quadratic.buu) * i128::from(u * u)
                    + i128::from(quadratic.buv) * i128::from(u * v)
                    + i128::from(quadratic.bvv) * i128::from(v * v);
                assert!(i128::from(range.lo) * denominator <= numerator);
                assert!(numerator <= i128::from(range.hi) * denominator);
            }
        }
    }
}

#[test]
fn quadratic_range_reports_domain_and_interior_extremes() {
    assert_eq!(
        exact_quadratic_range(
            Quadratic2 {
                c: 0,
                bu: 0,
                bv: 0,
                buu: 0,
                buv: 0,
                bvv: 0,
            },
            FixedDomain {
                exponent: 0,
                min_raw: 1,
                max_raw: 0,
            },
        ),
        Err(NumericError::InvalidDomain)
    );
    // 4(u - 1/2)^2 + 4(v - 1/2)^2 - 2 has its minimum -2 at the centre.
    assert_eq!(
        exact_quadratic_range(
            Quadratic2 {
                c: 0,
                bu: -4,
                bv: -4,
                buu: 4,
                buv: 0,
                bvv: 4,
            },
            FixedDomain::full(0),
        ),
        Ok(Iv32 { lo: -2, hi: 0 })
    );
}

#[test]
fn composition_is_refused_only_above_degree_eight() {
    let one = Iv32::point(1);
    let outer = Polynomial::new(&[one, one, one]).unwrap();
    let candidate = Polynomial::new(&[one, one, one, one]).unwrap();
    let composed = compose_univariate(outer, candidate, d()).unwrap();
    assert_eq!(composed.degree, 6);
    let expected: Vec<Iv32> = [3, 3, 4, 5, 3, 2, 1].iter().map(|&v| Iv32::point(v)).collect();
    assert_eq!(composed.coefficients[..=6], expected[..]);
    let cubic = Polynomial::new(&[one, one, one, one]).unwrap();
    assert_eq!(
        compose_univariate(cubic, candidate, d()),
        Err(NumericError::UnsupportedShape)
    );
}
