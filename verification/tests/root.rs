use pixels_reference::iv32::{FixedDomain, Iv32};
use pixels_reference::poly::{Bernstein, Polynomial, MAX_COEFFICIENTS};
use pixels_reference::root::{isolate_all_roots, isolate_roots, RootEvaluator, RootOutcome, RootReason};

fn d8() -> FixedDomain {
    FixedDomain::full(-8)
}

fn isolate(coefficients: &[i32]) -> RootOutcome {
    let polynomial = Polynomial::new(
        &coefficients
            .iter()
            .copied()
            .map(|value| Iv32::point(value.checked_mul(256).unwrap()))
            .collect::<Vec<_>>(),
    )
    .unwrap()
    .to_bernstein(d8())
    .unwrap();
    isolate_all_roots(polynomial, Iv32::new(0, 256).unwrap(), d8(), 1, 12, 16).unwrap()
}

#[test]
fn plane_and_no_root_are_complete() {
    let outcome = isolate(&[-1, 2]);
    let RootOutcome::Roots { count, .. } = outcome else {
        panic!("plane root must isolate: {outcome:?}");
    };
    assert_eq!(count, 1);
    assert_eq!(isolate(&[1, 1]), RootOutcome::CertifiedNone);
}

#[test]
fn tangent_is_a_corridor_never_a_miss() {
    let outcome = isolate(&[1, -2, 1]);
    let RootOutcome::Roots { roots, count } = outcome else {
        panic!("tangent root must remain represented: {outcome:?}");
    };
    assert!(count >= 1);
    assert!(roots[..usize::from(count)].iter().any(|root| !root.unique));
}

#[test]
fn torus_like_multi_root_and_close_roots_are_complete() {
    for coefficients in [&[24, -250, 875, -1250, 625][..], &[20, -90, 100][..]] {
        let outcome = isolate(coefficients);
        let RootOutcome::Roots { roots, count } = outcome else {
            panic!("multi-root polynomial must isolate or retain corridors: {outcome:?}");
        };
        assert!(count >= 2);
        assert!(roots[..usize::from(count)]
            .windows(2)
            .all(|pair| pair[0].interval.lo >= pair[1].interval.lo));
    }
}

#[test]
fn positive_leaf_sublevel_boundary_is_not_confused_with_a_leaf_zero() {
    assert_eq!(isolate(&[1, 1]), RootOutcome::CertifiedNone);
    let RootOutcome::Roots { count, .. } = isolate(&[-1, 1]) else {
        panic!("leaf-support boundary must isolate");
    };
    assert!(count >= 1);
}

#[test]
fn distinct_roots_straddling_a_midpoint_are_never_merged() {
    let outcome = isolate(&[262_143, -1_048_576, 1_048_576]);
    let RootOutcome::Roots { roots, count } = outcome else {
        panic!("close roots must remain explicit: {outcome:?}");
    };
    assert_eq!(count, 2);
    assert!(roots[0].unique && roots[1].unique);
    assert_ne!(roots[0].interval, roots[1].interval);
}

#[test]
fn tolerance_cell_with_multiple_variations_is_never_one_complete_root() {
    let mut coefficients = [Iv32::point(0); MAX_COEFFICIENTS];
    coefficients[..3].copy_from_slice(&[Iv32::point(3), Iv32::point(-5), Iv32::point(3)]);
    let polynomial = Bernstein {
        coefficients,
        degree: 2,
    };
    let outcome = isolate_all_roots(
        polynomial,
        Iv32::new(0, 1).unwrap(),
        FixedDomain::full(0),
        1,
        1,
        16,
    )
    .unwrap();
    assert_eq!(outcome, RootOutcome::Unresolved(RootReason::NoProgress));
}

#[test]
fn endpoint_root_plus_interior_variation_is_never_one_unique_root() {
    let mut coefficients = [Iv32::point(0); MAX_COEFFICIENTS];
    coefficients[..3].copy_from_slice(&[Iv32::point(0), Iv32::point(-1), Iv32::point(1)]);
    let outcome = isolate_all_roots(
        Bernstein {
            coefficients,
            degree: 2,
        },
        Iv32::new(0, 1).unwrap(),
        FixedDomain::full(0),
        1,
        1,
        16,
    )
    .unwrap();
    assert_eq!(outcome, RootOutcome::Unresolved(RootReason::NoProgress));
}

#[test]
fn odd_width_domain_uses_the_exact_integer_split_ratio() {
    let mut coefficients = [Iv32::point(0); MAX_COEFFICIENTS];
    coefficients[0] = Iv32::point(-2);
    coefficients[1] = Iv32::point(3);
    let outcome = isolate_all_roots(
        Bernstein {
            coefficients,
            degree: 1,
        },
        Iv32::new(0, 3).unwrap(),
        FixedDomain::full(0),
        1,
        8,
        16,
    )
    .unwrap();
    let RootOutcome::Roots { roots, count } = outcome else {
        panic!("odd-width root must remain enclosed: {outcome:?}");
    };
    assert!(count >= 1);
    assert!(roots[..usize::from(count)]
        .iter()
        .any(|root| root.interval.lo <= 1 && root.interval.hi >= 2));
}

#[test]
fn capacity_failure_never_returns_a_partial_complete_list() {
    let polynomial = Polynomial::new(&[Iv32::point(0), Iv32::point(-1), Iv32::point(1)])
        .unwrap()
        .to_bernstein(d8())
        .unwrap();
    assert!(matches!(
        isolate_all_roots(polynomial, Iv32::new(0, 256).unwrap(), d8(), 1, 12, 1).unwrap(),
        RootOutcome::Unresolved(RootReason::CapacityRoots)
    ));
}

#[test]
fn identically_zero_polynomial_is_an_unresolved_corridor() {
    let polynomial = Polynomial::new(&[Iv32::point(0), Iv32::point(0), Iv32::point(0)])
        .unwrap()
        .to_bernstein(d8())
        .unwrap();
    assert_eq!(
        isolate_all_roots(polynomial, Iv32::new(0, 256).unwrap(), d8(), 1, 12, 16),
        Ok(RootOutcome::Unresolved(RootReason::DegenerateZero))
    );
}

#[test]
fn interval_taylor_fallback_is_complete_without_claiming_uniqueness() {
    let polynomial = Polynomial::new(&[Iv32::point(-1), Iv32::point(1)]).unwrap();
    let outcome = isolate_roots(
        RootEvaluator::IntervalTaylor {
            polynomial,
            remainder: Iv32::point(0),
        },
        Iv32::new(0, 2).unwrap(),
        FixedDomain::full(0),
        1,
        4,
        16,
    )
    .unwrap();
    let RootOutcome::Roots { roots, count } = outcome else {
        panic!("Taylor fallback must retain the crossing: {outcome:?}");
    };
    assert!(count >= 1);
    assert!(roots[..usize::from(count)].iter().all(|root| !root.unique));

    let excluded = Polynomial::new(&[Iv32::point(5)]).unwrap();
    assert_eq!(
        isolate_roots(
            RootEvaluator::IntervalTaylor {
                polynomial: excluded,
                remainder: Iv32::new(-1, 1).unwrap(),
            },
            Iv32::new(0, 2).unwrap(),
            FixedDomain::full(0),
            1,
            4,
            16,
        ),
        Ok(RootOutcome::CertifiedNone)
    );
}

#[test]
fn interval_taylor_numeric_failure_is_not_a_negative_proof() {
    let polynomial = Polynomial::new(&[Iv32::point(0), Iv32::point(i32::MAX)]).unwrap();
    assert_eq!(
        isolate_roots(
            RootEvaluator::IntervalTaylor {
                polynomial,
                remainder: Iv32::point(0),
            },
            Iv32::new(i32::MAX - 1, i32::MAX).unwrap(),
            FixedDomain::full(0),
            1,
            4,
            16,
        ),
        Ok(RootOutcome::Unresolved(RootReason::Numeric))
    );
}
