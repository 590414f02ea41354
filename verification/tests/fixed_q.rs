use pixels_reference::fixed_q::{
    quantized_nearer, quantized_nearer_raw, recurrence_maximum_abs, seal_setup,
    select_integer_domain, setup, setup_from_integer_coefficients, EnvelopePolicy, QRunScalar,
};
use pixels_reference::iv32::{FixedDomain, Iv32, NumericError};

#[test]
fn recurrence_matches_closed_form_bit_for_bit() {
    let domain = FixedDomain::full(-8);
    let mut run = setup(
        Iv32::point(100),
        Iv32::point(7),
        Iv32::point(-1),
        domain,
        32,
        0,
    )
    .unwrap();
    for n in 1_i32..=32 {
        let expected = 100 + n * 7 + n * (n - 1) / 2 * -1;
        assert_eq!(run.advance().unwrap(), expected);
    }
}

#[test]
fn reset_anchor_matches_scalar_steps() {
    let domain = FixedDomain::full(-8);
    let run = setup(
        Iv32::point(100),
        Iv32::point(7),
        Iv32::point(-1),
        domain,
        32,
        0,
    )
    .unwrap();
    let mut scalar = run;
    for step in 0..=16 {
        assert_eq!(run.reset_at(step).unwrap().q, scalar.q);
        if step != 16 {
            scalar.advance().unwrap();
        }
    }
}

#[test]
fn near_overflow_shrinks_or_fails_explicitly() {
    let domain = FixedDomain::full(0);
    let run = setup(
        Iv32::point(i32::MAX - 20),
        Iv32::point(10),
        Iv32::point(0),
        domain,
        32,
        0,
    );
    assert!(
        matches!(
            run,
            Ok(QRunScalar {
                microtile_width: 1 | 2,
                ..
            })
        ) || run == Err(NumericError::Overflow)
    );
}

#[test]
fn q_order_accounts_for_both_radii() {
    let domain = FixedDomain::full(0);
    let near = setup(
        Iv32::new(99, 101).unwrap(),
        Iv32::point(0),
        Iv32::point(0),
        domain,
        1,
        0,
    )
    .unwrap();
    let far = setup(
        Iv32::new(97, 99).unwrap(),
        Iv32::point(0),
        Iv32::point(0),
        domain,
        1,
        0,
    )
    .unwrap();
    assert!(!quantized_nearer(&near, &far));
}

#[test]
fn setup_widths_radii_and_step_limits_are_exact() {
    let domain = FixedDomain::full(0);
    let run = setup(
        Iv32::new(10, 13).unwrap(),
        Iv32::new(-1, 1).unwrap(),
        Iv32::new(0, 2).unwrap(),
        domain,
        20,
        5,
    )
    .unwrap();
    assert_eq!(run.microtile_width, 16);
    assert_eq!(run.q, 11);
    assert_eq!(run.dq, 0);
    assert_eq!(run.ddq, 1);
    assert_eq!(run.error_radius, 2 + 16 + 120 + 5);
    let mut stepper = run;
    for _ in 0..16 {
        stepper.advance().unwrap();
    }
    assert_eq!(stepper.advance(), Err(NumericError::CapacityExceeded));
    assert_eq!(run.reset_at(16).unwrap().q, stepper.q);
    assert_eq!(run.reset_at(16).unwrap().step, 0);
    assert_eq!(
        setup(Iv32::point(0), Iv32::point(0), Iv32::point(0), domain, 0, 0),
        Err(NumericError::InvalidDomain)
    );
    assert_eq!(
        setup(Iv32::point(0), Iv32::point(0), Iv32::point(0), domain, 4, -1),
        Err(NumericError::InvalidDomain)
    );
    assert_eq!(
        run.reset_at(u32::MAX),
        Err(NumericError::Overflow)
    );
}

#[test]
fn nearer_requires_separation_beyond_both_radii() {
    assert!(quantized_nearer_raw(10, 1, 5, 1));
    assert!(!quantized_nearer_raw(10, 3, 5, 2));
    assert!(!quantized_nearer_raw(10, -1, 5, 0));
    assert!(quantized_nearer_raw(i32::MAX, 0, i32::MIN, 0));
}

#[test]
fn setup_checks_the_first_evolved_delta() {
    assert_eq!(
        setup_from_integer_coefficients(0, i32::MAX, i32::MAX, 1, 0),
        Err(NumericError::Overflow)
    );
}

#[test]
fn integer_setup_selects_and_seals_shared_domain_and_width() {
    let run = setup_from_integer_coefficients(8, -3, 1, 32, 2).unwrap();
    assert!((-96..=63).contains(&run.domain.exponent));
    assert!(run.microtile_width.is_power_of_two());
    assert!(run.microtile_width <= 32);
    assert!(run.error_radius >= 2);
}

#[test]
fn integer_domain_selection_is_the_finest_that_fits() {
    let selected = select_integer_domain(600).unwrap();
    assert_eq!(selected.domain.exponent, -21);
    assert_eq!(selected.maximum_raw, 600 << 21);
    assert_eq!(select_integer_domain(i32::MAX as i64).unwrap().domain.exponent, 0);
    let big = select_integer_domain(1 << 31).unwrap();
    assert_eq!(big.domain.exponent, 1);
    assert_eq!(big.maximum_raw, 1 << 30);
    let widest = select_integer_domain(i64::MAX).unwrap();
    assert_eq!(widest.domain.exponent, 33);
    assert_eq!(widest.maximum_raw, 1 << 30);
    let zero = select_integer_domain(0).unwrap();
    assert_eq!(zero.domain.exponent, -30);
    assert_eq!(zero.maximum_raw, 0);
    assert_eq!(select_integer_domain(-1), Err(NumericError::InvalidDomain));
    assert_eq!(
        setup_from_integer_coefficients(1, 1, 1, 0, 0),
        Err(NumericError::InvalidDomain)
    );
}

#[test]
fn recurrence_peak_covers_every_corner_and_step() {
    assert_eq!(
        recurrence_maximum_abs(Iv32::point(3), Iv32::point(2), Iv32::point(1), 4),
        Ok(17)
    );
    assert_eq!(
        recurrence_maximum_abs(Iv32::point(3), Iv32::point(2), Iv32::point(1), 0),
        Ok(3)
    );
    let q = Iv32::new(-1, 1).unwrap();
    let dq = Iv32::new(-2, 2).unwrap();
    let ddq = Iv32::new(-1, 1).unwrap();
    assert_eq!(recurrence_maximum_abs(q, dq, ddq, 2), Ok(6));
    assert_eq!(
        recurrence_maximum_abs(Iv32::point(i32::MAX), Iv32::point(1), Iv32::point(0), 1),
        Err(NumericError::Overflow)
    );
    assert_eq!(
        recurrence_maximum_abs(Iv32::point(0), Iv32::point(i32::MIN), Iv32::point(0), 0),
        Err(NumericError::Overflow)
    );
}

#[test]
fn sealing_checks_the_policy_promises() {
    let policy = EnvelopePolicy {
        exponent: 0,
        reset_width: 4,
        error_radius: 0,
        maximum_raw: 17,
    };
    let sealed = seal_setup(Iv32::point(3), Iv32::point(2), Iv32::point(1), 4, 0, policy).unwrap();
    assert_eq!(sealed.maximum_raw, 17);
    assert_eq!(sealed.run.microtile_width, 4);
    assert_eq!(sealed.run.domain, FixedDomain::full(0));
    let wrong_peak = EnvelopePolicy {
        maximum_raw: 16,
        ..policy
    };
    assert_eq!(
        seal_setup(Iv32::point(3), Iv32::point(2), Iv32::point(1), 4, 0, wrong_peak),
        Err(NumericError::DomainMismatch)
    );
    let wrong_width = EnvelopePolicy {
        reset_width: 2,
        ..policy
    };
    assert_eq!(
        seal_setup(Iv32::point(3), Iv32::point(2), Iv32::point(1), 4, 0, wrong_width),
        Err(NumericError::DomainMismatch)
    );
    assert_eq!(
        seal_setup(Iv32::point(3), Iv32::point(2), Iv32::point(1), 0, 0, policy),
        Err(NumericError::InvalidDomain)
    );
}
