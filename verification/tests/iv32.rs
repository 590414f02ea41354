use pixels_reference::iv32::{FixedDomain, Iv32, NumericError, MIN_EXPONENT};

fn d() -> FixedDomain {
    FixedDomain::full(-4)
}

#[test]
fn checked_interval_arithmetic_is_outward() {
    assert_eq!(
        Iv32::new(-3, 7).unwrap().add(Iv32::new(2, 9).unwrap(), d()),
        Ok(Iv32 { lo: -1, hi: 16 })
    );
    assert_eq!(
        Iv32::new(-3, 7)
            .unwrap()
            .multiply(Iv32::new(2, 9).unwrap(), d()),
        Ok(Iv32 { lo: -2, hi: 4 })
    );
    assert_eq!(
        Iv32::new(-3, 7).unwrap().square(d()),
        Ok(Iv32 { lo: 0, hi: 4 })
    );
}

#[test]
fn conversion_rounds_outward_for_negative_values() {
    let coarse = FixedDomain::full(-2);
    let fine = FixedDomain::full(-4);
    assert_eq!(
        Iv32::new(-3, 7).unwrap().convert(coarse, fine),
        Ok(Iv32 { lo: -12, hi: 28 })
    );
    assert_eq!(
        Iv32::new(-3, 7).unwrap().convert(fine, coarse),
        Ok(Iv32 { lo: -1, hi: 2 })
    );
}

#[test]
fn f32_conversion_uses_exact_bits_and_rejects_nonfinite() {
    assert_eq!(
        Iv32::from_f32_bits(0.5_f32.to_bits(), 1, d()),
        Ok(Iv32 { lo: 7, hi: 9 })
    );
    assert_eq!(
        Iv32::from_f32_bits(f32::INFINITY.to_bits(), 0, d()),
        Err(NumericError::NonFinite)
    );
    assert_eq!(
        Iv32::from_f32_bits(0, 0, FixedDomain::full(100)),
        Err(NumericError::InvalidDomain)
    );
    assert_eq!(
        Iv32::from_f32_bits(1, 0, FixedDomain::full(-96)),
        Ok(Iv32::new(0, 1).unwrap())
    );
}

#[test]
fn every_i8_interval_and_point_pair_matches_integer_model() {
    let domain = FixedDomain {
        exponent: 0,
        min_raw: i32::MIN,
        max_raw: i32::MAX,
    };
    for lo in i8::MIN..=i8::MAX {
        for hi in lo..=i8::MAX {
            let a = Iv32::new(i32::from(lo), i32::from(hi)).unwrap();
            assert_eq!(a.negate(domain).unwrap().lo, -i32::from(hi));
            assert_eq!(
                a.abs(domain).unwrap().hi,
                i32::from(lo).abs().max(i32::from(hi).abs())
            );
            assert_eq!(a.square(domain).unwrap().lo >= 0, true);
            assert_eq!(a.hull(a, domain), Ok(a));
            assert_eq!(a.intersect(a, domain), Ok(Some(a)));
        }
    }
    for left in i8::MIN..=i8::MAX {
        for right in i8::MIN..=i8::MAX {
            let a = Iv32::point(i32::from(left));
            let b = Iv32::point(i32::from(right));
            assert_eq!(
                a.add(b, domain),
                Ok(Iv32::point(i32::from(left) + i32::from(right)))
            );
            assert_eq!(
                a.subtract(b, domain),
                Ok(Iv32::point(i32::from(left) - i32::from(right)))
            );
            assert_eq!(
                a.multiply(b, domain),
                Ok(Iv32::point(i32::from(left) * i32::from(right)))
            );
            assert_eq!(
                a.min(b, domain),
                Ok(Iv32::point(i32::from(left.min(right))))
            );
            assert_eq!(
                a.max(b, domain),
                Ok(Iv32::point(i32::from(left.max(right))))
            );
            assert_eq!(
                a.hull(b, domain),
                Iv32::new(i32::from(left.min(right)), i32::from(left.max(right)))
            );
            assert_eq!(a.intersect(b, domain), Ok((left == right).then_some(a)));
        }
    }
}

#[test]
fn scale_pow2_covers_v1_exponent_boundaries() {
    let domain = FixedDomain::full(0);
    for shift in [-96, -63, 30, 31, 63] {
        let expected = match shift {
            -96 | -63 => Ok(Iv32::new(0, 1).unwrap()),
            30 => Ok(Iv32::new(0, 1 << 30).unwrap()),
            31 | 63 => Err(NumericError::Overflow),
            _ => unreachable!(),
        };
        assert_eq!(Iv32::new(0, 1).unwrap().scale_pow2(shift, domain), expected);
    }
    assert_eq!(Iv32::point(0).scale_pow2(63, domain), Ok(Iv32::point(0)));
}

#[test]
fn restricted_domains_reject_results_outside_the_sealed_raw_range() {
    let domain = FixedDomain::new(0, -100, 100).unwrap();
    assert_eq!(
        Iv32::point(100).add(Iv32::point(1), domain),
        Err(NumericError::Overflow)
    );
    assert_eq!(
        Iv32::point(99).add(Iv32::point(1), domain),
        Ok(Iv32::point(100))
    );
    assert_eq!(
        FixedDomain::new(64, -100, 100),
        Err(NumericError::InvalidDomain)
    );
    assert_eq!(FixedDomain::new(0, 1, -1), Err(NumericError::InvalidDomain));
}

#[test]
fn scale_pow2_supports_the_full_shared_i16_shift_domain() {
    let domain = FixedDomain::full(0);
    assert_eq!(
        Iv32::new(0, 1).unwrap().scale_pow2(-159, domain).unwrap(),
        Iv32::new(0, 1).unwrap()
    );
    assert_eq!(Iv32::point(0).scale_pow2(127, domain), Ok(Iv32::point(0)));
    assert_eq!(
        Iv32::point(0).scale_pow2(128, domain),
        Err(NumericError::Overflow)
    );
    assert_eq!(
        Iv32::point(-1).scale_pow2(31, domain),
        Ok(Iv32::point(i32::MIN))
    );
}

#[test]
fn errors_never_saturate_or_wrap() {
    let point = Iv32::point(i32::MAX);
    assert_eq!(
        point.add(Iv32::point(1), FixedDomain::full(0)),
        Err(NumericError::Overflow)
    );
    assert_eq!(
        Iv32::point(i32::MIN).negate(FixedDomain::full(0)),
        Err(NumericError::Overflow)
    );
    assert_eq!(
        FixedDomain::full(MIN_EXPONENT - 1).validate(),
        Err(NumericError::InvalidDomain)
    );
    assert_eq!(
        Iv32::point(i32::MAX).scale_pow2(40, FixedDomain::full(0)),
        Err(NumericError::Overflow)
    );
    assert_eq!(
        Iv32::point(i32::MAX).convert(FixedDomain::full(40), FixedDomain::full(0)),
        Err(NumericError::Overflow)
    );
}
