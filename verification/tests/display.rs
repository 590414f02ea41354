use pixels_reference::display::{
    color_matrix, endpoint_singleton, exposure, filmic_coordinate_q8, interpolate_u16_fixed,
    monotone_lut, quantize_u8_ties_even, rgb_singleton, round_ratio, validate_monotone_lut,
};
use pixels_reference::iv32::{FixedDomain, Iv32, NumericError};

#[test]
fn ties_are_even_and_crossing_boundaries_are_not_singletons() {
    assert_eq!(quantize_u8_ties_even(3, 0), Ok(3));
    assert_eq!(quantize_u8_ties_even(2, 2), Ok(0));
    assert_eq!(quantize_u8_ties_even(6, 2), Ok(2));
    assert_eq!(endpoint_singleton(Iv32::new(5, 6).unwrap(), 2), Ok(None));
    assert_eq!(endpoint_singleton(Iv32::new(6, 9).unwrap(), 2), Ok(Some(2)));
}

#[test]
fn monotone_interpolation_is_outward() {
    assert_eq!(
        monotone_lut(Iv32::new(1, 3).unwrap(), &[0, 3], 2),
        Ok(Iv32 { lo: 0, hi: 3 })
    );
}

#[test]
fn lut_validation_rejects_decreasing_and_short_tables() {
    assert_eq!(
        validate_monotone_lut(&[0, 2, 1]),
        Err(NumericError::UnsupportedShape)
    );
    assert_eq!(
        validate_monotone_lut(&[2, 1]),
        Err(NumericError::UnsupportedShape)
    );
    assert_eq!(
        validate_monotone_lut(&[7]),
        Err(NumericError::UnsupportedShape)
    );
    assert_eq!(validate_monotone_lut(&[0, 1, 1, 4]), Ok(()));
}

#[test]
fn lut_input_outside_the_table_is_a_domain_mismatch() {
    assert_eq!(
        monotone_lut(Iv32::new(-1, 3).unwrap(), &[0, 3], 2),
        Err(NumericError::DomainMismatch)
    );
    assert_eq!(
        monotone_lut(Iv32::new(0, 5).unwrap(), &[0, 3], 2),
        Err(NumericError::DomainMismatch)
    );
    assert_eq!(
        monotone_lut(Iv32::new(0, 1).unwrap(), &[0, 3], 64),
        Err(NumericError::Overflow)
    );
    // the last entry is reached exactly
    assert_eq!(
        monotone_lut(Iv32::new(4, 4).unwrap(), &[0, 3], 2),
        Ok(Iv32 { lo: 3, hi: 3 })
    );
    // floor for the lower end, ceiling for the upper end
    assert_eq!(
        monotone_lut(Iv32::new(5, 5).unwrap(), &[0, 10, 20], 2),
        Ok(Iv32 { lo: 12, hi: 13 })
    );
}

#[test]
fn quantization_rounds_ties_to_even_and_refuses_overflow() {
    assert_eq!(quantize_u8_ties_even(10, 2), Ok(2));
    assert_eq!(quantize_u8_ties_even(14, 2), Ok(4));
    assert_eq!(quantize_u8_ties_even(11, 2), Ok(3));
    assert_eq!(quantize_u8_ties_even(-1, 2), Err(NumericError::DomainMismatch));
    assert_eq!(quantize_u8_ties_even(1, 31), Err(NumericError::DomainMismatch));
    assert_eq!(quantize_u8_ties_even(256, 0), Err(NumericError::Overflow));
    assert_eq!(quantize_u8_ties_even(1022, 2), Err(NumericError::Overflow));
    assert_eq!(quantize_u8_ties_even(1021, 2), Ok(255));
}

#[test]
fn rgb_is_a_singleton_only_when_every_channel_is() {
    let one = Iv32::new(6, 9).unwrap();
    let split = Iv32::new(5, 6).unwrap();
    assert_eq!(rgb_singleton([one, one, one], 2), Ok(Some([2, 2, 2])));
    assert_eq!(rgb_singleton([one, split, one], 2), Ok(None));
    assert_eq!(
        rgb_singleton([one, Iv32::new(-3, 0).unwrap(), one], 2),
        Err(NumericError::DomainMismatch)
    );
}

#[test]
fn exposure_and_matrix_follow_interval_arithmetic() {
    let domain = FixedDomain::full(0);
    let color = [Iv32::point(1), Iv32::point(2), Iv32::new(3, 4).unwrap()];
    assert_eq!(
        exposure(color, Iv32::point(-2), domain),
        Ok([Iv32::point(-2), Iv32::point(-4), Iv32::new(-8, -6).unwrap()])
    );
    let identity = [
        [Iv32::point(1), Iv32::point(0), Iv32::point(0)],
        [Iv32::point(0), Iv32::point(1), Iv32::point(0)],
        [Iv32::point(0), Iv32::point(0), Iv32::point(1)],
    ];
    assert_eq!(color_matrix(color, identity, domain), Ok(color));
    let sum = [
        [Iv32::point(1), Iv32::point(1), Iv32::point(1)],
        [Iv32::point(0), Iv32::point(0), Iv32::point(0)],
        [Iv32::point(2), Iv32::point(0), Iv32::point(-1)],
    ];
    assert_eq!(
        color_matrix(color, sum, domain),
        Ok([
            Iv32::new(6, 7).unwrap(),
            Iv32::point(0),
            Iv32::new(-2, -1).unwrap()
        ])
    );
    let narrow = FixedDomain::new(0, -5, 5).unwrap();
    assert_eq!(
        exposure(color, Iv32::point(2), narrow),
        Err(NumericError::Overflow)
    );
}

#[test]
fn ratios_round_half_to_even() {
    assert_eq!(round_ratio(7, 2), Ok(4));
    assert_eq!(round_ratio(5, 2), Ok(2));
    assert_eq!(round_ratio(10, 4), Ok(2));
    assert_eq!(round_ratio(11, 4), Ok(3));
    assert_eq!(round_ratio(9, 4), Ok(2));
    assert_eq!(round_ratio(1, 0), Err(NumericError::DomainMismatch));
    assert_eq!(
        round_ratio(1 << 63, (1 << 63) + 1),
        Err(NumericError::Overflow)
    );
}

#[test]
fn fixed_point_table_reads_interpolate_and_check_their_domain() {
    let table = [0u16, 100, 300];
    assert_eq!(interpolate_u16_fixed(&table, 256 + 128, 8), Ok(200));
    assert_eq!(interpolate_u16_fixed(&table, 64, 8), Ok(25));
    assert_eq!(interpolate_u16_fixed(&table, 2 * 256, 8), Ok(300));
    assert_eq!(
        interpolate_u16_fixed(&table, 3 * 256, 8),
        Err(NumericError::DomainMismatch)
    );
    assert_eq!(
        interpolate_u16_fixed(&[5, 4], 0, 8),
        Err(NumericError::UnsupportedShape)
    );
    assert_eq!(interpolate_u16_fixed(&[0, 1], 1, 1), Ok(0));
    assert_eq!(interpolate_u16_fixed(&[1, 2], 1, 1), Ok(2));
}

#[test]
fn filmic_coordinates_follow_the_binary_logarithm() {
    assert_eq!(filmic_coordinate_q8(1.0f32.to_bits()), Ok(Some(524_288)));
    assert_eq!(filmic_coordinate_q8(2.0f32.to_bits()), Ok(Some(557_056)));
    assert_eq!(filmic_coordinate_q8(0.5f32.to_bits()), Ok(Some(491_520)));
    assert_eq!(filmic_coordinate_q8(1.5f32.to_bits()), Ok(Some(524_288 + 19_168)));
    assert_eq!(
        filmic_coordinate_q8(((1u32 << 20) as f32).to_bits()),
        Ok(Some(1_048_576))
    );
    assert_eq!(filmic_coordinate_q8(1), Ok(Some(0)));
    assert_eq!(filmic_coordinate_q8(0x0040_0000), Ok(Some(0)));
    assert_eq!(filmic_coordinate_q8((-1.0f32).to_bits()), Ok(None));
    assert_eq!(filmic_coordinate_q8(0), Ok(None));
    assert_eq!(
        filmic_coordinate_q8(f32::NAN.to_bits()),
        Err(NumericError::DomainMismatch)
    );
    assert_eq!(
        filmic_coordinate_q8(f32::INFINITY.to_bits()),
        Err(NumericError::DomainMismatch)
    );
}

#[test]
fn reversed_lut_input_within_the_table_is_mapped_endpoint_by_endpoint() {
    assert_eq!(
        monotone_lut(Iv32 { lo: 3, hi: 1 }, &[2, 2], 2),
        Ok(Iv32 { lo: 2, hi: 2 })
    );
    assert_eq!(
        monotone_lut(Iv32 { lo: 0, hi: -1 }, &[0, 4], 2),
        Ok(Iv32 { lo: 0, hi: 0 })
    );
    assert_eq!(
        monotone_lut(Iv32 { lo: 0, hi: -4 }, &[0, 4], 2),
        Err(NumericError::Overflow)
    );
}
