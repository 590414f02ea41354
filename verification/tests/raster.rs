use pixels_reference::coverage::{half_plane_byte, BoundaryOwner, HalfPlane};
use pixels_reference::iv32::{FixedDomain, Iv32};
use pixels_reference::raster::{
    debug_identity_bgra, lower_certified_run, lower_certified_runs, raster_event_pixel,
    f32_fma_bits, raster_run4, raster_run_scalar, singleton_coverage_byte, EventPixel,
    OutputProofCode, ScanoutTile, TilePool, F32_CANONICAL_NAN, TILE_BYTES, TILE_STRIDE,
};
use pixels_reference::sweep::{
    CertifiedRun, IdentitySetId, NormalModel, ProofMarginKind, QModel, SweepError,
};

fn certified(x0: u16, x1: u16, visible: bool) -> CertifiedRun {
    CertifiedRun {
        x0,
        x1,
        visible: visible.then_some(0),
        sheet_count: u16::from(visible),
        q_model: QModel {
            q0: Iv32::point(100),
            qx: Iv32::point(3),
            qxx: Iv32::point(1),
        },
        q_error: Iv32::point(0),
        q_u: Iv32::new(11, 15).unwrap(),
        q_v: Iv32::new(-9, -3).unwrap(),
        root_slack: Iv32::point(1),
        q_order_slack: Iv32::point(1),
        identity: IdentitySetId(7),
        normal_model: NormalModel {
            nx: Iv32::point(1000),
            ny: Iv32::point(-1000),
            nz: Iv32::point(1),
        },
        proof_owner: ProofMarginKind::Root,
        ..CertifiedRun::default()
    }
}

#[test]
fn lowering_preserves_half_open_domain_and_discards_proof_arrays() {
    let lowered = lower_certified_run(certified(3, 19, true), FixedDomain::full(0), 2, 4).unwrap();
    assert_eq!((lowered.x0, lowered.x1), (3, 19));
    assert_eq!(lowered.material_summary, 2);
    assert_eq!(lowered.light_summary, 4);
    assert!(lowered.proof_code.contains(OutputProofCode::GEOMETRY));
    assert_eq!(lowered.q_u.value, 13);
    assert_eq!(lowered.q_u.error_radius, 2);
    assert_eq!(lowered.q_v.value, -6);
    assert_eq!(lowered.q_v.error_radius, 3);
}

#[test]
fn scalar_and_packet_paths_match_with_prefix_suffix_and_reset() {
    for (x0, x1) in [(0, 1), (1, 3), (3, 7), (0, 16), (7, 15)] {
        let run = lower_certified_run(certified(x0, x1, true), FixedDomain::full(0), 0, 0).unwrap();
        let mut scalar = [0_u8; TILE_BYTES];
        let mut packet = [0_u8; TILE_BYTES];
        raster_run_scalar(&run, 0, 0, 0, 64, 1, &mut scalar).unwrap();
        raster_run4(&run, 0, 0, 0, 64, 1, &mut packet).unwrap();
        assert_eq!(packet, scalar, "domain [{x0},{x1})");
    }
}

#[test]
fn scalar_and_packet_paths_encode_nonzero_q_width_in_blue() {
    let mut source = certified(1, 9, true);
    source.q_model.q0 = Iv32::new(100, 103).unwrap();
    let run = lower_certified_run(source, FixedDomain::full(0), 0, 0).unwrap();
    let mut scalar = [0_u8; TILE_BYTES];
    let mut packet = [0_u8; TILE_BYTES];
    raster_run_scalar(&run, 0, 0, 0, 64, 1, &mut scalar).unwrap();
    raster_run4(&run, 0, 0, 0, 64, 1, &mut packet).unwrap();
    assert_eq!(packet, scalar);
    assert_eq!(&scalar[4..8], &[132, 7, 0, 255]);
}

#[test]
fn long_runs_split_into_independently_anchored_fixed_q_records() {
    let mut output =
        [lower_certified_run(certified(0, 1, true), FixedDomain::full(0), 0, 0).unwrap(); 4];
    let count = lower_certified_runs(
        certified(0, 64, true),
        FixedDomain::full(0),
        0,
        0,
        &mut output,
    )
    .unwrap();
    assert_eq!(count, 2);
    assert_eq!((output[0].x0, output[0].x1), (0, 32));
    assert_eq!((output[1].x0, output[1].x1), (32, 64));
    assert_eq!(output[1].q.q, 100 + 32 * 3 + 32 * 31 / 2);
}

#[test]
fn event_requires_a_singleton_encoded_byte_and_writes_alpha_255() {
    let mut bytes = [0_u8; TILE_BYTES];
    let event = EventPixel {
        x: 4,
        coverage: Iv32::point(128),
        front_run: 0,
        back_run: 1,
        first_event: 3,
        event_count: 2,
    };
    raster_event_pixel(
        event,
        &[1, 4, 9, 12, 20],
        0,
        0,
        0,
        64,
        1,
        [20, 40, 60, 255],
        [0, 0, 0, 255],
        &mut bytes,
    )
    .unwrap();
    assert_eq!(&bytes[16..20], &[10, 20, 30, 255]);
    let ambiguous = EventPixel {
        coverage: Iv32::new(127, 129).unwrap(),
        ..event
    };
    assert_eq!(
        raster_event_pixel(
            ambiguous,
            &[1, 4, 9, 12, 20],
            0,
            0,
            0,
            64,
            1,
            [20, 40, 60, 255],
            [0, 0, 0, 255],
            &mut bytes,
        ),
        Err(SweepError::CertificateExhausted)
    );

    let byte_207 = EventPixel {
        coverage: Iv32::point((207 * 256 + 127) / 255),
        ..event
    };
    raster_event_pixel(
        byte_207,
        &[1, 4, 9, 12, 20],
        0,
        0,
        0,
        64,
        1,
        [255, 0, 0, 255],
        [0, 0, 0, 255],
        &mut bytes,
    )
    .unwrap();
    assert_eq!(bytes[16], 207);
    assert_eq!(
        raster_event_pixel(
            EventPixel {
                first_event: 4,
                event_count: 2,
                ..event
            },
            &[1, 4, 9, 12, 20],
            0,
            0,
            0,
            64,
            1,
            [255, 0, 0, 255],
            [0, 0, 0, 255],
            &mut bytes,
        ),
        Err(SweepError::InternalInvariant)
    );
}

#[test]
fn high_contrast_diagonal_geometry_silhouette_matches_exact_host_area() {
    let coverage = half_plane_byte(
        HalfPlane {
            a: 32,
            b: -32,
            c: -11,
        },
        BoundaryOwner::LowerOrLeft,
    )
    .expect("exact diagonal area");
    assert_eq!(coverage, 55);
    let mut bytes = [0_u8; TILE_BYTES];
    raster_event_pixel(
        EventPixel {
            x: 7,
            coverage: Iv32::point(i32::from((u16::from(coverage) * 256 + 127) / 255)),
            front_run: 0,
            back_run: 1,
            first_event: 0,
            event_count: 1,
        },
        &[41],
        0,
        0,
        0,
        64,
        1,
        [255, 0, 0, 255],
        [0, 0, 0, 255],
        &mut bytes,
    )
    .expect("certified silhouette raster");
    assert_eq!(&bytes[28..32], &[coverage, 0, 0, 255]);
}

#[test]
fn guest_coverage_codes_round_trip_every_byte_including_regressions() {
    for byte in 0_u16..=255 {
        let raw = i32::from((byte * 256 + 127) / 255);
        assert_eq!(
            singleton_coverage_byte(Iv32::point(raw)).unwrap(),
            byte as u8
        );
    }
    for byte in [207_u16, 225] {
        let raw = i32::from((byte * 256 + 127) / 255);
        assert_eq!(
            singleton_coverage_byte(Iv32::point(raw)).unwrap(),
            byte as u8
        );
    }
}

#[test]
fn partial_tile_padding_stays_zero_and_addresses_are_bounded() {
    let mut tile = ScanoutTile::new(0, 64, 32, 3, 2).unwrap();
    let mut runs =
        [lower_certified_run(certified(64, 65, true), FixedDomain::full(0), 0, 0).unwrap(); 2];
    let count = lower_certified_runs(
        certified(64, 67, true),
        FixedDomain::full(0),
        0,
        0,
        &mut runs,
    )
    .unwrap();
    for run in &runs[..count] {
        raster_run4(run, 64, 32, 32, 3, 2, &mut tile.bytes).unwrap();
    }
    assert!(tile.padding_is_zero());
    assert_eq!(tile.bytes[3], 255);
    assert_eq!(tile.bytes[3 * 4..TILE_STRIDE], [0; TILE_STRIDE - 12]);
}

#[test]
fn failed_frame_keeps_front_and_success_rotates_only_after_present() {
    let mut pool = TilePool::default();
    pool.present_succeeded(1, 0).unwrap();
    assert_eq!(pool.front(), Some(1));
    assert_eq!(pool.back(), 0);
    pool.fail_frame().unwrap();
    assert_eq!(pool.front(), Some(1));
    assert_eq!(pool.next_sequence(), 1);
    pool.present_succeeded(0, 1).unwrap();
    assert_eq!(pool.front(), Some(0));
    assert_eq!(pool.back(), 1);
}

#[test]
fn present_refuses_the_front_generation_and_a_stale_sequence() {
    let mut pool = TilePool::default();
    assert_eq!(
        pool.present_succeeded(0, 0),
        Err(SweepError::InternalInvariant)
    );
    assert_eq!(
        pool.present_succeeded(1, 5),
        Err(SweepError::InternalInvariant)
    );
    assert_eq!(pool.front(), None);
    assert_eq!(pool.back(), 1);
    pool.present_succeeded(1, 0).unwrap();
    assert_eq!(
        pool.present_succeeded(1, 1),
        Err(SweepError::InternalInvariant)
    );
}

#[test]
fn background_identity_is_opaque_black_and_identity_is_scaled() {
    assert_eq!(
        debug_identity_bgra(IdentitySetId(0x1234), OutputProofCode(15), 255, 3),
        [0, 0, 0, 255]
    );
    assert_eq!(
        debug_identity_bgra(IdentitySetId(0x1234), OutputProofCode(7), 255, 3),
        [132, 0x34, 0x12, 255]
    );
    // half coverage rounds each channel to nearest
    assert_eq!(
        debug_identity_bgra(IdentitySetId(0x1234), OutputProofCode(7), 128, 200),
        [128, 26, 9, 255]
    );
}

#[test]
fn lowering_refuses_events_wide_runs_and_exhausted_microtiles() {
    let mut with_event = certified(0, 4, true);
    with_event.event_left = Some(1);
    assert_eq!(
        lower_certified_run(with_event, FixedDomain::full(0), 0, 0),
        Err(SweepError::InternalInvariant)
    );
    assert_eq!(
        lower_certified_run(certified(0, 300, true), FixedDomain::full(0), 0, 0),
        Err(SweepError::CapacityExceeded)
    );
    assert_eq!(
        lower_certified_run(certified(0, 40, true), FixedDomain::full(0), 0, 0),
        Err(SweepError::CertificateExhausted)
    );
    let background = lower_certified_run(certified(0, 4, false), FixedDomain::full(0), 0, 0)
        .unwrap();
    assert_eq!(background.proof_code, OutputProofCode(15));
    let mut one_slot =
        [lower_certified_run(certified(0, 1, true), FixedDomain::full(0), 0, 0).unwrap(); 1];
    assert_eq!(
        lower_certified_runs(certified(0, 40, true), FixedDomain::full(0), 0, 0, &mut one_slot),
        Err(SweepError::CapacityExceeded)
    );
}

#[test]
fn destination_outside_the_visible_window_is_refused() {
    let run = lower_certified_run(certified(3, 7, true), FixedDomain::full(0), 0, 0).unwrap();
    let mut bytes = [0_u8; TILE_BYTES];
    assert_eq!(
        raster_run_scalar(&run, 0, 0, 1, 64, 1, &mut bytes),
        Err(SweepError::InternalInvariant)
    );
    assert_eq!(
        raster_run4(&run, 4, 0, 0, 64, 1, &mut bytes),
        Err(SweepError::InternalInvariant)
    );
    assert_eq!(bytes, [0_u8; TILE_BYTES]);
}

#[test]
fn integer_mantissa_fma_matches_hardware_fusion_bit_for_bit() {
    let pinned = [
        (0x3f80_0001, 0x3f7f_ffff, 0xbf80_0000),
        (0x0080_0000, 0x3f00_0000, 0x0000_0001),
        (0x7f7f_ffff, 0x3f80_0001, 0xff7f_ffff),
        (0x8000_0000, 0x3f80_0000, 0x8000_0000),
        (0x7fc1_2345, 0x3f80_0000, 0x0000_0000),
        (0x7f80_0001, 0x3f80_0000, 0x0000_0000),
        (0x3f80_0000, 0x7fc1_2345, 0x0000_0000),
        (0x3f80_0000, 0x3f80_0000, 0x7f80_0001),
    ];
    for (a, b, c) in pinned {
        let expected = f32::from_bits(a).mul_add(f32::from_bits(b), f32::from_bits(c));
        let actual = f32::from_bits(f32_fma_bits(a, b, c));
        if expected.is_nan() {
            assert_eq!(actual.to_bits(), F32_CANONICAL_NAN);
        } else {
            assert_eq!(
                actual.to_bits(),
                expected.to_bits(),
                "{a:08x} {b:08x} {c:08x}"
            );
        }
    }

    let mut state = 0x8f4d_3a29_17c6_b5e1_u64;
    for _ in 0..100_000 {
        let mut next = || {
            state = state
                .wrapping_mul(6_364_136_223_846_793_005)
                .wrapping_add(1);
            (state >> 32) as u32
        };
        let (a, b, c) = (next(), next(), next());
        let expected = f32::from_bits(a).mul_add(f32::from_bits(b), f32::from_bits(c));
        let actual = f32::from_bits(f32_fma_bits(a, b, c));
        if expected.is_nan() {
            assert_eq!(
                actual.to_bits(),
                F32_CANONICAL_NAN,
                "{a:08x} {b:08x} {c:08x}"
            );
        } else {
            assert_eq!(
                actual.to_bits(),
                expected.to_bits(),
                "{a:08x} {b:08x} {c:08x}"
            );
        }
    }
}

#[test]
fn fma_special_values_follow_the_ieee_rules() {
    // inf * 0 and opposing infinities are NaN
    assert_eq!(f32_fma_bits(0x7f80_0000, 0x0000_0000, 0), F32_CANONICAL_NAN);
    assert_eq!(
        f32_fma_bits(0x7f80_0000, 0x3f80_0000, 0xff80_0000),
        F32_CANONICAL_NAN
    );
    // infinite product keeps its sign
    assert_eq!(f32_fma_bits(0xff80_0000, 0x3f80_0000, 0), 0xff80_0000);
    // infinite addend is returned unchanged
    assert_eq!(f32_fma_bits(0x3f80_0000, 0x3f80_0000, 0xff80_0000), 0xff80_0000);
    // exact cancellation gives +0; two negative zero terms give -0
    assert_eq!(f32_fma_bits(0x3f80_0000, 0x3f80_0000, 0xbf80_0000), 0);
    assert_eq!(f32_fma_bits(0x8000_0000, 0x3f80_0000, 0x8000_0000), 0x8000_0000);
    // 1 * 1 + 1 = 2 exactly; overflow rounds to infinity
    assert_eq!(f32_fma_bits(0x3f80_0000, 0x3f80_0000, 0x3f80_0000), 0x4000_0000);
    assert_eq!(f32_fma_bits(0x7f7f_ffff, 0x4000_0000, 0), 0x7f80_0000);
}

#[test]
fn fma_sticky_bits_decide_ties_far_below_the_significand() {
    let near_one = 0x3f80_0800;
    assert_eq!(f32_fma_bits(near_one, near_one, 0), 0x3f80_1000);
    assert_eq!(f32_fma_bits(near_one, near_one, 0x0000_0200), 0x3f80_1001);
    assert_eq!(f32_fma_bits(near_one, near_one, 0x8000_0200), 0x3f80_1000);
    for addend in [0u32, 0x0000_0200, 0x8000_0200] {
        let hardware = f32::from_bits(near_one)
            .mul_add(f32::from_bits(near_one), f32::from_bits(addend))
            .to_bits();
        assert_eq!(f32_fma_bits(near_one, near_one, addend), hardware);
    }
}

#[test]
fn exact_zero_product_far_above_a_subnormal_addend_leaves_the_addend() {
    let large = 0x7f00_0000_u32;
    assert_eq!(f32_fma_bits(0, large, 1), 1);
    assert_eq!(f32_fma_bits(large, 0x8000_0000, 0x8000_0001), 0x8000_0001);
    assert_eq!(
        f32_fma_bits(0, large, 1),
        (0.0_f32).mul_add(f32::from_bits(large), f32::from_bits(1)).to_bits()
    );
}
