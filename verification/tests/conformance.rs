use pixels_reference::conformance::{
    debug_frame_digest, exact_fixture_event_byte, grid_coverage_byte, merge_frame_score,
    possible_coverage_rounds_to_zero, FrameScore,
};

#[test]
fn scan_order_score_merge_preserves_first_issue_and_fails_on_overflow() {
    let mut total = FrameScore {
        checked_interior: 2,
        first_issue: Some([1, 2, 3]),
        ..Default::default()
    };
    merge_frame_score(
        &mut total,
        FrameScore {
            checked_interior: 5,
            first_issue: Some([9, 9, 9]),
            ..Default::default()
        },
    )
    .unwrap();
    assert_eq!(total.checked_interior, 7);
    assert_eq!(total.first_issue, Some([1, 2, 3]));

    total.unresolved = u32::MAX;
    let error = merge_frame_score(
        &mut total,
        FrameScore {
            unresolved: 1,
            ..Default::default()
        },
    )
    .unwrap_err();
    assert!(error.contains("unresolved counter overflow"));
}

#[test]
fn captured_frame_digest_matches_the_guest_byte_order() {
    let frame = [255_u8, 0, 0, 255].repeat(64 * 32);
    assert_eq!(
        debug_frame_digest(&frame),
        [
            3_954_935_440_892_105_603,
            12_936_886_627_447_603_635,
            9_115_567_371_493_163_330,
            13_084_624_655_846_693_369,
        ],
    );
}

#[test]
fn event_coverage_grid_rounding_and_exact_fixture_bytes_are_pinned() {
    assert_eq!(grid_coverage_byte(0, 64), Ok(0));
    assert_eq!(grid_coverage_byte(32, 64), Ok(128));
    assert_eq!(grid_coverage_byte(64, 64), Ok(255));
    assert!(grid_coverage_byte(1, 0).is_err());
    assert_eq!(grid_coverage_byte(17, 32), Ok(135));
    assert_eq!(grid_coverage_byte(33, 64), Ok(131));
    assert_eq!(
        exact_fixture_event_byte("check-pixels-material-edge", 16, 0),
        Ok(Some(200))
    );
    assert_eq!(
        exact_fixture_event_byte("check-pixels-material-edge", 17, 0),
        Ok(Some(240))
    );
    assert_eq!(
        exact_fixture_event_byte("check-pixels-tile-boundary", 50, 13),
        Ok(Some(183))
    );
    assert_eq!(
        exact_fixture_event_byte("check-pixels-tile-boundary", 52, 14),
        Err("tile-boundary event evidence lies outside the exact owned lanes at (52,14)".to_string())
    );
}

#[test]
fn retained_pixel_area_must_round_strictly_below_one_coverage_byte() {
    assert!(possible_coverage_rounds_to_zero(128, 8));
    assert!(!possible_coverage_rounds_to_zero(129, 8));
    assert!(possible_coverage_rounds_to_zero(0, 0));
    assert!(!possible_coverage_rounds_to_zero(1, 0));
}

#[test]
fn score_merge_sums_every_counter_and_adopts_a_first_issue() {
    let mut total = FrameScore::default();
    let part = FrameScore {
        checked_interior: 1,
        interior_mismatches: 2,
        edge_center_violations: 3,
        ambiguous_identity: 4,
        unresolved: 5,
        skipped_unproven: 6,
        phantom_surface: 7,
        q_checked: 8,
        normal_checked: 9,
        event_bytes_checked: 10,
        boundary_limited_event_bytes: 11,
        raster_evidence_failures: 12,
        first_issue: Some([4, 5, 6]),
    };
    merge_frame_score(&mut total, part).unwrap();
    merge_frame_score(&mut total, part).unwrap();
    assert_eq!(total.raster_evidence_failures, 24);
    assert_eq!(total.phantom_surface, 14);
    assert_eq!(total.first_issue, Some([4, 5, 6]));
    let mut full = FrameScore {
        raster_evidence_failures: u32::MAX,
        ..Default::default()
    };
    assert_eq!(
        merge_frame_score(&mut full, part),
        Err("frame raster_evidence_failures counter overflow".to_string())
    );
    // the counters before the overflowing one were already added
    assert_eq!(full.boundary_limited_event_bytes, 11);
    assert_eq!(full.first_issue, None);
}

#[test]
fn fixture_oracle_messages_and_other_cases() {
    assert_eq!(grid_coverage_byte(65, 64), Err("event coverage oracle is not a byte".to_string()));
    assert_eq!(grid_coverage_byte(1, 0), Err("event coverage grid has no samples".to_string()));
    assert_eq!(exact_fixture_event_byte("some-other-case", 0, 0), Ok(None));
    assert_eq!(
        exact_fixture_event_byte("check-pixels-material-edge", 20, 0),
        Err("material event evidence lies outside the exact diagonal lanes at (20,0)".to_string())
    );
    assert_eq!(
        exact_fixture_event_byte("check-pixels-tile-boundary", 51, 15),
        Ok(Some(255))
    );
    assert_eq!(debug_frame_digest(&[]), [
        1_469_598_103_934_665_603,
        1_099_511_628_211,
        7_809_847_782_465_536_322,
        1_609_587_929_392_839_161,
    ]);
}
