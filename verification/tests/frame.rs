use pixels_reference::frame::{
    collect_worker_completions, debug_frame_digest, debug_pixel, raster_debug_run, render_tile,
    validate_row_coverage, CompletedTile, CoverageRecord, DebugPixel, WorkerCompletion,
};
use pixels_reference::iv32::Iv32;
use pixels_reference::sweep::{CertifiedRun, IdentitySetId, QModel, SweepError};
use pixels_reference::telemetry::CertificateTelemetry;

#[test]
fn coverage_is_exactly_half_open_without_gaps_or_overlaps() {
    let valid = [
        CoverageRecord {
            x0: 0,
            x1: 8,
            kind: 0,
            record_index: 0,
        },
        CoverageRecord {
            x0: 8,
            x1: 9,
            kind: 1,
            record_index: 0,
        },
        CoverageRecord {
            x0: 9,
            x1: 32,
            kind: 0,
            record_index: 1,
        },
    ];
    assert_eq!(validate_row_coverage(0, 32, &valid), Ok(()));
    let mut gap = valid;
    gap[1].x0 = 9;
    assert_eq!(
        validate_row_coverage(0, 32, &gap),
        Err(SweepError::InternalInvariant)
    );
    let mut overlap = valid;
    overlap[1].x0 = 7;
    assert_eq!(
        validate_row_coverage(0, 32, &overlap),
        Err(SweepError::InternalInvariant)
    );
}

#[test]
fn completion_order_does_not_change_tile_or_frame_order() {
    let worker0_tiles = [CompletedTile {
        tile_id: 0,
        digest: [1; 32],
    }];
    let worker1_tiles = [CompletedTile {
        tile_id: 1,
        digest: [2; 32],
    }];
    let first_telemetry = CertificateTelemetry::default();
    let second_telemetry = CertificateTelemetry::default();
    let completions = [
        WorkerCompletion {
            worker_index: 1,
            tiles: &worker1_tiles,
            error: None,
            telemetry: &second_telemetry,
        },
        WorkerCompletion {
            worker_index: 0,
            tiles: &worker0_tiles,
            error: None,
            telemetry: &first_telemetry,
        },
    ];
    let mut scratch = [0; 2];
    let mut tiles = [CompletedTile::default(); 2];
    let mut merged = CertificateTelemetry::default();
    let count =
        collect_worker_completions(&completions, &mut scratch, &mut tiles, &mut merged).unwrap();
    assert_eq!(
        tiles[..count]
            .iter()
            .map(|tile| tile.tile_id)
            .collect::<Vec<_>>(),
        [0, 1]
    );
    assert_ne!(debug_frame_digest(&tiles[..count]), [0; 32]);
}

fn collect(completions: &[WorkerCompletion<'_>]) -> ([u8; 32], CertificateTelemetry) {
    let mut scratch = [0; 4];
    let mut tiles = [CompletedTile::default(); 4];
    let mut merged = CertificateTelemetry::default();
    let count =
        collect_worker_completions(completions, &mut scratch, &mut tiles, &mut merged).unwrap();
    (debug_frame_digest(&tiles[..count]), merged)
}

#[test]
fn one_and_four_worker_partitions_have_identical_frame_digest() {
    let source = [
        CompletedTile {
            tile_id: 0,
            digest: [1; 32],
        },
        CompletedTile {
            tile_id: 1,
            digest: [2; 32],
        },
        CompletedTile {
            tile_id: 2,
            digest: [3; 32],
        },
        CompletedTile {
            tile_id: 3,
            digest: [4; 32],
        },
    ];
    let mut one_telemetry = CertificateTelemetry::default();
    one_telemetry.regular_pixels = 4;
    let mut four_telemetry = [CertificateTelemetry::default(); 4];
    for local in &mut four_telemetry {
        local.regular_pixels = 1;
    }
    let one = [WorkerCompletion {
        worker_index: 0,
        tiles: &source,
        error: None,
        telemetry: &one_telemetry,
    }];
    let four = [
        WorkerCompletion {
            worker_index: 3,
            tiles: &source[3..4],
            error: None,
            telemetry: &four_telemetry[3],
        },
        WorkerCompletion {
            worker_index: 1,
            tiles: &source[1..2],
            error: None,
            telemetry: &four_telemetry[1],
        },
        WorkerCompletion {
            worker_index: 0,
            tiles: &source[0..1],
            error: None,
            telemetry: &four_telemetry[0],
        },
        WorkerCompletion {
            worker_index: 2,
            tiles: &source[2..3],
            error: None,
            telemetry: &four_telemetry[2],
        },
    ];
    assert_eq!(collect(&one), collect(&four));
}

#[test]
fn any_worker_error_prevents_global_success() {
    let telemetry = CertificateTelemetry::default();
    let completions = [WorkerCompletion {
        worker_index: 0,
        tiles: &[],
        error: Some(SweepError::CertificateExhausted),
        telemetry: &telemetry,
    }];
    assert_eq!(
        collect_worker_completions(
            &completions,
            &mut [0],
            &mut [],
            &mut CertificateTelemetry::default(),
        ),
        Err(SweepError::CertificateExhausted)
    );
}

#[test]
fn render_tile_writes_every_regular_and_event_pixel_exactly_once() {
    let visible = CertifiedRun {
        x0: 0,
        x1: 2,
        visible: Some(0),
        identity: IdentitySetId(3),
        q_model: QModel {
            q0: Iv32::new(100, 101).unwrap(),
            ..QModel::default()
        },
        ..CertifiedRun::default()
    };
    let background = CertifiedRun {
        x0: 3,
        x1: 4,
        ..CertifiedRun::default()
    };
    let records = [
        CoverageRecord {
            x0: 0,
            x1: 2,
            kind: 0,
            record_index: 0,
        },
        CoverageRecord {
            x0: 2,
            x1: 3,
            kind: 1,
            record_index: 0,
        },
        CoverageRecord {
            x0: 3,
            x1: 4,
            kind: 0,
            record_index: 1,
        },
    ];
    let event = debug_pixel(IdentitySetId(9), 50, 52, 127);
    let mut output = [DebugPixel {
        object_material_code: u32::MAX,
        q_class: u16::MAX,
        coverage: 1,
        flags: u8::MAX,
    }; 4];
    let tile = render_tile(
        7,
        0,
        4,
        0,
        1,
        &[0, 3],
        &records,
        &[visible, background],
        &[event],
        &mut output,
    )
    .unwrap();
    assert_eq!(output[0], output[1]);
    assert_eq!(output[2], event);
    assert_eq!(output[3], DebugPixel::default());
    assert_ne!(tile.digest, [0; 32]);
}

#[test]
fn debug_pixel_packs_identity_and_q_class() {
    let pixel = debug_pixel(IdentitySetId(3), 100, 101, 255);
    assert_eq!(pixel.object_material_code, 3u32.wrapping_mul(0x9e37_79b1));
    // magnitude 101 has 57 leading zeros in 64 bits; width 1
    assert_eq!(pixel.q_class, (57 << 8) | 1);
    assert_eq!(pixel.coverage, 255);
    assert_eq!(pixel.flags, 1);
    let wide = debug_pixel(IdentitySetId(0), -1000, 1000, 0);
    assert_eq!(wide.q_class, (54 << 8) | 255);
    assert_eq!(wide.flags, 0);
}

#[test]
fn raster_debug_run_checks_span_and_capacity() {
    let run = CertifiedRun {
        x0: 2,
        x1: 5,
        ..CertifiedRun::default()
    };
    let mut pixels = [DebugPixel {
        coverage: 9,
        ..DebugPixel::default()
    }; 3];
    assert_eq!(raster_debug_run(run, &mut pixels), Ok(()));
    assert_eq!(pixels, [DebugPixel::default(); 3]);
    let mut short = [DebugPixel::default(); 2];
    assert_eq!(
        raster_debug_run(run, &mut short),
        Err(SweepError::CapacityExceeded)
    );
    let reversed = CertifiedRun {
        x0: 5,
        x1: 2,
        ..CertifiedRun::default()
    };
    assert_eq!(
        raster_debug_run(reversed, &mut short),
        Err(SweepError::InternalInvariant)
    );
}

#[test]
fn render_tile_refuses_a_run_that_does_not_span_its_record() {
    let run = CertifiedRun {
        x0: 0,
        x1: 3,
        ..CertifiedRun::default()
    };
    let records = [CoverageRecord {
        x0: 0,
        x1: 4,
        kind: 0,
        record_index: 0,
    }];
    let mut output = [DebugPixel::default(); 4];
    assert_eq!(
        render_tile(1, 0, 4, 0, 1, &[0, 1], &records, &[run], &[], &mut output),
        Err(SweepError::InternalInvariant)
    );
    assert_eq!(
        render_tile(1, 0, 4, 0, 1, &[0, 1], &records, &[], &[], &mut output),
        Err(SweepError::InternalInvariant)
    );
}

#[test]
fn collection_refuses_duplicates_and_overflow() {
    let telemetry = CertificateTelemetry::default();
    let tile = [CompletedTile {
        tile_id: 4,
        digest: [0; 32],
    }];
    let same_worker = [
        WorkerCompletion {
            worker_index: 2,
            tiles: &[],
            error: None,
            telemetry: &telemetry,
        },
        WorkerCompletion {
            worker_index: 2,
            tiles: &[],
            error: None,
            telemetry: &telemetry,
        },
    ];
    let mut scratch = [0; 2];
    let mut tiles = [CompletedTile::default(); 2];
    let mut merged = CertificateTelemetry::default();
    assert_eq!(
        collect_worker_completions(&same_worker, &mut scratch, &mut tiles, &mut merged),
        Err(SweepError::InternalInvariant)
    );
    assert_eq!(
        collect_worker_completions(&same_worker, &mut [0], &mut tiles, &mut merged),
        Err(SweepError::CapacityExceeded)
    );
    let same_tile = [
        WorkerCompletion {
            worker_index: 0,
            tiles: &tile,
            error: None,
            telemetry: &telemetry,
        },
        WorkerCompletion {
            worker_index: 1,
            tiles: &tile,
            error: None,
            telemetry: &telemetry,
        },
    ];
    assert_eq!(
        collect_worker_completions(&same_tile, &mut scratch, &mut tiles, &mut merged),
        Err(SweepError::InternalInvariant)
    );
    let mut one_slot = [CompletedTile::default(); 1];
    assert_eq!(
        collect_worker_completions(&same_tile, &mut scratch, &mut one_slot, &mut merged),
        Err(SweepError::CapacityExceeded)
    );
    let mut full = CertificateTelemetry::default();
    full.regular_pixels = u64::MAX;
    let mut one = CertificateTelemetry::default();
    one.regular_pixels = 1;
    let overflowing = [WorkerCompletion {
        worker_index: 0,
        tiles: &[],
        error: None,
        telemetry: &one,
    }];
    assert_eq!(
        collect_worker_completions(&overflowing, &mut scratch, &mut tiles, &mut full),
        Err(SweepError::InternalInvariant)
    );
}

#[test]
fn frame_digest_chains_tiles_in_order() {
    let a = CompletedTile {
        tile_id: 0,
        digest: [1; 32],
    };
    let b = CompletedTile {
        tile_id: 1,
        digest: [2; 32],
    };
    assert_eq!(debug_frame_digest(&[]), [0; 32]);
    assert_ne!(debug_frame_digest(&[a, b]), debug_frame_digest(&[b, a]));
    assert_eq!(debug_frame_digest(&[a, b]), debug_frame_digest(&[a, b]));
}

#[test]
fn frame_digest_of_one_tile_is_its_sha256_link() {
    let a = CompletedTile {
        tile_id: 0,
        digest: [1; 32],
    };
    assert_eq!(
        debug_frame_digest(&[a]),
        [
            147, 145, 104, 104, 121, 70, 249, 136, 250, 200, 82, 243, 8, 240, 104, 144, 195, 10,
            148, 236, 246, 23, 251, 4, 236, 156, 236, 82, 101, 151, 242, 214
        ]
    );
}
