use pixels_reference::rebuild::{
    resolve_bounded, RebuildCell, RebuildError, RebuildLimits, RebuildTier, TierResult,
};
use pixels_reference::telemetry::{CertificateTelemetry, RebuildReason};

fn cell(x0: u16, x1: u16, q_lo: i32, q_hi: i32) -> RebuildCell {
    RebuildCell {
        x0,
        x1,
        q_lo,
        q_hi,
        x_depth: 0,
        q_depth: 0,
    }
}

#[test]
fn ladder_is_fixed_bounded_and_each_leaf_has_one_terminal() {
    let mut stack = [RebuildCell::default(); 8];
    let mut output = [0_u16; 8];
    let mut telemetry = CertificateTelemetry::default();
    let count = resolve_bounded(
        cell(0, 4, 0, 0),
        RebuildLimits {
            max_x_depth: 2,
            max_q_depth: 3,
            max_cells: 7,
        },
        &mut stack,
        &mut output,
        |tier, cell| {
            if tier == RebuildTier::PixelCell {
                TierResult::Resolved(cell.x0)
            } else {
                TierResult::Inconclusive
            }
        },
        Some(&mut telemetry),
    )
    .unwrap();
    assert_eq!(count, 4);
    assert_eq!(&output[..count], &[0, 1, 2, 3]);
    assert_eq!(
        telemetry.rebuild_terminals.iter().sum::<u64>(),
        u64::try_from(count).unwrap()
    );
}

#[test]
fn unresolved_pixel_fails_explicitly() {
    let mut stack = [RebuildCell::default(); 2];
    let mut output = [0_u8; 2];
    assert_eq!(
        resolve_bounded(
            cell(0, 1, 0, 0),
            RebuildLimits {
                max_x_depth: 0,
                max_q_depth: 0,
                max_cells: 1,
            },
            &mut stack,
            &mut output,
            |_, _| TierResult::Inconclusive,
            None,
        ),
        Err(RebuildError::CertificateExhausted)
    );
}

#[test]
fn q_split_returns_all_certified_subdomains_front_to_back() {
    let mut stack = [RebuildCell::default(); 8];
    let mut output = [0_i32; 8];
    let count = resolve_bounded(
        cell(0, 1, 0, 8),
        RebuildLimits {
            max_x_depth: 0,
            max_q_depth: 2,
            max_cells: 7,
        },
        &mut stack,
        &mut output,
        |tier, cell| {
            if tier == RebuildTier::QSplit && cell.q_depth < 2 {
                TierResult::Inconclusive
            } else if tier == RebuildTier::PixelCell {
                TierResult::Resolved(cell.q_lo)
            } else {
                TierResult::Inconclusive
            }
        },
        None,
    )
    .unwrap();
    assert_eq!(count, 4);
    assert_eq!(&output[..count], &[6, 4, 2, 0]);
}

#[test]
fn invalid_inputs_numeric_failures_and_cell_limits() {
    let limits = RebuildLimits {
        max_x_depth: 4,
        max_q_depth: 0,
        max_cells: 2,
    };
    let mut stack = [RebuildCell::default(); 8];
    let mut output = [0_u16; 8];
    assert_eq!(
        resolve_bounded(cell(3, 3, 0, 0), limits, &mut stack, &mut output, |_, c| TierResult::Resolved(c.x0), None),
        Err(RebuildError::InvalidDomain)
    );
    assert_eq!(
        resolve_bounded(cell(0, 1, 0, 0), limits, &mut [], &mut output, |_, c| TierResult::Resolved(c.x0), None),
        Err(RebuildError::InvalidDomain)
    );
    assert_eq!(
        resolve_bounded(cell(0, 1, 0, 0), limits, &mut stack, &mut output, |_, _| TierResult::<u16>::NumericFailure, None),
        Err(RebuildError::NumericFailure)
    );
    assert_eq!(
        resolve_bounded(cell(0, 4, 0, 0), limits, &mut stack, &mut output, |_, c| TierResult::Resolved(c.x0), None),
        Err(RebuildError::CertificateExhausted)
    );
    assert_eq!(
        resolve_bounded(cell(0, 1, 0, 0), limits, &mut stack, &mut [0_u16; 0], |_, c| TierResult::Resolved(c.x0), None),
        Err(RebuildError::CapacityExceeded)
    );
}

#[test]
fn telemetry_counters_charge_and_merge() {
    let mut a = CertificateTelemetry::default();
    a.charge_rebuild_entry(RebuildReason::XSplit);
    a.charge_rebuild_terminal(RebuildReason::PixelCell);
    a.charge_leaf_depths(2, 200);
    assert_eq!(a.rebuild_entries[6], 1);
    assert_eq!(a.rebuild_terminals[4], 1);
    assert_eq!(a.root_subdivision_depth[2], 1);
    assert_eq!(a.event_subdivision_depth[7], 1);
    let mut b = a;
    b.regular_pixels = 3;
    assert_eq!(b.merge_in_tile_order(&a), Ok(()));
    assert_eq!(b.rebuild_entries[6], 2);
    assert_eq!(b.regular_pixels, 3);
    let mut full = CertificateTelemetry::default();
    full.regular_pixels = u64::MAX;
    assert_eq!(full.merge_in_tile_order(&b), Err(()));
}
