use pixels_reference::scheduler::{
    apply_measure, run, select, ErrorSource, RefinementOption, RefinementResult,
};
use std::cell::Cell;

fn option(
    source: ErrorSource,
    code_span_reduction: u64,
    operation_count: u64,
    remaining_depth: u16,
    interval_width: u64,
    payload_id: u32,
) -> RefinementOption {
    RefinementOption {
        source,
        code_span_reduction,
        operation_count,
        remaining_depth,
        interval_width,
        payload_id,
    }
}

#[test]
fn priority_uses_cross_multiplication_and_stable_ties() {
    let options = [
        option(ErrorSource::Shadow, 4, 2, 2, 4, 9),
        option(ErrorSource::Material, 2, 1, 2, 4, 7),
    ];
    assert_eq!(select(&options).unwrap(), Some(1));
}

#[test]
fn every_error_source_participates_in_the_one_stable_order() {
    let sources = [
        ErrorSource::Visibility,
        ErrorSource::Coverage,
        ErrorSource::Normal,
        ErrorSource::Material,
        ErrorSource::Texture,
        ErrorSource::DirectLight,
        ErrorSource::Shadow,
        ErrorSource::Ao,
        ErrorSource::Gi,
        ErrorSource::Transparency,
        ErrorSource::Post,
        ErrorSource::Temporal,
        ErrorSource::Quantization,
    ];
    let options = sources.map(|source| option(source, 1, 1, 1, 1, 0));
    assert_eq!(select(&options).unwrap(), Some(0));
    for pair in sources.windows(2) {
        assert!(pair[0] < pair[1]);
    }
}

#[test]
fn zero_guaranteed_reductions_remain_valid_and_use_stable_ties() {
    let options = [
        option(ErrorSource::Texture, 0, 1, 1, 3, 9),
        option(ErrorSource::Material, 0, 64, 1, 3, 7),
    ];
    assert_eq!(select(&options).unwrap(), Some(1));
}

#[test]
fn unresolved_output_never_chooses_nearest_byte() {
    let result = run(|| ([1, 2, 3], [1, 2, 4]), Vec::new, |_| Ok(None), 4).unwrap();
    assert_eq!(result, RefinementResult::CertificateExhausted);
}

#[test]
fn run_rejects_a_refinement_that_does_not_make_progress() {
    let chosen = option(ErrorSource::Texture, 1, 1, 2, 4, 3);
    assert_eq!(
        run(
            || ([0; 3], [1; 3]),
            || vec![chosen],
            |_| Ok(Some(chosen)),
            2,
        ),
        Err("P031: refinement did not strictly decrease its discrete measure".to_string())
    );
}

#[test]
fn maximum_steps_is_an_exact_refinement_limit() {
    let chosen = option(ErrorSource::Texture, 1, 1, 1, 1, 3);
    let refinements = Cell::new(0);
    let result = run(
        || ([0; 3], [1; 3]),
        || vec![chosen],
        |_| {
            refinements.set(refinements.get() + 1);
            Ok(None)
        },
        0,
    )
    .unwrap();
    assert_eq!(result, RefinementResult::CertificateExhausted);
    assert_eq!(refinements.get(), 0);

    let resolved = Cell::new(false);
    let result = run(
        || {
            if resolved.get() {
                ([7, 8, 9], [7, 8, 9])
            } else {
                ([7, 8, 9], [7, 8, 10])
            }
        },
        || vec![chosen],
        |_| {
            resolved.set(true);
            Ok(None)
        },
        1,
    )
    .unwrap();
    assert_eq!(result, RefinementResult::Singleton([7, 8, 9]));
}

#[test]
fn exact_small_fixture_matches_exhaustive_refinement() {
    fn endpoints(mask: u8) -> ([u8; 3], [u8; 3]) {
        let lo = [17, 23, 31];
        let span = u8::try_from(mask.count_ones()).unwrap();
        (lo, [lo[0], lo[1], lo[2] + span])
    }

    fn exhaust(mask: u8, results: &mut Vec<[u8; 3]>) {
        let (lo, hi) = endpoints(mask);
        if lo == hi {
            results.push(lo);
            return;
        }
        for payload_id in 0..2 {
            let bit = 1 << payload_id;
            if mask & bit != 0 {
                exhaust(mask & !bit, results);
            }
        }
    }

    let mask = Cell::new(0b11_u8);
    let result = run(
        || endpoints(mask.get()),
        || {
            (0..2)
                .filter(|payload_id| mask.get() & (1 << payload_id) != 0)
                .map(|payload_id| RefinementOption {
                    source: ErrorSource::Material,
                    code_span_reduction: if payload_id == 0 { 1 } else { 4 },
                    operation_count: if payload_id == 0 { 1 } else { 2 },
                    remaining_depth: 1,
                    interval_width: 1,
                    payload_id,
                })
                .collect()
        },
        |payload_id| {
            mask.set(mask.get() & !(1 << payload_id));
            Ok(None)
        },
        2,
    )
    .unwrap();

    let mut exhaustive_results = Vec::new();
    exhaust(0b11, &mut exhaustive_results);
    assert!(!exhaustive_results.is_empty());
    assert!(exhaustive_results.iter().all(|bytes| *bytes == [17, 23, 31]));
    assert_eq!(result, RefinementResult::Singleton(exhaustive_results[0]));
}

#[test]
fn invalid_options_and_measures_are_refused() {
    let bad = option(ErrorSource::Ao, 1, 0, 1, 1, 0);
    assert!(!bad.validate());
    assert_eq!(
        select(&[option(ErrorSource::Ao, 1, 1, 1, 1, 0), bad]),
        Err("P031: invalid refinement option".to_string())
    );
    assert_eq!(select(&[]), Ok(None));
    let good = option(ErrorSource::Ao, 1, 1, 2, 4, 0);
    assert_eq!(
        apply_measure(bad, None),
        Err("P031: invalid refinement measure".to_string())
    );
    assert_eq!(apply_measure(good, None), Ok(()));
    assert_eq!(apply_measure(good, Some(option(ErrorSource::Ao, 1, 1, 2, 3, 0))), Ok(()));
    assert_eq!(apply_measure(good, Some(option(ErrorSource::Ao, 1, 1, 1, 9, 0))), Ok(()));
    assert!(apply_measure(good, Some(option(ErrorSource::Ao, 1, 1, 2, 4, 0))).is_err());
    assert!(apply_measure(good, Some(bad)).is_err());
}
