use pixels_reference::events::{
    partition_row_events, EventCorridor, EventError, EventInterval, RegularDomain,
};
use pixels_reference::iv32::{Iv32, NumericError};
use pixels_reference::order::{
    adjacent_slack, all_pairs_agree_with_adjacent, compare, insertion_sort, OrderRelation,
    OrderedRoot, MAX_ORDERED_ROOTS,
};

fn root(lo: i32, hi: i32, feature_id: u32, orientation: i8) -> OrderedRoot {
    OrderedRoot {
        q: Iv32::new(lo, hi).unwrap(),
        feature_id,
        orientation,
    }
}

#[test]
fn close_intervals_remain_a_corridor() {
    let a = Iv32::new(10, 12).unwrap();
    let b = Iv32::new(11, 13).unwrap();
    assert_eq!(compare(a, b), OrderRelation::Corridor);
}

#[test]
fn adjacent_order_implies_all_pairs() {
    let mut roots = [root(0, 1, 0, 1), root(8, 9, 1, 1), root(4, 5, 2, -1)];
    insertion_sort(&mut roots).unwrap();
    assert!(all_pairs_agree_with_adjacent(&roots));
    assert_eq!(adjacent_slack(&roots), Ok(3));
}

#[test]
fn overlap_components_are_permutation_invariant() {
    let a = root(0, 2, 0, 1);
    let b = root(1, 10, 1, -1);
    let c = root(9, 11, 2, 1);
    let far = root(-4, -3, 3, 1);
    let mut forward = [a, b, c, far];
    let mut reverse = [far, c, b, a];
    insertion_sort(&mut forward).unwrap();
    insertion_sort(&mut reverse).unwrap();
    assert_eq!(forward, reverse);
    assert_eq!(forward, [a, b, c, far]);
}

#[test]
fn compare_is_nearer_farther_or_corridor() {
    let near = Iv32::new(10, 12).unwrap();
    let far = Iv32::new(1, 3).unwrap();
    assert_eq!(compare(near, far), OrderRelation::Nearer);
    assert_eq!(compare(far, near), OrderRelation::Farther);
    assert_eq!(compare(near, near), OrderRelation::Corridor);
}

#[test]
fn slack_edges_and_capacity() {
    assert_eq!(adjacent_slack(&[]), Ok(i32::MAX));
    assert_eq!(adjacent_slack(&[root(0, 1, 0, 1)]), Ok(i32::MAX));
    assert_eq!(adjacent_slack(&[root(0, 5, 0, 1), root(3, 9, 1, 1)]), Ok(0));
    let many = vec![root(0, 1, 0, 1); MAX_ORDERED_ROOTS + 1];
    assert_eq!(adjacent_slack(&many), Err(NumericError::CapacityExceeded));
    let mut many = many;
    assert_eq!(insertion_sort(&mut many), Err(NumericError::CapacityExceeded));
    assert!(!all_pairs_agree_with_adjacent(&many));
}

#[test]
fn sorting_orders_features_inside_a_component() {
    let mut roots = [root(0, 5, 7, 1), root(1, 6, 2, 1), root(20, 21, 9, -1)];
    insertion_sort(&mut roots).unwrap();
    assert_eq!(roots, [root(20, 21, 9, -1), root(1, 6, 2, 1), root(0, 5, 7, 1)]);
    assert!(!all_pairs_agree_with_adjacent(&roots));
}

fn event(lo: u16, hi: u16, generator_id: u32, subdivision_depth: u8) -> EventInterval {
    EventInterval {
        lo,
        hi,
        generator_id,
        subdivision_depth,
    }
}

#[test]
fn overlapping_and_simultaneous_events_share_one_closed_corridor() {
    let events = [event(8, 10, 7, 2), event(9, 12, 3, 1), event(20, 21, 4, 0)];
    let mut sorted = [EventInterval::default(); 3];
    let mut corridors = [EventCorridor::default(); 3];
    let mut regular = [RegularDomain::default(); 4];
    let partition =
        partition_row_events(0, 32, &events, &mut sorted, &mut corridors, &mut regular).unwrap();
    assert_eq!(
        partition.corridors,
        &[
            EventCorridor {
                x0: 8,
                x1: 12,
                first_event: 0,
                event_count: 2,
            },
            EventCorridor {
                x0: 20,
                x1: 21,
                first_event: 2,
                event_count: 1,
            },
        ]
    );
    assert_eq!(
        partition
            .sorted_events
            .iter()
            .map(|event| event.generator_id)
            .collect::<Vec<_>>(),
        [7, 3, 4]
    );
    assert_eq!(
        partition
            .regular
            .iter()
            .map(|domain| (domain.x0, domain.x1))
            .collect::<Vec<_>>(),
        [(0, 8), (12, 20), (21, 32)]
    );
}

#[test]
fn capacity_failure_occurs_before_output_overrun() {
    let events = [event(1, 2, 0, 0)];
    let mut sorted = [EventInterval::default(); 1];
    let mut corridors = [];
    let mut regular = [RegularDomain::default(); 2];
    assert_eq!(
        partition_row_events(0, 4, &events, &mut sorted, &mut corridors, &mut regular)
            .unwrap_err(),
        EventError::CapacityExceeded
    );
}

#[test]
fn event_errors_and_empty_rows() {
    let mut sorted = [EventInterval::default(); 2];
    let mut corridors = [EventCorridor::default(); 2];
    let mut regular = [RegularDomain::default(); 2];
    assert_eq!(
        partition_row_events(4, 4, &[], &mut sorted, &mut corridors, &mut regular).unwrap_err(),
        EventError::InvalidDomain
    );
    assert_eq!(
        partition_row_events(0, 8, &[event(3, 3, 0, 0)], &mut sorted, &mut corridors, &mut regular)
            .unwrap_err(),
        EventError::InvalidEvent
    );
    assert_eq!(
        partition_row_events(0, 8, &[event(3, 9, 0, 0)], &mut sorted, &mut corridors, &mut regular)
            .unwrap_err(),
        EventError::InvalidEvent
    );
    let partition =
        partition_row_events(0, 8, &[], &mut sorted, &mut corridors, &mut regular).unwrap();
    assert!(partition.corridors.is_empty());
    assert_eq!(
        partition.regular,
        &[RegularDomain {
            x0: 0,
            x1: 8,
            left_corridor: None,
            right_corridor: None,
        }]
    );
}

#[test]
fn equal_keys_keep_input_order_and_domains_name_neighbors() {
    let events = [event(2, 4, 1, 5), event(2, 4, 1, 6), event(0, 1, 9, 0)];
    let mut sorted = [EventInterval::default(); 3];
    let mut corridors = [EventCorridor::default(); 3];
    let mut regular = [RegularDomain::default(); 3];
    let partition =
        partition_row_events(0, 6, &events, &mut sorted, &mut corridors, &mut regular).unwrap();
    assert_eq!(
        partition
            .sorted_events
            .iter()
            .map(|event| event.subdivision_depth)
            .collect::<Vec<_>>(),
        [0, 5, 6]
    );
    assert_eq!(
        partition.regular,
        &[
            RegularDomain {
                x0: 1,
                x1: 2,
                left_corridor: Some(0),
                right_corridor: Some(1),
            },
            RegularDomain {
                x0: 4,
                x1: 6,
                left_corridor: Some(1),
                right_corridor: None,
            },
        ]
    );
}

#[test]
fn corridors_and_regular_domains_tile_the_row() {
    let events = [
        event(20, 23, 1, 0),
        event(3, 5, 2, 0),
        event(4, 9, 3, 1),
        event(9, 11, 4, 0),
        event(30, 32, 5, 0),
    ];
    let mut sorted = [EventInterval::default(); 5];
    let mut corridors = [EventCorridor::default(); 5];
    let mut regular = [RegularDomain::default(); 6];
    let partition =
        partition_row_events(2, 32, &events, &mut sorted, &mut corridors, &mut regular).unwrap();
    let mut pieces: Vec<(u16, u16)> = partition
        .corridors
        .iter()
        .map(|c| (c.x0, c.x1))
        .chain(partition.regular.iter().map(|r| (r.x0, r.x1)))
        .collect();
    pieces.sort();
    assert_eq!(pieces.first().unwrap().0, 2);
    assert_eq!(pieces.last().unwrap().1, 32);
    for pair in pieces.windows(2) {
        assert!(pair[0].0 < pair[0].1);
        assert_eq!(pair[0].1, pair[1].0);
    }
    assert_eq!(
        pieces,
        vec![(2, 3), (3, 9), (9, 11), (11, 20), (20, 23), (23, 30), (30, 32)]
    );
}

#[test]
fn overlap_reaching_past_a_nearer_root_joins_its_component() {
    let mut roots = [root(5, 6, 2, 1), root(3, 4, 0, 1), root(0, 10, 1, 1)];
    insertion_sort(&mut roots).unwrap();
    let features: Vec<u32> = roots.iter().map(|r| r.feature_id).collect();
    assert_eq!(features, vec![0, 1, 2]);
}
