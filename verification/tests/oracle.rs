use pixels_reference::oracle::first_boundary_index;

#[test]
fn first_boundary_prefers_the_expected_crossing_then_the_nearest_root() {
    assert_eq!(first_boundary_index(&[1, -1], false), Some(0));
    assert_eq!(first_boundary_index(&[1, -1], true), Some(1));
    assert_eq!(first_boundary_index(&[0, 0, 1], false), Some(2));
    assert_eq!(first_boundary_index(&[0, 1, 1], true), Some(0));
    assert_eq!(first_boundary_index(&[], true), None);
}
