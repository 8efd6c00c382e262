use roaring::etna::{
    property_advance_back_to_matches_model, property_advance_to_matches_model,
    property_iter_matches_model, property_iter_nth_matches_model,
    property_range_cardinality_matches_model, PropertyResult,
};

fn is_pass(r: PropertyResult) -> bool {
    matches!(r, PropertyResult::Pass)
}

fn is_discard(r: PropertyResult) -> bool {
    matches!(r, PropertyResult::Discard)
}

#[test]
fn nth_property_discards_more_than_one_range() {
    let r = property_iter_nth_matches_model(vec![], vec![(0, 10), (100, 10)], 50, 3);
    assert!(is_discard(r));
    let r = property_iter_nth_matches_model(vec![4, 9], vec![(0, 10)], 50, 3);
    assert!(is_pass(r));
}

#[test]
fn range_cardinality_property_discards_reversed_range() {
    let r = property_range_cardinality_matches_model(vec![1, 2, 3], vec![], 10, 2);
    assert!(is_discard(r));
    let r = property_range_cardinality_matches_model(vec![1, 2, 3], vec![(2, 8)], 2, 10);
    assert!(is_pass(r));
}

#[test]
fn iter_property_on_mixed_recipe() {
    let values = vec![3, 65_536, 200_000, 5, 5];
    let ranges = vec![(65_000, 2_000), (u32::MAX - 10, u16::MAX)];
    assert!(is_pass(property_iter_matches_model(values, ranges)));
}

#[test]
fn advance_properties_with_reversed_targets() {
    let ranges = vec![(10, 100), (70_000, 50)];
    assert!(is_pass(property_advance_to_matches_model(vec![], ranges.clone(), 20, 90)));
    assert!(is_pass(property_advance_back_to_matches_model(vec![], ranges.clone(), 90, 20)));
    assert!(is_pass(property_advance_to_matches_model(vec![7], ranges.clone(), u32::MAX, 0)));
    assert!(is_pass(property_advance_back_to_matches_model(vec![7], ranges, 0, u32::MAX)));
}

#[test]
fn nth_property_beyond_the_end() {
    assert!(is_pass(property_iter_nth_matches_model(vec![1, 2, 3], vec![], 2, 5)));
    assert!(is_pass(property_iter_nth_matches_model(vec![], vec![], 2, 0)));
}
