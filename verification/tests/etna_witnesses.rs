// Deterministic witness tests: each `witness_<name>_case_<tag>` calls
// `property_<name>` directly with frozen inputs chosen at container edges.

use roaring::etna::{
    property_advance_back_to_matches_model, property_advance_to_matches_model,
    property_iter_matches_model, property_iter_nth_matches_model,
    property_range_cardinality_matches_model, PropertyResult,
};

fn expect_pass(r: PropertyResult, what: &str) {
    match r {
        PropertyResult::Pass => {}
        PropertyResult::Fail(m) => panic!("{}: property failed: {}", what, m),
        PropertyResult::Discard => panic!("{}: unexpected discard", what),
    }
}

// Two back-to-back full containers: iterating past the last element of
// container 0 must move on to container 1's first element, and
// symmetrically for `rev()`.
fn two_full_containers() -> (Vec<u32>, Vec<(u32, u16)>) {
    (Vec::new(), vec![(0, u16::MAX), (65_536, u16::MAX)])
}

// Many small runs packed across several containers: exercises
// advance_to / advance_back_to past the end and before the start.
fn compressed_run_ranges() -> (Vec<u32>, Vec<(u32, u16)>) {
    let mut r: Vec<(u32, u16)> = Vec::new();
    let mut x: u32 = 500;
    while x < 0x35B00 {
        r.push((x, 2));
        x += 7;
    }
    (Vec::new(), r)
}

// A dense container of points: every 3rd value in 0..=16_384 yields ~5500
// non-consecutive points, so the container holds them one by one.
fn bitmap_store_spec() -> (Vec<u32>, Vec<(u32, u16)>) {
    let pts: Vec<u32> = (0u32..=16_384).filter(|&x| x % 3 == 0).collect();
    (pts, Vec::new())
}

// A single full container, kept as one run: `advance_back_to(last)` +
// `nth(n > u16::MAX)` skips past the whole container.
fn single_full_container() -> (Vec<u32>, Vec<(u32, u16)>) {
    (Vec::new(), vec![(0, u16::MAX)])
}

#[test]
fn witness_iter_matches_model_case_two_full_containers() {
    // Forward iteration reaches the last element of container 0 and must
    // continue with container 1's first element; backward is symmetric.
    let (vs, rs) = two_full_containers();
    expect_pass(
        property_iter_matches_model(vs, rs),
        "iter vs BTreeSet on two-full-container bitmap",
    );
}

#[test]
fn witness_advance_to_past_end_case_compressed_run() {
    // Run containers: back pointer untouched, advance_to past the last element.
    let (vs, rs) = compressed_run_ranges();
    expect_pass(
        property_advance_to_matches_model(vs, rs, u32::MAX, 0x35B01),
        "advance_to past end of compressed-run RunStore",
    );
    // Dense point container: advance_back_to(100) THEN advance_to(300).
    let (vs, rs) = bitmap_store_spec();
    expect_pass(
        property_advance_to_matches_model(vs, rs, 100, 300),
        "advance_back_to(100) + advance_to(300) on BitmapStore container",
    );
}

#[test]
fn witness_advance_back_to_before_start_case_compressed_run() {
    // Run containers: advance_back_to before the first element.
    let (vs, rs) = compressed_run_ranges();
    expect_pass(
        property_advance_back_to_matches_model(vs, rs, 0, 499),
        "advance_back_to before start of compressed-run RunStore",
    );
    // Dense point container: advance_to(300) THEN advance_back_to(100).
    let (vs, rs) = bitmap_store_spec();
    expect_pass(
        property_advance_back_to_matches_model(vs, rs, 300, 100),
        "advance_to(300) + advance_back_to(100) on BitmapStore container",
    );
}

#[test]
fn witness_iter_nth_case_nth_over_u16_max() {
    // Single full container, advance_back_to(last), nth(n > u16::MAX): the
    // skip goes past the end, so nth returns None.
    let (vs, rs) = single_full_container();
    expect_pass(
        property_iter_nth_matches_model(vs, rs, 65_535, 100_000),
        "advance_back_to(last) + nth(100_000) on full RunStore container",
    );
}

#[test]
fn witness_range_cardinality_case_full_container_range() {
    let (vs, rs) = single_full_container();
    expect_pass(
        property_range_cardinality_matches_model(vs, rs, 64, 6400),
        "range_cardinality slice on RunStore full container",
    );
}
