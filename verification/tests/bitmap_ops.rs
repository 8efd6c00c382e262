use std::collections::BTreeSet;

use roaring::etna::{bitmap_from_spec, model_from_spec};
use roaring::RoaringBitmap;

fn collect_forward(rb: &RoaringBitmap) -> Vec<u32> {
    let mut it = rb.iter();
    let mut out = Vec::new();
    while let Some(v) = it.next() {
        out.push(v);
    }
    out
}

fn collect_backward(rb: &RoaringBitmap) -> Vec<u32> {
    let mut it = rb.iter();
    let mut out = Vec::new();
    while let Some(v) = it.next_back() {
        out.push(v);
    }
    out
}

#[test]
fn empty_bitmap_has_nothing() {
    let rb = RoaringBitmap::new();
    assert_eq!(rb.len(), 0);
    assert!(!rb.contains(0));
    assert!(!rb.contains(u32::MAX));
    assert_eq!(rb.range_cardinality(0, u32::MAX), 0);
    let mut it = rb.iter();
    assert_eq!(it.len(), 0);
    assert_eq!(it.next(), None);
    assert_eq!(it.next_back(), None);
    assert_eq!(it.nth(0), None);
    assert_eq!(it.nth_back(3), None);
}

#[test]
fn insert_reports_whether_value_was_new() {
    let mut rb = RoaringBitmap::new();
    assert!(rb.insert(7));
    assert!(!rb.insert(7));
    assert!(rb.insert(70_000));
    assert!(rb.insert(3));
    assert!(rb.contains(7));
    assert!(rb.contains(70_000));
    assert!(!rb.contains(8));
    assert_eq!(rb.len(), 3);
    assert_eq!(collect_forward(&rb), vec![3, 7, 70_000]);
}

#[test]
fn insert_range_across_container_boundary() {
    let mut rb = RoaringBitmap::new();
    rb.insert_range(65_530, 65_540);
    assert_eq!(rb.len(), 11);
    assert!(rb.contains(65_535));
    assert!(rb.contains(65_536));
    assert!(!rb.contains(65_529));
    assert!(!rb.contains(65_541));
    assert_eq!(collect_forward(&rb), (65_530..=65_540).collect::<Vec<u32>>());
}

#[test]
fn insert_range_with_start_after_end_adds_nothing() {
    let mut rb = RoaringBitmap::new();
    rb.insert_range(10, 5);
    assert_eq!(rb.len(), 0);
}

#[test]
fn insert_range_at_top_of_domain() {
    let mut rb = RoaringBitmap::new();
    rb.insert_range(u32::MAX - 2, u32::MAX);
    assert_eq!(rb.len(), 3);
    assert_eq!(collect_forward(&rb), vec![u32::MAX - 2, u32::MAX - 1, u32::MAX]);
    assert_eq!(rb.range_cardinality(u32::MAX, u32::MAX), 1);
}

#[test]
fn full_container_range() {
    let mut rb = RoaringBitmap::new();
    rb.insert_range(0, 65_535);
    assert_eq!(rb.len(), 65_536);
    assert_eq!(rb.range_cardinality(64, 6400), 6337);
    let mut it = rb.iter();
    assert_eq!(it.nth(65_535), Some(65_535));
    assert_eq!(it.len(), 0);
    assert_eq!(it.next(), None);
}

#[test]
fn ranges_merge_and_points_join_runs() {
    let mut rb = RoaringBitmap::new();
    rb.insert_range(10, 20);
    rb.insert_range(30, 40);
    rb.insert_range(18, 32);
    rb.insert(41);
    rb.insert(9);
    rb.insert(100);
    assert_eq!(rb.len(), 34);
    assert_eq!(
        collect_forward(&rb),
        (9..=41).chain(std::iter::once(100)).collect::<Vec<u32>>()
    );
}

#[test]
fn range_into_point_container() {
    let mut rb = RoaringBitmap::new();
    rb.insert(5);
    rb.insert(1);
    rb.insert(50);
    rb.insert_range(3, 7);
    assert_eq!(collect_forward(&rb), vec![1, 3, 4, 5, 6, 7, 50]);
    assert!(rb.insert(2));
    assert!(!rb.insert(6));
    assert_eq!(collect_forward(&rb), vec![1, 2, 3, 4, 5, 6, 7, 50]);
}

#[test]
fn backward_walk_is_reverse_of_forward() {
    let mut rb = RoaringBitmap::new();
    rb.insert_range(65_000, 66_000);
    rb.insert(5);
    rb.insert(200_000);
    let fwd = collect_forward(&rb);
    let mut bwd = collect_backward(&rb);
    bwd.reverse();
    assert_eq!(fwd, bwd);
    assert_eq!(fwd.len() as u64, rb.len());
}

#[test]
fn front_and_back_meet() {
    let mut rb = RoaringBitmap::new();
    rb.insert_range(1, 5);
    let mut it = rb.iter();
    assert_eq!(it.next(), Some(1));
    assert_eq!(it.next_back(), Some(5));
    assert_eq!(it.next(), Some(2));
    assert_eq!(it.next_back(), Some(4));
    assert_eq!(it.len(), 1);
    assert_eq!(it.next_back(), Some(3));
    assert_eq!(it.next(), None);
    assert_eq!(it.next_back(), None);
}

#[test]
fn nth_skips_and_exhausts() {
    let mut rb = RoaringBitmap::new();
    rb.insert_range(0, 9);
    rb.insert_range(70_000, 70_009);
    let mut it = rb.iter();
    assert_eq!(it.nth(12), Some(70_002));
    assert_eq!(it.len(), 7);
    assert_eq!(it.nth_back(1), Some(70_008));
    assert_eq!(it.len(), 5);
    assert_eq!(it.nth(5), None);
    assert_eq!(it.len(), 0);
    assert_eq!(it.next_back(), None);
}

#[test]
fn advance_to_and_back_to() {
    let mut rb = RoaringBitmap::new();
    rb.insert_range(100, 200);
    rb.insert_range(100_000, 100_010);
    let mut it = rb.iter();
    it.advance_to(150);
    assert_eq!(it.next(), Some(150));
    it.advance_back_to(100_004);
    assert_eq!(it.next_back(), Some(100_004));
    it.advance_to(10);
    assert_eq!(it.next(), Some(151));
    it.advance_to(300);
    assert_eq!(it.next(), Some(100_000));
    it.advance_to(100_004);
    assert_eq!(it.next(), None);
}

#[test]
fn advance_past_either_end_empties() {
    let mut rb = RoaringBitmap::new();
    rb.insert_range(10, 20);
    let mut it = rb.iter();
    it.advance_to(21);
    assert_eq!(it.len(), 0);
    assert_eq!(it.next_back(), None);
    let mut it = rb.iter();
    it.advance_back_to(9);
    assert_eq!(it.len(), 0);
    assert_eq!(it.next(), None);
    let mut it = rb.iter();
    it.advance_back_to(12);
    it.advance_to(15);
    assert_eq!(it.len(), 0);
}

#[test]
fn cutting_both_ends_in_either_order_agrees() {
    let mut rb = RoaringBitmap::new();
    rb.insert_range(0, 300);
    rb.insert(70_000);
    let mut a = rb.iter();
    a.advance_back_to(250);
    a.advance_to(40);
    let mut b = rb.iter();
    b.advance_to(40);
    b.advance_back_to(250);
    assert_eq!(a.len(), 211);
    assert_eq!(b.len(), 211);
    assert_eq!(rb.range_cardinality(40, 250), 211);
    for _ in 0..211 {
        assert_eq!(a.next(), b.next());
    }
}

#[test]
fn range_cardinality_counts_values_in_range() {
    let mut rb = RoaringBitmap::new();
    rb.insert_range(65_530, 65_545);
    rb.insert(3);
    assert_eq!(rb.range_cardinality(0, u32::MAX), 17);
    assert_eq!(rb.range_cardinality(65_536, 65_536), 1);
    assert_eq!(rb.range_cardinality(4, 65_529), 0);
    assert_eq!(rb.range_cardinality(3, 65_531), 3);
    assert_eq!(rb.range_cardinality(9, 2), 0);
}

#[test]
fn count_below_gives_rank() {
    let mut rb = RoaringBitmap::new();
    rb.insert_range(10, 19);
    rb.insert(65_536);
    assert_eq!(rb.count_below(0), 0);
    assert_eq!(rb.count_below(15), 5);
    assert_eq!(rb.count_below(65_536), 10);
    assert_eq!(rb.count_below(65_537), 11);
    assert_eq!(rb.count_below(1u64 << 32), 11);
}

#[test]
fn recipe_bitmap_matches_recipe_model() {
    let values = vec![5, 1_000_000, 7, 5];
    let ranges = vec![(u32::MAX - 1, 5u16), (0, 3), (65_534, 4)];
    let rb = bitmap_from_spec(&values, &ranges);
    let model = model_from_spec(&values, &ranges);
    let want: Vec<u32> = model.iter().copied().collect();
    assert_eq!(collect_forward(&rb), want);
    assert_eq!(rb.len(), model.len() as u64);
    let expected: BTreeSet<u32> = [0, 1, 2, 3, 5, 7, 65_534, 65_535, 65_536, 65_537, 65_538, 1_000_000, u32::MAX - 1, u32::MAX]
        .into_iter()
        .collect();
    assert_eq!(model, expected);
}

#[test]
fn dense_points_move_to_a_bitmap_store() {
    let mut rb = RoaringBitmap::new();
    let pts: Vec<u32> = (0u32..=16_384).filter(|&x| x % 3 == 0).collect();
    for &p in pts.iter().rev() {
        assert!(rb.insert(p));
    }
    assert!(!rb.insert(3));
    assert_eq!(rb.len(), pts.len() as u64);
    assert_eq!(collect_forward(&rb), pts);
    let mut bwd = collect_backward(&rb);
    bwd.reverse();
    assert_eq!(bwd, pts);
    assert!(rb.contains(16_383));
    assert!(!rb.contains(16_384));
    assert_eq!(rb.range_cardinality(100, 300), 67);
    let mut it = rb.iter();
    it.advance_back_to(100);
    it.advance_to(300);
    assert_eq!(it.next(), None);
    let mut it = rb.iter();
    it.advance_to(301);
    assert_eq!(it.next(), Some(303));
    assert_eq!(it.nth(2), Some(312));
    assert_eq!(it.nth_back(0), Some(16_383));
    it.advance_back_to(400);
    assert_eq!(it.next_back(), Some(399));
}

#[test]
fn range_into_bitmap_store() {
    let mut rb = RoaringBitmap::new();
    for x in 0..5000u32 {
        rb.insert(x * 2);
    }
    rb.insert_range(1, 9);
    assert_eq!(rb.len(), 5005);
    let mut it = rb.iter();
    assert_eq!(it.nth(10), Some(10));
    assert_eq!(it.next(), Some(12));
    assert_eq!(rb.range_cardinality(0, 11), 11);
}

#[test]
fn advancing_to_domain_ends_changes_nothing() {
    let mut rb = RoaringBitmap::new();
    rb.insert_range(0, 10);
    rb.insert(u32::MAX);
    let mut it = rb.iter();
    it.advance_to(0);
    it.advance_back_to(u32::MAX);
    assert_eq!(it.len(), 12);
    assert_eq!(it.next(), Some(0));
    assert_eq!(it.next_back(), Some(u32::MAX));
}
