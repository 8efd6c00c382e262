//! Laws that relate several operations of the bitmap.

use vstd::prelude::*;
use crate::order::{
    increasing, at_least, at_most, within, lemma_increasing_unique, lemma_filter_window,
};
use crate::bitmap::RoaringBitmap;
use crate::etna::recipe;

verus! {

/// Walking a bitmap gives its values in the one strictly increasing order:
/// any strictly increasing sequence of the same values, such as the walk of
/// an ordered set that holds them, is that walk.
pub proof fn law_walk_is_sorted_order(rb: RoaringBitmap, s: Seq<u32>)
    requires
        rb.wf(),
        increasing(s),
        forall|x: u32| s.contains(x) <==> rb@.contains(x),
    ensures
        rb.sorted() == s,
{
    rb.lemma_sorted();
    lemma_increasing_unique(rb.sorted(), s);
}

/// A bitmap with the same values as a set has as many values as the set.
pub proof fn law_len_is_set_len(rb: RoaringBitmap, m: Set<u32>)
    requires
        rb.wf(),
        rb@ == m,
    ensures
        rb.sorted().len() == m.len(),
{
    rb.lemma_sorted();
}

/// Cutting the values above `b` and then those below `t`, or the other way
/// round, leaves exactly the values of `[t, b]`: nothing when `b < t`.
pub proof fn law_cut_both_ends(s: Seq<u32>, t: u32, b: u32)
    ensures
        s.filter(at_most(b)).filter(at_least(t)) == s.filter(within(t, b)),
        s.filter(at_least(t)).filter(at_most(b)) == s.filter(within(t, b)),
        b < t ==> s.filter(within(t, b)).len() == 0,
    decreases s.len(),
{
    reveal(Seq::filter);
    if s.len() > 0 {
        law_cut_both_ends(s.drop_last(), t, b);
        let last = s.last();
        if at_most(b)(last) {
            assert(s.filter(at_most(b)) == s.drop_last().filter(at_most(b)).push(last));
            assert(s.filter(at_most(b)).drop_last() =~= s.drop_last().filter(at_most(b)));
        }
        if at_least(t)(last) {
            assert(s.filter(at_least(t)).drop_last() =~= s.drop_last().filter(at_least(t)));
        }
    }
}

/// Cutting below 0 or above `u32::MAX` leaves every value: advancing the
/// front to 0 or the back to `u32::MAX` changes nothing.
pub proof fn law_cut_at_domain_ends(s: Seq<u32>)
    ensures
        s.filter(at_least(0)) == s,
        s.filter(at_most(u32::MAX)) == s,
{
    lemma_filter_window(s, at_least(0), 0, s.len() as int);
    lemma_filter_window(s, at_most(u32::MAX), 0, s.len() as int);
    assert(s.subrange(0, s.len() as int) =~= s);
}

/// The values of a recipe: every point, every value `x` of a range
/// `(start, len)` with `start <= x <= start + len` (so the range ends at
/// `u32::MAX` when `start + len` would pass it), and nothing else.
pub proof fn law_recipe_values(values: Seq<u32>, ranges: Seq<(u32, u16)>)
    ensures
        forall|i: int| 0 <= i < values.len() ==> #[trigger] recipe(values, ranges).contains(values[i]),
        forall|i: int, x: u32|
            #![trigger ranges[i], recipe(values, ranges).contains(x)]
            0 <= i < ranges.len() && ranges[i].0 <= x && x <= ranges[i].0 + ranges[i].1 ==> recipe(
                values,
                ranges,
            ).contains(x),
        forall|x: u32|
            #[trigger] recipe(values, ranges).contains(x) ==> values.contains(x) || exists|i: int|
                0 <= i < ranges.len() && (#[trigger] ranges[i]).0 <= x && x <= ranges[i].0
                    + ranges[i].1,
{
    assert forall|i: int| 0 <= i < values.len() implies #[trigger] recipe(values, ranges).contains(values[i]) by {
        assert(values.contains(values[i]));
    }
}

/// A single range `(s, l)` holds exactly the values `s..=s + l`, cut at
/// `u32::MAX`; a range of length 0 is the single value `s`.
pub proof fn law_single_range(s: u32, l: u16)
    ensures
        forall|x: u32|
            #[trigger] recipe(Seq::empty(), seq![(s, l)]).contains(x) <==> (s <= x && x <= s + l),
        recipe(Seq::empty(), seq![(s, 0u16)]) == Set::<u32>::empty().insert(s),
{
    let r = seq![(s, l)];
    assert forall|x: u32|
        #[trigger] recipe(Seq::empty(), r).contains(x) <==> (s <= x && x <= s + l) by {
        if s <= x && x <= s + l {
            assert(r[0].0 <= x);
        }
        if recipe(Seq::empty(), r).contains(x) {
            assert(!Seq::<u32>::empty().contains(x));
            let i = choose|i: int| 0 <= i < r.len() && (#[trigger] r[i]).0 <= x && x <= crate::etna::range_end(r[i]);
            assert(i == 0);
        }
    }
    let r0 = seq![(s, 0u16)];
    assert forall|x: u32|
        #[trigger] recipe(Seq::empty(), r0).contains(x) <==> x == s by {
        if x == s {
            assert(r0[0].0 <= x);
        }
        if recipe(Seq::empty(), r0).contains(x) {
            assert(!Seq::<u32>::empty().contains(x));
            let i = choose|i: int| 0 <= i < r0.len() && (#[trigger] r0[i]).0 <= x && x <= crate::etna::range_end(r0[i]);
            assert(i == 0);
        }
    }
    assert(recipe(Seq::empty(), r0) =~= Set::<u32>::empty().insert(s));
}

/// A bitmap built from a single range `(s, l)` that does not pass
/// `u32::MAX` has exactly `l + 1` values, `s` up to `s + l`.
pub proof fn law_single_range_len(rb: RoaringBitmap, s: u32, l: u16)
    requires
        rb.wf(),
        rb@ == recipe(Seq::empty(), seq![(s, l)]),
        s + l <= u32::MAX,
    ensures
        rb.sorted() == Seq::new(l as nat + 1, |i: int| (s + i) as u32),
        rb.sorted().len() == l + 1,
        rb@.len() == l + 1,
{
    law_single_range(s, l);
    rb.lemma_sorted();
    let t = Seq::new(l as nat + 1, |i: int| (s + i) as u32);
    assert forall|x: u32| t.contains(x) <==> rb@.contains(x) by {
        if t.contains(x) {
            let i = choose|i: int| 0 <= i < t.len() && t[i] == x;
            assert(recipe(Seq::empty(), seq![(s, l)]).contains(x));
        }
        if rb@.contains(x) {
            assert(recipe(Seq::empty(), seq![(s, l)]).contains(x));
            assert(t[x - s] == x);
        }
    }
    lemma_increasing_unique(rb.sorted(), t);
}

} // verus!
