//! Model-based properties of the bitmap.
//!
//! Each `property_<name>` takes concrete, owned inputs and returns a
//! `PropertyResult`. The inputs are a recipe: a list of points and a list of
//! `(start, len)` ranges. The bitmap is built by inserting every range
//! `start..=start + len` (saturating) and then every point; the model is a
//! `BTreeSet` built from the same recipe. Every walk over the bitmap takes at
//! most `model length + 2` values.

use vstd::prelude::*;
use std::collections::BTreeSet;
use crate::order::{
    increasing, at_least, at_most, within, lemma_filter_increasing, lemma_increasing_unique,
};
use crate::bitmap::RoaringBitmap;
use crate::bitmap::iter::Iter;
use crate::model::{sorted_members, model_insert};
use crate::laws::law_recipe_values;

verus! {

/// The outcome of a property on one input.
pub enum PropertyResult {
    Pass,
    Fail(String),
    Discard,
}

/// The last value of the range `(start, len)`: `start + len`, saturating.
pub open spec fn range_end(r: (u32, u16)) -> u32 {
    r.0.saturating_add(r.1 as u32)
}

/// The values a recipe describes: its points and the values of its ranges.
pub open spec fn recipe(values: Seq<u32>, ranges: Seq<(u32, u16)>) -> Set<u32> {
    Set::new(
        |x: u32|
            values.contains(x) || exists|i: int|
                0 <= i < ranges.len() && (#[trigger] ranges[i]).0 <= x && x <= range_end(ranges[i]),
    )
}

/// The bitmap of a recipe: ranges first, then points.
pub fn bitmap_from_spec(values: &[u32], ranges: &[(u32, u16)]) -> (rb: RoaringBitmap)
    ensures
        rb.wf(),
        rb@ == recipe(values@, ranges@),
        forall|i: int| 0 <= i < values@.len() ==> #[trigger] rb@.contains(values@[i]),
        forall|i: int, x: u32|
            #![trigger ranges@[i], rb@.contains(x)]
            0 <= i < ranges@.len() && ranges@[i].0 <= x && x <= ranges@[i].0 + ranges@[i].1
                ==> rb@.contains(x),
        forall|x: u32|
            #[trigger] rb@.contains(x) ==> values@.contains(x) || exists|i: int|
                0 <= i < ranges@.len() && (#[trigger] ranges@[i]).0 <= x && x <= ranges@[i].0
                    + ranges@[i].1,
{
    let mut rb = RoaringBitmap::new();
    let mut i: usize = 0;
    while i < ranges.len()
        invariant
            rb.wf(),
            i <= ranges@.len(),
            forall|x: u32|
                rb@.contains(x) <==> exists|k: int|
                    0 <= k < i && (#[trigger] ranges@[k]).0 <= x && x <= range_end(ranges@[k]),
        decreases ranges@.len() - i,
    {
        let (start, len) = ranges[i];
        let end = start.saturating_add(len as u32);
        let ghost before = rb@;
        rb.insert_range(start, end);
        proof {
            assert forall|x: u32|
                rb@.contains(x) <==> exists|k: int|
                    0 <= k < i + 1 && (#[trigger] ranges@[k]).0 <= x && x <= range_end(ranges@[k]) by {
                if rb@.contains(x) && !before.contains(x) {
                    assert(ranges@[i as int].0 <= x && x <= range_end(ranges@[i as int]));
                }
                if exists|k: int|
                    0 <= k < i + 1 && (#[trigger] ranges@[k]).0 <= x && x <= range_end(ranges@[k]) {
                    let k = choose|k: int|
                        0 <= k < i + 1 && (#[trigger] ranges@[k]).0 <= x && x <= range_end(ranges@[k]);
                    if k < i {
                        assert(before.contains(x));
                    }
                }
            }
        }
        i = i + 1;
    }
    let mut j: usize = 0;
    while j < values.len()
        invariant
            rb.wf(),
            j <= values@.len(),
            forall|x: u32|
                rb@.contains(x) <==> (values@.take(j as int).contains(x) || exists|k: int|
                    0 <= k < ranges@.len() && (#[trigger] ranges@[k]).0 <= x && x <= range_end(
                        ranges@[k],
                    )),
        decreases values@.len() - j,
    {
        let v = values[j];
        let ghost before = rb@;
        rb.insert(v);
        proof {
            assert(values@.take(j + 1) =~= values@.take(j as int).push(v));
            assert forall|x: u32| values@.take(j + 1).contains(x) <==> (values@.take(
                j as int,
            ).contains(x) || x == v) by {
                if values@.take(j + 1).contains(x) && x != v {
                    let p = choose|p: int| 0 <= p < j + 1 && #[trigger] values@.take(j + 1)[p] == x;
                    assert(values@.take(j as int)[p] == x);
                }
                if x == v {
                    assert(values@.take(j + 1)[j as int] == x);
                }
            }
        }
        j = j + 1;
    }
    proof {
        assert(values@.take(values@.len() as int) =~= values@);
        assert(rb@ =~= recipe(values@, ranges@));
        law_recipe_values(values@, ranges@);
    }
    rb
}

/// The model of a recipe.
pub fn model_from_spec(values: &[u32], ranges: &[(u32, u16)]) -> (m: BTreeSet<u32>)
    ensures
        m@ == recipe(values@, ranges@),
        forall|i: int| 0 <= i < values@.len() ==> #[trigger] m@.contains(values@[i]),
        forall|i: int, x: u32|
            #![trigger ranges@[i], m@.contains(x)]
            0 <= i < ranges@.len() && ranges@[i].0 <= x && x <= ranges@[i].0 + ranges@[i].1
                ==> m@.contains(x),
        forall|x: u32|
            #[trigger] m@.contains(x) ==> values@.contains(x) || exists|i: int|
                0 <= i < ranges@.len() && (#[trigger] ranges@[i]).0 <= x && x <= ranges@[i].0
                    + ranges@[i].1,
{
    let mut m: BTreeSet<u32> = BTreeSet::new();
    let mut j: usize = 0;
    while j < values.len()
        invariant
            j <= values@.len(),
            forall|x: u32| m@.contains(x) <==> values@.take(j as int).contains(x),
        decreases values@.len() - j,
    {
        let v = values[j];
        let ghost before = m@;
        model_insert(&mut m, v);
        proof {
            assert(values@.take(j + 1) =~= values@.take(j as int).push(v));
            assert forall|x: u32| m@.contains(x) <==> values@.take(j + 1).contains(x) by {
                assert(m@.contains(x) <==> (before.contains(x) || x == v));
                if values@.take(j + 1).contains(x) && x != v {
                    let p = choose|p: int| 0 <= p < j + 1 && #[trigger] values@.take(j + 1)[p] == x;
                    assert(values@.take(j as int)[p] == x);
                }
                if x == v {
                    assert(values@.take(j + 1)[j as int] == x);
                }
                if values@.take(j as int).contains(x) {
                    let p = choose|p: int| 0 <= p < j && #[trigger] values@.take(j as int)[p] == x;
                    assert(values@.take(j + 1)[p] == x);
                }
            }
        }
        j = j + 1;
    }
    proof {
        assert(values@.take(values@.len() as int) =~= values@);
    }
    let mut i: usize = 0;
    while i < ranges.len()
        invariant
            i <= ranges@.len(),
            forall|x: u32|
                m@.contains(x) <==> (values@.contains(x) || exists|k: int|
                    0 <= k < i && (#[trigger] ranges@[k]).0 <= x && x <= range_end(ranges@[k])),
        decreases ranges@.len() - i,
    {
        let (start, len) = ranges[i];
        let end = start.saturating_add(len as u32);
        let mut v: u64 = start as u64;
        while v <= end as u64
            invariant
                i < ranges@.len(),
                start == ranges@[i as int].0,
                end == range_end(ranges@[i as int]),
                start <= v <= end as u64 + 1,
                forall|x: u32|
                    m@.contains(x) <==> (values@.contains(x) || exists|k: int|
                        0 <= k < i && (#[trigger] ranges@[k]).0 <= x && x <= range_end(ranges@[k])
                    ) || (start <= x && x < v),
            decreases end as u64 + 1 - v,
        {
            model_insert(&mut m, v as u32);
            v = v + 1;
        }
        proof {
            assert forall|x: u32|
                m@.contains(x) <==> (values@.contains(x) || exists|k: int|
                    0 <= k < i + 1 && (#[trigger] ranges@[k]).0 <= x && x <= range_end(ranges@[k])) by {
                if start <= x && x <= end {
                    assert(ranges@[i as int].0 <= x && x <= range_end(ranges@[i as int]));
                }
                if exists|k: int|
                    0 <= k < i + 1 && (#[trigger] ranges@[k]).0 <= x && x <= range_end(ranges@[k]) {
                    let k = choose|k: int|
                        0 <= k < i + 1 && (#[trigger] ranges@[k]).0 <= x && x <= range_end(ranges@[k]);
                    if k == i {
                        assert(start <= x && x < v);
                    }
                }
            }
        }
        i = i + 1;
    }
    proof {
        assert(m@ =~= recipe(values@, ranges@));
        law_recipe_values(values@, ranges@);
    }
    m
}

/// Up to `cap` values taken from the front of `it`, in order.
fn take_front(it: &mut Iter, cap: usize) -> (r: Vec<u32>)
    requires
        old(it).wf(),
    ensures
        final(it).wf(),
        r@ == old(it)@.take(if cap < old(it)@.len() { cap as int } else { old(it)@.len() as int }),
{
    let mut out: Vec<u32> = Vec::new();
    let mut done = false;
    while !done && out.len() < cap
        invariant
            it.wf(),
            out@.len() <= cap,
            old(it)@ == out@ + it@,
            done ==> it@.len() == 0,
        decreases cap - out@.len() + (if done { 0int } else { 1int }),
    {
        let ghost before = it@;
        match it.next() {
            Some(v) => {
                out.push(v);
                assert(old(it)@ =~= out@ + it@);
            },
            None => {
                done = true;
            },
        }
    }
    assert(old(it)@.take(out@.len() as int) =~= out@);
    out
}

/// Up to `cap` values taken from the back of `it`, last value first.
fn take_back(it: &mut Iter, cap: usize) -> (r: Vec<u32>)
    requires
        old(it).wf(),
    ensures
        final(it).wf(),
        r@.len() == (if cap < old(it)@.len() { cap as int } else { old(it)@.len() as int }),
        forall|i: int| 0 <= i < r@.len() ==> #[trigger] r@[i] == old(it)@[old(it)@.len() - 1 - i],
{
    let mut out: Vec<u32> = Vec::new();
    let mut done = false;
    while !done && out.len() < cap
        invariant
            it.wf(),
            out@.len() <= cap,
            out@.len() + it@.len() == old(it)@.len(),
            it@ == old(it)@.take(it@.len() as int),
            forall|i: int| 0 <= i < out@.len() ==> #[trigger] out@[i] == old(it)@[old(it)@.len() - 1 - i],
            done ==> it@.len() == 0,
        decreases cap - out@.len() + (if done { 0int } else { 1int }),
    {
        let ghost before = it@;
        match it.next_back() {
            Some(v) => {
                out.push(v);
                assert(it@ =~= old(it)@.take(it@.len() as int));
            },
            None => {
                done = true;
            },
        }
    }
    out
}

/// The values of `v` in reverse order.
fn reversed(v: &Vec<u32>) -> (r: Vec<u32>)
    ensures
        r@.len() == v@.len(),
        forall|i: int| 0 <= i < r@.len() ==> #[trigger] r@[i] == v@[v@.len() - 1 - i],
{
    let mut out: Vec<u32> = Vec::new();
    let mut k: usize = v.len();
    while k > 0
        invariant
            k <= v@.len(),
            out@.len() == v@.len() - k,
            forall|i: int| 0 <= i < out@.len() ==> #[trigger] out@[i] == v@[v@.len() - 1 - i],
        decreases k,
    {
        k = k - 1;
        out.push(v[k]);
    }
    out
}

/// Whether two vectors hold the same values in the same order.
fn same_values(a: &Vec<u32>, b: &Vec<u32>) -> (r: bool)
    ensures
        r == (a@ == b@),
{
    if a.len() != b.len() {
        return false;
    }
    let mut k: usize = 0;
    while k < a.len()
        invariant
            a@.len() == b@.len(),
            k <= a@.len(),
            forall|i: int| 0 <= i < k ==> a@[i] == b@[i],
        decreases a@.len() - k,
    {
        if a[k] != b[k] {
            return false;
        }
        k = k + 1;
    }
    assert(a@ =~= b@);
    true
}

/// Whether two optional values are equal.
fn same_option(a: Option<u32>, b: Option<u32>) -> (r: bool)
    ensures
        r == (a == b),
{
    match (a, b) {
        (Some(x), Some(y)) => x == y,
        (None, None) => true,
        _ => false,
    }
}

/// The values of `v` that lie in `[lo, hi]`, in order.
fn keep_between(v: &Vec<u32>, lo: u32, hi: u32) -> (r: Vec<u32>)
    ensures
        r@ == v@.filter(within(lo, hi)),
{
    let mut out: Vec<u32> = Vec::new();
    let mut k: usize = 0;
    while k < v.len()
        invariant
            k <= v@.len(),
            out@ == v@.take(k as int).filter(within(lo, hi)),
        decreases v@.len() - k,
    {
        proof {
            reveal(Seq::filter);
            assert(v@.take(k + 1).drop_last() =~= v@.take(k as int));
        }
        if lo <= v[k] && v[k] <= hi {
            out.push(v[k]);
        }
        k = k + 1;
    }
    assert(v@.take(v@.len() as int) =~= v@);
    out
}

/// The message of a failed comparison, written by std's `format!`:
/// `"<what>: got <got>, expected <want>"`. Nothing is claimed of the text.
#[verifier::external_body]
fn mismatch_message(what: &str, got: Option<u64>, want: Option<u64>) -> String {
    format!("{}: got {:?}, expected {:?}", what, got, want)
}

/// A value widened to 64 bits.
fn widen(v: Option<u32>) -> (r: Option<u64>)
    ensures
        r == (match v {
            Some(x) => Some(x as u64),
            None => None,
        }),
{
    match v {
        Some(x) => Some(x as u64),
        None => None,
    }
}

/// Walking the bitmap forward, and backward, gives the model's values in
/// increasing order, and the bitmap has as many values as the model. Also
/// probes `nth(k)` and `nth_back(k)` followed by `len()` at the positions
/// where a first full container would end.
pub fn property_iter_matches_model(values: Vec<u32>, ranges: Vec<(u32, u16)>) -> (r: PropertyResult)
    ensures
        r is Pass,
{
    let model = model_from_spec(values.as_slice(), ranges.as_slice());
    let rb = bitmap_from_spec(values.as_slice(), ranges.as_slice());
    let want = sorted_members(&model);
    proof {
        rb.lemma_sorted();
        lemma_increasing_unique(rb.sorted(), want@);
    }
    let cap = want.len().saturating_add(2);

    let mut it = rb.iter();
    let forward = take_front(&mut it, cap);
    assert(forward@ =~= want@);
    if !same_values(&forward, &want) {
        return PropertyResult::Fail(mismatch_message("iter", Some(forward.len() as u64), Some(want.len() as u64)));
    }

    let mut it = rb.iter();
    let backward_rev = take_back(&mut it, cap);
    let backward = reversed(&backward_rev);
    assert(backward@ =~= want@);
    if !same_values(&backward, &want) {
        return PropertyResult::Fail(
            mismatch_message("iter().rev()", Some(backward.len() as u64), Some(want.len() as u64)),
        );
    }

    let got_len = rb.len();
    let want_len = want.len() as u64;
    if got_len != want_len {
        return PropertyResult::Fail(mismatch_message("len", Some(got_len), Some(want_len)));
    }

    if want.len() > 0 {
        let boundaries: Vec<usize> = vec![0, 65_535, 131_071, 196_607];
        let mut b: usize = 0;
        while b < boundaries.len()
            invariant
                rb.wf(),
            decreases boundaries@.len() - b,
        {
            let k = boundaries[b];
            if k < want.len() {
                let mut probe = rb.iter();
                let _ = probe.nth(k);
                let _ = probe.len();
                let mut probe = rb.iter();
                let _ = probe.nth_back(k);
                let _ = probe.len();
            }
            b = b + 1;
        }
    }
    PropertyResult::Pass
}

/// After `advance_back_to(back_target)` and then `advance_to(target)`, the
/// values left, walked forward, are those of the model in
/// `[target, back_target]`.
pub fn property_advance_to_matches_model(
    values: Vec<u32>,
    ranges: Vec<(u32, u16)>,
    back_target: u32,
    target: u32,
) -> (r: PropertyResult)
    ensures
        r is Pass,
{
    let model = model_from_spec(values.as_slice(), ranges.as_slice());
    let rb = bitmap_from_spec(values.as_slice(), ranges.as_slice());
    let members = sorted_members(&model);
    let expected = keep_between(&members, target, back_target);
    let mut it = rb.iter();
    it.advance_back_to(back_target);
    it.advance_to(target);
    let cap = expected.len().saturating_add(2);
    proof {
        rb.lemma_sorted();
        lemma_increasing_unique(rb.sorted(), members@);
        let f = rb.sorted();
        lemma_filter_increasing(f, at_most(back_target));
        lemma_filter_increasing(f.filter(at_most(back_target)), at_least(target));
        lemma_filter_increasing(f, within(target, back_target));
        assert forall|v: u32| it@.contains(v) <==> expected@.contains(v) by {
            assert(f.filter(at_most(back_target)).contains(v) <==> (f.contains(v) && at_most(back_target)(v)));
            assert(it@.contains(v) <==> (f.filter(at_most(back_target)).contains(v) && at_least(target)(v)));
            assert(expected@.contains(v) <==> (f.contains(v) && within(target, back_target)(v)));
        }
        lemma_increasing_unique(it@, expected@);
    }
    let got = take_front(&mut it, cap);
    assert(got@ =~= expected@);
    if !same_values(&got, &expected) {
        return PropertyResult::Fail(
            mismatch_message(
                "advance_back_to + advance_to",
                Some(got.len() as u64),
                Some(expected.len() as u64),
            ),
        );
    }
    PropertyResult::Pass
}

/// After `advance_to(forward_target)` and then `advance_back_to(target)`,
/// the values left, walked backward, are those of the model in
/// `[forward_target, target]`.
pub fn property_advance_back_to_matches_model(
    values: Vec<u32>,
    ranges: Vec<(u32, u16)>,
    forward_target: u32,
    target: u32,
) -> (r: PropertyResult)
    ensures
        r is Pass,
{
    let model = model_from_spec(values.as_slice(), ranges.as_slice());
    let rb = bitmap_from_spec(values.as_slice(), ranges.as_slice());
    let members = sorted_members(&model);
    let expected = keep_between(&members, forward_target, target);
    let mut it = rb.iter();
    it.advance_to(forward_target);
    it.advance_back_to(target);
    let cap = expected.len().saturating_add(2);
    proof {
        rb.lemma_sorted();
        lemma_increasing_unique(rb.sorted(), members@);
        let f = rb.sorted();
        lemma_filter_increasing(f, at_least(forward_target));
        lemma_filter_increasing(f.filter(at_least(forward_target)), at_most(target));
        lemma_filter_increasing(f, within(forward_target, target));
        assert forall|v: u32| it@.contains(v) <==> expected@.contains(v) by {
            assert(f.filter(at_least(forward_target)).contains(v) <==> (f.contains(v) && at_least(forward_target)(v)));
            assert(it@.contains(v) <==> (f.filter(at_least(forward_target)).contains(v) && at_most(target)(v)));
            assert(expected@.contains(v) <==> (f.contains(v) && within(forward_target, target)(v)));
        }
        lemma_increasing_unique(it@, expected@);
    }
    let got_rev = take_back(&mut it, cap);
    let got = reversed(&got_rev);
    assert(got@ =~= expected@);
    if !same_values(&got, &expected) {
        return PropertyResult::Fail(
            mismatch_message(
                "advance_to + advance_back_to",
                Some(got.len() as u64),
                Some(expected.len() as u64),
            ),
        );
    }
    PropertyResult::Pass
}

/// After `advance_back_to(back_target)`, `nth(n)` is the `n`-th value of the
/// model that is at most `back_target`. Inputs with more than one range are
/// discarded.
pub fn property_iter_nth_matches_model(
    values: Vec<u32>,
    ranges: Vec<(u32, u16)>,
    back_target: u32,
    n: u32,
) -> (r: PropertyResult)
    ensures
        ranges@.len() > 1 ==> r is Discard,
        ranges@.len() <= 1 ==> r is Pass,
{
    if ranges.len() > 1 {
        return PropertyResult::Discard;
    }
    let model = model_from_spec(values.as_slice(), ranges.as_slice());
    let members = sorted_members(&model);
    let truncated = keep_between(&members, 0, back_target);
    let rb = bitmap_from_spec(values.as_slice(), ranges.as_slice());
    let k = n as usize;
    let mut it = rb.iter();
    it.advance_back_to(back_target);
    proof {
        rb.lemma_sorted();
        lemma_increasing_unique(rb.sorted(), members@);
        let f = rb.sorted();
        lemma_filter_increasing(f, at_most(back_target));
        lemma_filter_increasing(f, within(0, back_target));
        assert forall|v: u32| it@.contains(v) <==> truncated@.contains(v) by {
            assert(it@.contains(v) <==> (f.contains(v) && at_most(back_target)(v)));
            assert(truncated@.contains(v) <==> (f.contains(v) && within(0, back_target)(v)));
        }
        lemma_increasing_unique(it@, truncated@);
    }
    let got = it.nth(k);
    let expected = if k < truncated.len() {
        Some(truncated[k])
    } else {
        None
    };
    if !same_option(got, expected) {
        return PropertyResult::Fail(mismatch_message("advance_back_to + nth", widen(got), widen(expected)));
    }
    PropertyResult::Pass
}

/// The number of values of the bitmap in `[start, end]` is the number of
/// values of the model there. Inputs with `start > end` are discarded.
pub fn property_range_cardinality_matches_model(
    values: Vec<u32>,
    ranges: Vec<(u32, u16)>,
    start: u32,
    end: u32,
) -> (r: PropertyResult)
    ensures
        start > end ==> r is Discard,
        start <= end ==> r is Pass,
{
    if start > end {
        return PropertyResult::Discard;
    }
    let rb = bitmap_from_spec(values.as_slice(), ranges.as_slice());
    let got = rb.range_cardinality(start, end);
    let model = model_from_spec(values.as_slice(), ranges.as_slice());
    let members = sorted_members(&model);
    let inside = keep_between(&members, start, end);
    let want = inside.len() as u64;
    proof {
        rb.lemma_sorted();
        lemma_increasing_unique(rb.sorted(), members@);
    }
    if got != want {
        return PropertyResult::Fail(mismatch_message("range_cardinality", Some(got), Some(want)));
    }
    PropertyResult::Pass
}

} // verus!
