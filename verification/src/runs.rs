//! Sorted, disjoint, non-adjacent runs of 16-bit values: the run-length
//! encoding that a run container keeps.

use vstd::prelude::*;
use crate::order::increasing16;

verus! {

/// The closed interval `[start, end]` of 16-bit values.
#[derive(Clone, Copy, Debug)]
pub struct Interval {
    pub start: u16,
    pub end: u16,
}

/// Number of values in an interval.
pub open spec fn interval_len(iv: Interval) -> int {
    iv.end - iv.start + 1
}

/// The values of an interval in increasing order.
pub open spec fn interval_seq(iv: Interval) -> Seq<u16> {
    Seq::new((iv.end - iv.start + 1) as nat, |i: int| (iv.start + i) as u16)
}

/// The values of a list of runs, run after run.
pub open spec fn runs_seq(runs: Seq<Interval>) -> Seq<u16>
    decreases runs.len(),
{
    if runs.len() == 0 {
        Seq::empty()
    } else {
        runs_seq(runs.drop_last()) + interval_seq(runs.last())
    }
}

/// Number of values in the first `i` runs.
pub open spec fn runs_prefix(runs: Seq<Interval>, i: int) -> int {
    runs_seq(runs.take(i)).len() as int
}

/// Some run holds `w`.
pub open spec fn runs_has(runs: Seq<Interval>, w: int) -> bool {
    exists|k: int| 0 <= k < runs.len() && (#[trigger] runs[k]).start <= w <= runs[k].end
}

/// Each run is non-empty, and the runs are sorted with a gap between
/// any two of them.
pub open spec fn runs_wf(runs: Seq<Interval>) -> bool {
    &&& forall|i: int| 0 <= i < runs.len() ==> (#[trigger] runs[i]).start <= runs[i].end
    &&& forall|i: int, j: int|
        0 <= i < j < runs.len() ==> (#[trigger] runs[i]).end + 1 < (#[trigger] runs[j]).start
}

/// Run `i` follows the first `i` runs.
pub proof fn lemma_runs_step(runs: Seq<Interval>, i: int)
    requires
        0 <= i < runs.len(),
        runs[i].start <= runs[i].end,
    ensures
        runs_seq(runs.take(i + 1)) == runs_seq(runs.take(i)) + interval_seq(runs[i]),
        runs_prefix(runs, i + 1) == runs_prefix(runs, i) + interval_len(runs[i]),
{
    assert(runs.take(i + 1).drop_last() =~= runs.take(i));
}

/// The values of the first `k` runs begin the values of all runs.
pub proof fn lemma_runs_take(runs: Seq<Interval>, k: int)
    requires
        0 <= k <= runs.len(),
        forall|i: int| 0 <= i < runs.len() ==> (#[trigger] runs[i]).start <= runs[i].end,
    ensures
        runs_prefix(runs, k) <= runs_seq(runs).len(),
        runs_seq(runs).subrange(0, runs_prefix(runs, k)) == runs_seq(runs.take(k)),
    decreases runs.len(),
{
    if k == runs.len() {
        assert(runs.take(k) =~= runs);
        assert(runs_seq(runs).subrange(0, runs_prefix(runs, k)) =~= runs_seq(runs));
    } else {
        let t = runs.drop_last();
        lemma_runs_take(t, k);
        assert(t.take(k) =~= runs.take(k));
        assert(runs_seq(runs) == runs_seq(t) + interval_seq(runs.last()));
        assert(runs_seq(runs).subrange(0, runs_prefix(runs, k)) =~= runs_seq(t).subrange(
            0,
            runs_prefix(t, k),
        ));
    }
}

/// All runs count all values.
pub proof fn lemma_runs_total(runs: Seq<Interval>)
    ensures
        runs_prefix(runs, runs.len() as int) == runs_seq(runs).len(),
{
    assert(runs.take(runs.len() as int) =~= runs);
}

/// The value at offset `o` of run `i` stands at position
/// `runs_prefix(runs, i) + o`.
pub proof fn lemma_runs_index(runs: Seq<Interval>, i: int, o: int)
    requires
        0 <= i < runs.len(),
        0 <= o < interval_len(runs[i]),
        forall|k: int| 0 <= k < runs.len() ==> (#[trigger] runs[k]).start <= runs[k].end,
    ensures
        runs_prefix(runs, i) + o < runs_seq(runs).len(),
        runs_seq(runs)[runs_prefix(runs, i) + o] == runs[i].start + o,
{
    lemma_runs_take(runs, i + 1);
    lemma_runs_step(runs, i);
    let whole = runs_seq(runs);
    let pre = runs_seq(runs.take(i + 1));
    assert(pre[runs_prefix(runs, i) + o] == interval_seq(runs[i])[o]);
    assert(whole.subrange(0, runs_prefix(runs, i + 1))[runs_prefix(runs, i) + o] == whole[runs_prefix(runs, i) + o]);
}

/// More runs hold more values.
pub proof fn lemma_runs_prefix_mono(runs: Seq<Interval>, i: int, j: int)
    requires
        0 <= i <= j <= runs.len(),
        forall|k: int| 0 <= k < runs.len() ==> (#[trigger] runs[k]).start <= runs[k].end,
    ensures
        runs_prefix(runs, i) <= runs_prefix(runs, j),
        i < j ==> runs_prefix(runs, i) < runs_prefix(runs, j),
    decreases j - i,
{
    if i < j {
        lemma_runs_prefix_mono(runs, i, j - 1);
        lemma_runs_step(runs, j - 1);
    }
}

/// The values of the runs are exactly those that some run holds.
pub proof fn lemma_runs_members(runs: Seq<Interval>)
    requires
        forall|k: int| 0 <= k < runs.len() ==> (#[trigger] runs[k]).start <= runs[k].end,
    ensures
        forall|w: u16| runs_seq(runs).contains(w) <==> runs_has(runs, w as int),
    decreases runs.len(),
{
    if runs.len() > 0 {
        let t = runs.drop_last();
        let last = runs.last();
        lemma_runs_members(t);
        let a = runs_seq(t);
        let b = interval_seq(last);
        assert(runs_seq(runs) == a + b);
        assert forall|w: u16| runs_seq(runs).contains(w) <==> runs_has(runs, w as int) by {
            if runs_seq(runs).contains(w) {
                let p = choose|p: int| 0 <= p < runs_seq(runs).len() && runs_seq(runs)[p] == w;
                if p < a.len() {
                    assert(a[p] == w);
                    assert(a.contains(w));
                    assert(runs_has(t, w as int));
                    let k = choose|k: int| 0 <= k < t.len() && (#[trigger] t[k]).start <= w <= t[k].end;
                    assert(runs[k] == t[k]);
                } else {
                    assert(b[p - a.len()] == w);
                    assert(runs[runs.len() - 1] == last);
                }
            }
            if runs_has(runs, w as int) {
                let k = choose|k: int| 0 <= k < runs.len() && (#[trigger] runs[k]).start <= w <= runs[k].end;
                if k < runs.len() - 1 {
                    assert(t[k] == runs[k]);
                    assert(runs_has(t, w as int));
                    assert(a.contains(w));
                    let p = choose|p: int| 0 <= p < a.len() && a[p] == w;
                    assert(runs_seq(runs)[p] == w);
                } else {
                    let o = w - last.start;
                    assert(b[o] == w);
                    assert(runs_seq(runs)[a.len() + o] == w);
                }
            }
        }
    }
}

/// Well-formed runs list their values in strictly increasing order.
pub proof fn lemma_runs_increasing(runs: Seq<Interval>)
    requires
        runs_wf(runs),
    ensures
        increasing16(runs_seq(runs)),
    decreases runs.len(),
{
    if runs.len() > 0 {
        let t = runs.drop_last();
        let last = runs.last();
        assert(runs_wf(t)) by {
            assert forall|i: int, j: int| 0 <= i < j < t.len() implies (#[trigger] t[i]).end + 1 < (
            #[trigger] t[j]).start by {
                assert(t[i] == runs[i] && t[j] == runs[j]);
            }
        }
        lemma_runs_increasing(t);
        lemma_runs_members(t);
        let a = runs_seq(t);
        let b = interval_seq(last);
        let s = runs_seq(runs);
        assert(s == a + b);
        assert forall|i: int, j: int| 0 <= i < j < s.len() implies s[i] < s[j] by {
            if j < a.len() {
                assert(a[i] < a[j]);
            } else if i >= a.len() {
            } else {
                assert(a.contains(a[i]));
                assert(runs_has(t, a[i] as int));
                let k = choose|k: int| 0 <= k < t.len() && (#[trigger] t[k]).start <= a[i] <= t[k].end;
                assert(runs[k] == t[k]);
                assert(runs[k].end + 1 < runs[runs.len() - 1].start);
            }
        }
    }
}

/// Replacing the runs `[i, j)` that touch `[lo, hi]` by one run that covers
/// them and `[lo, hi]` keeps the runs well formed and adds exactly `[lo, hi]`.
proof fn lemma_runs_merge(
    old: Seq<Interval>,
    i: int,
    j: int,
    lo: int,
    hi: int,
    nv: Interval,
    out: Seq<Interval>,
)
    requires
        runs_wf(old),
        0 <= i <= j <= old.len(),
        lo <= hi,
        forall|a: int| 0 <= a < i ==> (#[trigger] old[a]).end + 1 < lo,
        i < old.len() ==> old[i].end + 1 >= lo,
        forall|b: int| i <= b < j ==> (#[trigger] old[b]).start <= hi + 1,
        j < old.len() ==> old[j].start > hi + 1,
        nv.start == (if i < j && old[i].start < lo { old[i].start as int } else { lo }),
        nv.end == (if i < j && old[j - 1].end > hi { old[j - 1].end as int } else { hi }),
        out == old.subrange(0, i).push(nv) + old.subrange(j, old.len() as int),
    ensures
        runs_wf(out),
        forall|w: int| runs_has(out, w) <==> (runs_has(old, w) || (lo <= w <= hi)),
{
    let n = old.len() as int;
    assert(out.len() == i + 1 + (n - j));
    assert forall|k: int| 0 <= k < i implies out[k] == old[k] by {}
    assert(out[i] == nv);
    assert forall|k: int| i < k < out.len() implies out[k] == old[k - i - 1 + j] by {}
    assert forall|b: int| j <= b < n implies (#[trigger] old[b]).start > nv.end + 1 by {
        if i < j && old[j - 1].end > hi {
            assert(old[j - 1].end + 1 < old[b].start);
        } else if b > j {
            assert(old[j].end + 1 < old[b].start);
        }
    }
    assert forall|a: int| 0 <= a < i implies (#[trigger] old[a]).end + 1 < nv.start by {
        if i < j && old[i].start < lo {
            assert(old[a].end + 1 < old[i].start);
        }
    }
    assert(runs_wf(out)) by {
        assert forall|k: int| 0 <= k < out.len() implies (#[trigger] out[k]).start <= out[k].end by {
            if k < i {
                assert(out[k] == old[k]);
            } else if k > i {
                assert(out[k] == old[k - i - 1 + j]);
            }
        }
        assert forall|k1: int, k2: int| 0 <= k1 < k2 < out.len() implies (#[trigger] out[k1]).end
            + 1 < (#[trigger] out[k2]).start by {
            if k2 < i {
                assert(out[k1] == old[k1] && out[k2] == old[k2]);
            } else if k2 == i {
                assert(out[k1] == old[k1]);
            } else if k1 < i {
                assert(out[k1] == old[k1]);
                assert(out[k2] == old[k2 - i - 1 + j]);
                assert(old[k1].end + 1 < old[k2 - i - 1 + j].start);
            } else if k1 == i {
                assert(out[k2] == old[k2 - i - 1 + j]);
            } else {
                assert(out[k1] == old[k1 - i - 1 + j]);
                assert(out[k2] == old[k2 - i - 1 + j]);
            }
        }
    }
    assert forall|w: int| runs_has(out, w) <==> (runs_has(old, w) || (lo <= w <= hi)) by {
        if runs_has(out, w) {
            let k = choose|k: int| 0 <= k < out.len() && (#[trigger] out[k]).start <= w <= out[k].end;
            if k < i {
                assert(out[k] == old[k]);
            } else if k > i {
                assert(out[k] == old[k - i - 1 + j]);
            } else if w < lo {
                assert(old[i].start <= w <= old[i].end);
            } else if w > hi {
                assert(old[j - 1].start <= w <= old[j - 1].end);
            }
        }
        if runs_has(old, w) {
            let k = choose|k: int| 0 <= k < n && (#[trigger] old[k]).start <= w <= old[k].end;
            if k < i {
                assert(out[k] == old[k]);
            } else if k >= j {
                assert(out[k + i + 1 - j] == old[k]);
            } else {
                if k > i {
                    assert(old[i].end + 1 < old[k].start);
                }
                if k < j - 1 {
                    assert(old[k].end + 1 < old[j - 1].start);
                }
                assert(out[i] == nv);
            }
        }
        if lo <= w <= hi {
            assert(out[i] == nv);
        }
    }
}

/// Adds every value of `[lo, hi]` to well-formed runs.
pub fn runs_insert_range(runs: &mut Vec<Interval>, lo: u16, hi: u16)
    requires
        runs_wf(old(runs)@),
        lo <= hi,
    ensures
        runs_wf(final(runs)@),
        forall|w: int| runs_has(final(runs)@, w) <==> (runs_has(old(runs)@, w) || (lo <= w <= hi)),
{
    let n = runs.len();
    if n > 0 && (runs[n - 1].end as u32) + 1 < lo as u32 {
        let ghost before = runs@;
        let nv = Interval { start: lo, end: hi };
        runs.push(nv);
        proof {
            assert forall|a: int| 0 <= a < n implies (#[trigger] before[a]).end + 1 < lo by {
                if a < n - 1 {
                    assert(before[a].end + 1 < before[n - 1].start);
                }
            }
            assert(runs@ =~= before.subrange(0, n as int).push(nv) + before.subrange(
                n as int,
                n as int,
            ));
            lemma_runs_merge(before, n as int, n as int, lo as int, hi as int, nv, runs@);
        }
        return;
    }
    let mut i: usize = 0;
    while i < n && (runs[i].end as u32) + 1 < lo as u32
        invariant
            n == runs.len(),
            i <= n,
            forall|a: int| 0 <= a < i ==> (#[trigger] runs@[a]).end + 1 < lo,
        decreases n - i,
    {
        i = i + 1;
    }
    let mut j: usize = i;
    while j < n && (runs[j].start as u32) <= (hi as u32) + 1
        invariant
            n == runs.len(),
            i <= j <= n,
            forall|b: int| i <= b < j ==> (#[trigger] runs@[b]).start <= hi + 1,
        decreases n - j,
    {
        j = j + 1;
    }
    let new_start = if i < j && runs[i].start < lo {
        runs[i].start
    } else {
        lo
    };
    let new_end = if i < j && runs[j - 1].end > hi {
        runs[j - 1].end
    } else {
        hi
    };
    let nv = Interval { start: new_start, end: new_end };
    let mut out: Vec<Interval> = Vec::new();
    let mut k: usize = 0;
    while k < i
        invariant
            n == runs.len(),
            k <= i <= n,
            out@ == runs@.subrange(0, k as int),
        decreases i - k,
    {
        out.push(runs[k]);
        k = k + 1;
    }
    out.push(nv);
    let mut k: usize = j;
    while k < n
        invariant
            n == runs.len(),
            i <= j <= k <= n,
            out@ == runs@.subrange(0, i as int).push(nv) + runs@.subrange(j as int, k as int),
        decreases n - k,
    {
        out.push(runs[k]);
        k = k + 1;
        assert(out@ =~= runs@.subrange(0, i as int).push(nv) + runs@.subrange(j as int, k as int));
    }
    proof {
        lemma_runs_merge(runs@, i as int, j as int, lo as int, hi as int, nv, out@);
    }
    *runs = out;
}

/// The runs that hold exactly the values of a strictly increasing array.
pub fn runs_of_array(values: &Vec<u16>) -> (runs: Vec<Interval>)
    requires
        increasing16(values@),
    ensures
        runs_wf(runs@),
        runs_seq(runs@) == values@,
{
    let mut out: Vec<Interval> = Vec::new();
    let n = values.len();
    let mut k: usize = 0;
    while k < n
        invariant
            n == values.len(),
            k <= n,
            increasing16(values@),
            runs_wf(out@),
            runs_seq(out@) == values@.take(k as int),
            k > 0 ==> out@.len() > 0 && out@.last().end == values@[k - 1],
            k == 0 ==> out@.len() == 0,
        decreases n - k,
    {
        let x = values[k];
        let m = out.len();
        let ghost before = out@;
        if m > 0 && (out[m - 1].end as u32) + 1 == x as u32 {
            let prev = out[m - 1];
            let grown = Interval { start: prev.start, end: x };
            proof {
                assert(out@.drop_last() == out@.update(m - 1, grown).drop_last());
                assert(interval_seq(grown) =~= interval_seq(prev).push(x));
            }
            out[m - 1] = grown;
            proof {
                assert(values@.take(k + 1) =~= values@.take(k as int).push(x));
                assert(runs_seq(out@) =~= values@.take(k + 1));
                assert forall|i: int, j: int| 0 <= i < j < out@.len() implies (#[trigger] out@[i]).end
                    + 1 < (#[trigger] out@[j]).start by {
                    if j == m - 1 {
                        assert(before[i].end + 1 < prev.start);
                    }
                }
            }
        } else {
            let single = Interval { start: x, end: x };
            proof {
                if m > 0 {
                    assert(values@[k - 1] < x);
                }
            }
            out.push(single);
            proof {
                assert(out@.drop_last() =~= before);
                assert(interval_seq(single) =~= seq![x]);
                assert(values@.take(k + 1) =~= values@.take(k as int).push(x));
                assert(runs_seq(out@) =~= values@.take(k + 1));
                assert forall|i: int, j: int| 0 <= i < j < out@.len() implies (#[trigger] out@[i]).end
                    + 1 < (#[trigger] out@[j]).start by {
                    if j == m && i < m - 1 {
                        assert(out@[i].end + 1 < out@[m - 1].start);
                    }
                }
            }
        }
        k = k + 1;
    }
    proof {
        assert(values@.take(n as int) =~= values@);
    }
    out
}

} // verus!
