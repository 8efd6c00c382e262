//! Facts about strictly increasing sequences and about filtering them.

use vstd::prelude::*;

verus! {

/// `s` lists its elements in strictly increasing order.
pub open spec fn increasing(s: Seq<u32>) -> bool {
    forall|i: int, j: int| 0 <= i < j < s.len() ==> s[i] < s[j]
}

/// `s` lists its elements in strictly increasing order.
pub open spec fn increasing16(s: Seq<u16>) -> bool {
    forall|i: int, j: int| 0 <= i < j < s.len() ==> s[i] < s[j]
}

/// The values that are at least `x`.
pub open spec fn at_least(x: u32) -> spec_fn(u32) -> bool {
    |v: u32| x <= v
}

/// The values that are at most `x`.
pub open spec fn at_most(x: u32) -> spec_fn(u32) -> bool {
    |v: u32| v <= x
}

/// The values of the closed interval `[lo, hi]`.
pub open spec fn within(lo: u32, hi: u32) -> spec_fn(u32) -> bool {
    |v: u32| lo <= v && v <= hi
}

/// Filtering a sequence whose elements satisfy `p` exactly on the index
/// window `[a, b)` keeps exactly that window.
pub proof fn lemma_filter_window(s: Seq<u32>, p: spec_fn(u32) -> bool, a: int, b: int)
    requires
        0 <= a <= b <= s.len(),
        forall|i: int| 0 <= i < a ==> !p(#[trigger] s[i]),
        forall|i: int| a <= i < b ==> p(#[trigger] s[i]),
        forall|i: int| b <= i < s.len() ==> !p(#[trigger] s[i]),
    ensures
        s.filter(p) == s.subrange(a, b),
    decreases s.len(),
{
    reveal(Seq::filter);
    let n = s.len() as int;
    if n == 0 {
        assert(s.filter(p) =~= s.subrange(a, b));
    } else {
        let t = s.drop_last();
        if b < n {
            assert(!p(s[n - 1]));
            lemma_filter_window(t, p, a, b);
            assert(t.subrange(a, b) =~= s.subrange(a, b));
        } else if a < n {
            assert(p(s[n - 1]));
            lemma_filter_window(t, p, a, n - 1);
            assert(t.subrange(a, n - 1).push(s[n - 1]) =~= s.subrange(a, b));
        } else {
            assert(!p(s[n - 1]));
            lemma_filter_window(t, p, n - 1, n - 1);
            assert(t.subrange(n - 1, n - 1) =~= s.subrange(a, b));
        }
    }
}

/// Filtering keeps a strictly increasing sequence strictly increasing, and
/// keeps exactly the elements that satisfy the predicate.
pub proof fn lemma_filter_increasing(s: Seq<u32>, p: spec_fn(u32) -> bool)
    requires
        increasing(s),
    ensures
        increasing(s.filter(p)),
        forall|v: u32| s.filter(p).contains(v) <==> (s.contains(v) && p(v)),
    decreases s.len(),
{
    reveal(Seq::filter);
    if s.len() > 0 {
        let t = s.drop_last();
        let last = s.last();
        lemma_filter_increasing(t, p);
        let ft = t.filter(p);
        assert forall|v: u32| ft.contains(v) implies v < last by {
            assert(t.contains(v));
            let k = choose|k: int| 0 <= k < t.len() && t[k] == v;
            assert(s[k] == v);
        }
        if p(last) {
            let fs = ft.push(last);
            assert forall|i: int, j: int| 0 <= i < j < fs.len() implies fs[i] < fs[j] by {
                if j == fs.len() - 1 {
                    assert(ft.contains(fs[i]));
                }
            }
        }
        assert(s.filter(p) == if p(last) { ft.push(last) } else { ft });
        assert forall|v: u32| s.filter(p).contains(v) <==> (s.contains(v) && p(v)) by {
            if s.contains(v) && p(v) {
                let k = choose|k: int| 0 <= k < s.len() && s[k] == v;
                if k < s.len() - 1 {
                    assert(t[k] == v);
                    assert(ft.contains(v));
                    if p(last) {
                        let j = choose|j: int| 0 <= j < ft.len() && ft[j] == v;
                        assert(ft.push(last)[j] == v);
                    }
                } else {
                    assert(ft.push(last)[ft.len() as int] == v);
                }
            }
            if s.filter(p).contains(v) {
                if p(last) && v == last {
                } else {
                    let j = choose|j: int| 0 <= j < s.filter(p).len() && s.filter(p)[j] == v;
                    if p(last) {
                        assert(ft[j] == v);
                    }
                    assert(ft.contains(v));
                    assert(t.contains(v));
                    let k = choose|k: int| 0 <= k < t.len() && t[k] == v;
                    assert(s[k] == v);
                }
            }
        }
    }
}

/// Two strictly increasing sequences with the same elements are equal.
pub proof fn lemma_increasing_unique(a: Seq<u32>, b: Seq<u32>)
    requires
        increasing(a),
        increasing(b),
        forall|v: u32| a.contains(v) <==> b.contains(v),
    ensures
        a == b,
    decreases a.len(),
{
    if a.len() == 0 {
        if b.len() > 0 {
            assert(b.contains(b[0]));
        }
        assert(a =~= b);
    } else {
        assert(a.contains(a[0]));
        assert(b.len() > 0);
        assert(b.contains(b[0]));
        let k = choose|k: int| 0 <= k < b.len() && b[k] == a[0];
        let m = choose|m: int| 0 <= m < a.len() && a[m] == b[0];
        assert(a[0] == b[0]) by {
            if k > 0 {
                assert(b[0] < b[k]);
            }
            if m > 0 {
                assert(a[0] < a[m]);
            }
        }
        let ra = a.drop_first();
        let rb = b.drop_first();
        assert forall|v: u32| ra.contains(v) <==> rb.contains(v) by {
            if ra.contains(v) {
                let i = choose|i: int| 0 <= i < ra.len() && ra[i] == v;
                assert(a[i + 1] == v);
                assert(a.contains(v));
                let j = choose|j: int| 0 <= j < b.len() && b[j] == v;
                assert(a[0] < a[i + 1]);
                if j == 0 {
                    assert(false);
                }
                assert(rb[j - 1] == v);
            }
            if rb.contains(v) {
                let i = choose|i: int| 0 <= i < rb.len() && rb[i] == v;
                assert(b[i + 1] == v);
                assert(b.contains(v));
                let j = choose|j: int| 0 <= j < a.len() && a[j] == v;
                assert(b[0] < b[i + 1]);
                if j == 0 {
                    assert(false);
                }
                assert(ra[j - 1] == v);
            }
        }
        lemma_increasing_unique(ra, rb);
        assert forall|i: int| 0 <= i < a.len() implies a[i] == b[i] by {
            if i > 0 {
                assert(a[i] == ra[i - 1]);
                assert(b[i] == rb[i - 1]);
            }
        }
        assert(a =~= b);
    }
}

/// A strictly increasing sequence of 16-bit values has at most 65536 elements,
/// and its `i`-th element is at least `i`.
pub proof fn lemma_increasing16_len(s: Seq<u16>)
    requires
        increasing16(s),
    ensures
        s.len() <= 65536,
        forall|i: int| 0 <= i < s.len() ==> i <= #[trigger] s[i],
    decreases s.len(),
{
    if s.len() > 0 {
        let t = s.drop_last();
        lemma_increasing16_len(t);
        assert forall|i: int| 0 <= i < s.len() implies i <= #[trigger] s[i] by {
            if i < s.len() - 1 {
                assert(t[i] == s[i]);
            } else if i > 0 {
                assert(t[i - 1] == s[i - 1]);
                assert(s[i - 1] < s[i]);
            }
        }
        assert(s.len() - 1 <= s[s.len() - 1]);
    }
}

/// In a strictly increasing `f`, when position `g` separates the values
/// below `x` from the others, keeping the values at least `x` of the window
/// `[lo, hi)` leaves the window `[max(lo, min(g, hi)), hi)`.
pub proof fn lemma_cut_front(f: Seq<u32>, lo: int, hi: int, g: int, x: u32)
    requires
        increasing(f),
        0 <= lo <= hi <= f.len(),
        lo <= g <= f.len(),
        g == lo || f[g - 1] < x,
        g == f.len() || f[g] >= x,
    ensures
        f.subrange(lo, hi).filter(at_least(x)) == f.subrange(if g < hi { g } else { hi }, hi),
{
    let s = f.subrange(lo, hi);
    let a = (if g < hi { g } else { hi }) - lo;
    assert forall|i: int| 0 <= i < a implies !at_least(x)(#[trigger] s[i]) by {
        assert(s[i] == f[lo + i]);
        if lo + i < g - 1 {
            assert(f[lo + i] < f[g - 1]);
        }
    }
    assert forall|i: int| a <= i < s.len() implies at_least(x)(#[trigger] s[i]) by {
        assert(s[i] == f[lo + i]);
        if lo + i > g {
            assert(f[g] < f[lo + i]);
        }
    }
    lemma_filter_window(s, at_least(x), a, s.len() as int);
    assert(s.subrange(a, s.len() as int) =~= f.subrange(lo + a, hi));
}

/// In a strictly increasing `f`, when position `g` separates the values at
/// most `x` from the others, keeping the values at most `x` of the window
/// `[lo, hi)` leaves the window `[lo, min(hi, max(g, lo)))`.
pub proof fn lemma_cut_back(f: Seq<u32>, lo: int, hi: int, g: int, x: u32)
    requires
        increasing(f),
        0 <= lo <= hi <= f.len(),
        0 <= g <= hi,
        g == hi || f[g] > x,
        g == 0 || f[g - 1] <= x,
    ensures
        f.subrange(lo, hi).filter(at_most(x)) == f.subrange(lo, if g > lo { g } else { lo }),
{
    let s = f.subrange(lo, hi);
    let b = (if g > lo { g } else { lo }) - lo;
    assert forall|i: int| 0 <= i < b implies at_most(x)(#[trigger] s[i]) by {
        assert(s[i] == f[lo + i]);
        if lo + i < g - 1 {
            assert(f[lo + i] < f[g - 1]);
        }
    }
    assert forall|i: int| b <= i < s.len() implies !at_most(x)(#[trigger] s[i]) by {
        assert(s[i] == f[lo + i]);
        if lo + i > g {
            assert(f[g] < f[lo + i]);
        }
    }
    lemma_filter_window(s, at_most(x), 0, b);
    assert(s.subrange(0, b) =~= f.subrange(lo, lo + b));
}

} // verus!
