//! The roaring bitmap: containers sorted by the high 16 bits of their
//! values, each with a store of the low 16 bits.

use vstd::prelude::*;
use crate::order::{
    increasing, increasing16, lemma_increasing16_len, within, lemma_filter_window,
    lemma_filter_increasing,
};
use crate::store::Store;

pub mod iter;

verus! {

/// The values of one high half: `key` is the high 16 bits.
pub struct Container {
    pub key: u16,
    pub store: Store,
}

/// A set of 32-bit integers.
pub struct RoaringBitmap {
    containers: Vec<Container>,
}

/// The full values of a store whose high half is `key`.
pub open spec fn lift(key: u16, s: Seq<u16>) -> Seq<u32> {
    s.map_values(|v: u16| (key * 65536 + v) as u32)
}

impl Container {
    /// The values of the container in increasing order.
    pub open spec fn values(&self) -> Seq<u32> {
        lift(self.key, self.store.seq())
    }
}

/// The values of the containers, container after container.
pub open spec fn flat(cs: Seq<Container>) -> Seq<u32>
    decreases cs.len(),
{
    if cs.len() == 0 {
        Seq::empty()
    } else {
        flat(cs.drop_last()) + cs.last().values()
    }
}

/// Number of values in the first `i` containers.
pub open spec fn cprefix(cs: Seq<Container>, i: int) -> int {
    flat(cs.take(i)).len() as int
}

/// Every container is well formed and non-empty, and the keys increase.
pub open spec fn containers_wf(cs: Seq<Container>) -> bool {
    &&& forall|i: int|
        0 <= i < cs.len() ==> (#[trigger] cs[i]).store.wf() && cs[i].store.seq().len() > 0
    &&& forall|i: int, j: int| 0 <= i < j < cs.len() ==> (#[trigger] cs[i]).key < (#[trigger] cs[j]).key
}

/// Some container holds `x`.
pub open spec fn holds(cs: Seq<Container>, x: u32) -> bool {
    exists|i: int|
        0 <= i < cs.len() && (#[trigger] cs[i]).key == x / 65536 && cs[i].store.seq().contains(
            (x % 65536) as u16,
        )
}

impl View for RoaringBitmap {
    type V = Set<u32>;

    closed spec fn view(&self) -> Set<u32> {
        Set::new(|x: u32| holds(self.containers@, x))
    }
}

impl RoaringBitmap {
    /// The containers are well formed, non-empty and sorted by key.
    pub closed spec fn wf(&self) -> bool {
        containers_wf(self.containers@)
    }

    /// The values of the bitmap in increasing order.
    pub closed spec fn sorted(&self) -> Seq<u32> {
        flat(self.containers@)
    }
}

/// The values of a container are increasing, all with its key as high half.
pub proof fn lemma_container_values(c: Container)
    requires
        c.store.wf(),
    ensures
        increasing(c.values()),
        c.values().len() == c.store.seq().len(),
        c.values().len() <= 65536,
        forall|r: int|
            0 <= r < c.values().len() ==> #[trigger] c.values()[r] == c.key * 65536 + c.store.seq()[r],
        forall|r: int| 0 <= r < c.values().len() ==> #[trigger] c.values()[r] / 65536 == c.key,
        forall|x: u32|
            c.values().contains(x) <==> (x / 65536 == c.key && c.store.seq().contains(
                (x % 65536) as u16,
            )),
{
    c.store.lemma_wf();
    let s = c.store.seq();
    let v = c.values();
    assert forall|r: int| 0 <= r < v.len() implies #[trigger] v[r] == c.key * 65536 + s[r] by {}
    assert forall|x: u32|
        v.contains(x) <==> (x / 65536 == c.key && s.contains((x % 65536) as u16)) by {
        if v.contains(x) {
            let r = choose|r: int| 0 <= r < v.len() && v[r] == x;
            assert(s[r] == (x % 65536) as u16);
        }
        if x / 65536 == c.key && s.contains((x % 65536) as u16) {
            let r = choose|r: int| 0 <= r < s.len() && s[r] == (x % 65536) as u16;
            assert(v[r] == x);
        }
    }
}

/// Container `i` follows the first `i` containers.
pub proof fn lemma_flat_step(cs: Seq<Container>, i: int)
    requires
        0 <= i < cs.len(),
    ensures
        flat(cs.take(i + 1)) == flat(cs.take(i)) + cs[i].values(),
        cprefix(cs, i + 1) == cprefix(cs, i) + cs[i].values().len(),
{
    assert(cs.take(i + 1).drop_last() =~= cs.take(i));
}

/// All containers count all values.
pub proof fn lemma_flat_total(cs: Seq<Container>)
    ensures
        cprefix(cs, cs.len() as int) == flat(cs).len(),
{
    assert(cs.take(cs.len() as int) =~= cs);
}

/// No container holds no value.
pub proof fn lemma_cprefix_zero(cs: Seq<Container>)
    ensures
        cprefix(cs, 0) == 0,
{
    assert(cs.take(0) =~= Seq::<Container>::empty());
}

/// The values of the first `k` containers begin the values of all.
pub proof fn lemma_flat_take(cs: Seq<Container>, k: int)
    requires
        0 <= k <= cs.len(),
    ensures
        cprefix(cs, k) <= flat(cs).len(),
        flat(cs).subrange(0, cprefix(cs, k)) == flat(cs.take(k)),
    decreases cs.len(),
{
    if k == cs.len() {
        assert(cs.take(k) =~= cs);
        assert(flat(cs).subrange(0, cprefix(cs, k)) =~= flat(cs));
    } else {
        let t = cs.drop_last();
        lemma_flat_take(t, k);
        assert(t.take(k) =~= cs.take(k));
        assert(flat(cs).subrange(0, cprefix(cs, k)) =~= flat(t).subrange(0, cprefix(t, k)));
    }
}

/// More containers hold more values.
pub proof fn lemma_cprefix_mono(cs: Seq<Container>, i: int, j: int)
    requires
        0 <= i <= j <= cs.len(),
    ensures
        cprefix(cs, i) <= cprefix(cs, j),
    decreases j - i,
{
    if i < j {
        lemma_cprefix_mono(cs, i, j - 1);
        lemma_flat_step(cs, j - 1);
    }
}

/// The value of rank `r` in container `i` stands at position
/// `cprefix(cs, i) + r` of the whole.
pub proof fn lemma_flat_index(cs: Seq<Container>, i: int, r: int)
    requires
        0 <= i < cs.len(),
        0 <= r < cs[i].values().len(),
    ensures
        cprefix(cs, i) + r < flat(cs).len(),
        flat(cs)[cprefix(cs, i) + r] == cs[i].values()[r],
{
    lemma_flat_take(cs, i + 1);
    lemma_flat_step(cs, i);
    let whole = flat(cs);
    let pre = flat(cs.take(i + 1));
    assert(pre[cprefix(cs, i) + r] == cs[i].values()[r]);
    assert(whole.subrange(0, cprefix(cs, i + 1))[cprefix(cs, i) + r] == whole[cprefix(cs, i) + r]);
}

/// Every position of the whole lies in some container.
pub proof fn lemma_flat_locate(cs: Seq<Container>, g: int)
    requires
        0 <= g < flat(cs).len(),
    ensures
        exists|i: int|
            0 <= i < cs.len() && cprefix(cs, i) <= g < cprefix(cs, i) + (#[trigger] cs[i]).values().len(),
    decreases cs.len(),
{
    let t = cs.drop_last();
    let n = cs.len() - 1;
    lemma_flat_total(t);
    assert(cs.take(n) =~= t);
    lemma_flat_step(cs, n);
    lemma_flat_total(cs);
    if g < flat(t).len() {
        lemma_flat_locate(t, g);
        let i = choose|i: int|
            0 <= i < t.len() && cprefix(t, i) <= g < cprefix(t, i) + (#[trigger] t[i]).values().len();
        assert(t.take(i) =~= cs.take(i));
        assert(cs[i] == t[i]);
    } else {
        assert(cprefix(cs, n) <= g < cprefix(cs, n) + cs[n].values().len());
    }
}

/// The whole holds exactly the values that some container holds.
pub proof fn lemma_flat_members(cs: Seq<Container>)
    requires
        containers_wf(cs),
    ensures
        forall|x: u32| flat(cs).contains(x) <==> holds(cs, x),
{
    assert forall|x: u32| flat(cs).contains(x) <==> holds(cs, x) by {
        if flat(cs).contains(x) {
            let g = choose|g: int| 0 <= g < flat(cs).len() && flat(cs)[g] == x;
            lemma_flat_locate(cs, g);
            let i = choose|i: int|
                0 <= i < cs.len() && cprefix(cs, i) <= g < cprefix(cs, i) + (#[trigger] cs[i]).values().len();
            lemma_flat_index(cs, i, g - cprefix(cs, i));
            lemma_container_values(cs[i]);
            assert(cs[i].values().contains(x));
        }
        if holds(cs, x) {
            let i = choose|i: int|
                0 <= i < cs.len() && (#[trigger] cs[i]).key == x / 65536 && cs[i].store.seq().contains(
                    (x % 65536) as u16,
                );
            lemma_container_values(cs[i]);
            assert(cs[i].values().contains(x));
            let r = choose|r: int| 0 <= r < cs[i].values().len() && cs[i].values()[r] == x;
            lemma_flat_index(cs, i, r);
        }
    }
}

/// Well-formed containers list their values in strictly increasing order,
/// and hold at most 2^32 of them.
pub proof fn lemma_flat_increasing(cs: Seq<Container>)
    requires
        containers_wf(cs),
    ensures
        increasing(flat(cs)),
        cs.len() <= 65536,
        flat(cs).len() <= cs.len() * 65536,
    decreases cs.len(),
{
    let keys = cs.map_values(|c: Container| c.key);
    assert(increasing16(keys)) by {
        assert forall|i: int, j: int| 0 <= i < j < keys.len() implies keys[i] < keys[j] by {
            assert(cs[i].key < cs[j].key);
        }
    }
    lemma_increasing16_len(keys);
    if cs.len() > 0 {
        let t = cs.drop_last();
        let last = cs.last();
        assert(containers_wf(t)) by {
            assert forall|i: int| 0 <= i < t.len() implies (#[trigger] t[i]).store.wf()
                && t[i].store.seq().len() > 0 by {
                assert(t[i] == cs[i]);
            }
            assert forall|i: int, j: int| 0 <= i < j < t.len() implies (#[trigger] t[i]).key < (
            #[trigger] t[j]).key by {
                assert(t[i] == cs[i] && t[j] == cs[j]);
            }
        }
        lemma_flat_increasing(t);
        lemma_flat_members(t);
        assert(cs[cs.len() - 1] == last);
        lemma_container_values(last);
        let a = flat(t);
        let b = last.values();
        let s = flat(cs);
        assert(s == a + b);
        assert forall|i: int, j: int| 0 <= i < j < s.len() implies s[i] < s[j] by {
            if j < a.len() {
                assert(a[i] < a[j]);
            } else if i >= a.len() {
                assert(b[i - a.len()] < b[j - a.len()]);
            } else {
                assert(a.contains(a[i]));
                assert(holds(t, a[i]));
                let k = choose|k: int|
                    0 <= k < t.len() && (#[trigger] t[k]).key == a[i] / 65536 && t[k].store.seq().contains(
                        (a[i] % 65536) as u16,
                    );
                assert(t[k] == cs[k]);
                assert(cs[k].key < last.key);
                assert(b[j - a.len()] / 65536 == last.key);
            }
        }
        assert(flat(cs).len() == a.len() + b.len());
        assert(flat(cs).len() <= cs.len() * 65536) by (nonlinear_arith)
            requires
                flat(cs).len() == a.len() + b.len(),
                a.len() <= t.len() * 65536,
                b.len() <= 65536,
                t.len() + 1 == cs.len(),
        {}
    }
}

/// A strictly increasing sequence has as many elements as its set.
pub proof fn lemma_increasing_set_len(f: Seq<u32>)
    requires
        increasing(f),
    ensures
        f.to_set().finite(),
        f.to_set().len() == f.len(),
{
    assert(f.no_duplicates()) by {
        assert forall|i: int, j: int| 0 <= i < f.len() && 0 <= j < f.len() && i != j implies f[i] != f[j] by {
            if i < j {
                assert(f[i] < f[j]);
            } else {
                assert(f[j] < f[i]);
            }
        }
    }
    f.unique_seq_to_set();
    vstd::seq_lib::seq_to_set_is_finite(f);
}

/// When the container at `p` has the high half of `y`, it alone decides
/// whether `y` is held.
pub proof fn lemma_holds_at(cs: Seq<Container>, p: int, y: u32)
    requires
        containers_wf(cs),
        0 <= p < cs.len(),
        cs[p].key == y / 65536,
    ensures
        holds(cs, y) <==> cs[p].store.seq().contains((y % 65536) as u16),
{
    if holds(cs, y) {
        let i = choose|i: int|
            0 <= i < cs.len() && (#[trigger] cs[i]).key == y / 65536 && cs[i].store.seq().contains(
                (y % 65536) as u16,
            );
        if i < p {
            assert(cs[i].key < cs[p].key);
        } else if i > p {
            assert(cs[p].key < cs[i].key);
        }
    }
}

/// No container holds a value whose high half is missing from the keys.
pub proof fn lemma_holds_missing(cs: Seq<Container>, key: u16, y: u32)
    requires
        forall|i: int| 0 <= i < cs.len() ==> (#[trigger] cs[i]).key != key,
        y / 65536 == key,
    ensures
        !holds(cs, y),
{
}

impl RoaringBitmap {
    /// The empty bitmap.
    pub fn new() -> (b: RoaringBitmap)
        ensures
            b.wf(),
            b@ == Set::<u32>::empty(),
    {
        let b = RoaringBitmap { containers: Vec::new() };
        assert(b@ =~= Set::<u32>::empty());
        b
    }

    /// The bitmap lists its values in strictly increasing order by
    /// `sorted()`, which holds exactly the values of the bitmap, at most
    /// 2^32 of them.
    pub proof fn lemma_sorted(&self)
        requires
            self.wf(),
        ensures
            increasing(self.sorted()),
            forall|x: u32| self.sorted().contains(x) <==> self@.contains(x),
            self.sorted().len() <= 0x1_0000_0000,
            self@ == self.sorted().to_set(),
            self@.finite(),
            self@.len() == self.sorted().len(),
    {
        lemma_flat_increasing(self.containers@);
        lemma_flat_members(self.containers@);
        let f = self.sorted();
        assert(self@ =~= f.to_set());
        lemma_increasing_set_len(f);
    }

    /// Position of the first container whose key is at least `key`, and
    /// whether its key is `key`.
    fn find(&self, key: u16) -> (res: (usize, bool))
        requires
            self.wf(),
        ensures
            res.0 <= self.containers@.len(),
            res.1 ==> res.0 < self.containers@.len() && self.containers@[res.0 as int].key == key,
            !res.1 ==> forall|i: int|
                0 <= i < self.containers@.len() ==> (#[trigger] self.containers@[i]).key != key,
            !res.1 ==> forall|i: int| 0 <= i < res.0 ==> (#[trigger] self.containers@[i]).key < key,
            !res.1 ==> forall|i: int|
                res.0 <= i < self.containers@.len() ==> (#[trigger] self.containers@[i]).key > key,
    {
        let cs = &self.containers;
        let mut p: usize = cs.len();
        while p > 0 && cs[p - 1].key > key
            invariant
                p <= cs@.len(),
                forall|i: int| p <= i < cs@.len() ==> (#[trigger] cs@[i]).key > key,
            decreases p,
        {
            p = p - 1;
        }
        if p > 0 && cs[p - 1].key == key {
            (p - 1, true)
        } else {
            proof {
                assert forall|i: int| 0 <= i < p implies (#[trigger] cs@[i]).key < key by {
                    if i < p - 1 {
                        assert(cs@[i].key < cs@[p - 1].key);
                    }
                }
            }
            (p, false)
        }
    }

    /// Whether the bitmap holds `x`.
    pub fn contains(&self, x: u32) -> (r: bool)
        requires
            self.wf(),
        ensures
            r == self@.contains(x),
    {
        let key = (x / 65536) as u16;
        let (p, found) = self.find(key);
        if found {
            proof {
                lemma_holds_at(self.containers@, p as int, x);
            }
            self.containers[p].store.contains((x % 65536) as u16)
        } else {
            proof {
                lemma_holds_missing(self.containers@, key, x);
            }
            false
        }
    }

    /// Adds `x`; tells whether it was absent.
    pub fn insert(&mut self, x: u32) -> (added: bool)
        requires
            old(self).wf(),
        ensures
            final(self).wf(),
            final(self)@ == old(self)@.insert(x),
            added == !old(self)@.contains(x),
    {
        let key = (x / 65536) as u16;
        let low = (x % 65536) as u16;
        let ghost before = self.containers@;
        let (p, found) = self.find(key);
        if found {
            let added = self.containers[p].store.insert(low);
            proof {
                let after = self.containers@;
                assert(after == before.update(p as int, after[p as int]));
                assert(containers_wf(after)) by {
                    assert forall|i: int, j: int| 0 <= i < j < after.len() implies (#[trigger] after[i]).key < (
                    #[trigger] after[j]).key by {
                        assert(before[i].key < before[j].key);
                    }
                    assert(after[p as int].store.seq().contains(low));
                }
                assert forall|y: u32| holds(after, y) <==> (holds(before, y) || y == x) by {
                    if y / 65536 == key {
                        lemma_holds_at(after, p as int, y);
                        lemma_holds_at(before, p as int, y);
                    } else {
                        if holds(after, y) {
                            let i = choose|i: int|
                                0 <= i < after.len() && (#[trigger] after[i]).key == y / 65536
                                    && after[i].store.seq().contains((y % 65536) as u16);
                            assert(before[i] == after[i]);
                        }
                        if holds(before, y) {
                            let i = choose|i: int|
                                0 <= i < before.len() && (#[trigger] before[i]).key == y / 65536
                                    && before[i].store.seq().contains((y % 65536) as u16);
                            assert(before[i] == after[i]);
                        }
                    }
                }
                lemma_holds_at(before, p as int, x);
                assert(self@ =~= old(self)@.insert(x));
            }
            added
        } else {
            let c = Container { key: key, store: Store::single(low) };
            self.containers.insert(p, c);
            proof {
                let after = self.containers@;
                assert(after == before.insert(p as int, c));
                assert(c.store.seq().contains(low)) by {
                    assert(c.store.seq()[0] == low);
                }
                assert(containers_wf(after)) by {
                    assert forall|i: int| 0 <= i < after.len() implies (#[trigger] after[i]).store.wf()
                        && after[i].store.seq().len() > 0 by {
                        if i < p {
                            assert(after[i] == before[i]);
                        } else if i > p {
                            assert(after[i] == before[i - 1]);
                        }
                    }
                    assert forall|i: int, j: int| 0 <= i < j < after.len() implies (#[trigger] after[i]).key < (
                    #[trigger] after[j]).key by {
                        if i < p && j < p {
                            assert(after[i] == before[i] && after[j] == before[j]);
                        } else if i < p && j == p {
                            assert(after[i] == before[i]);
                        } else if i < p {
                            assert(after[i] == before[i] && after[j] == before[j - 1]);
                        } else if i == p {
                            assert(after[j] == before[j - 1]);
                        } else {
                            assert(after[i] == before[i - 1] && after[j] == before[j - 1]);
                        }
                    }
                }
                assert forall|y: u32| holds(after, y) <==> (holds(before, y) || y == x) by {
                    if y / 65536 == key {
                        lemma_holds_at(after, p as int, y);
                        lemma_holds_missing(before, key, y);
                        if c.store.seq().contains((y % 65536) as u16) {
                            let r = choose|r: int| 0 <= r < c.store.seq().len() && c.store.seq()[r] == (y % 65536) as u16;
                            assert(r == 0);
                        }
                    } else {
                        if holds(after, y) {
                            let i = choose|i: int|
                                0 <= i < after.len() && (#[trigger] after[i]).key == y / 65536
                                    && after[i].store.seq().contains((y % 65536) as u16);
                            if i < p {
                                assert(before[i] == after[i]);
                            } else {
                                assert(before[i - 1] == after[i]);
                            }
                        }
                        if holds(before, y) {
                            let i = choose|i: int|
                                0 <= i < before.len() && (#[trigger] before[i]).key == y / 65536
                                    && before[i].store.seq().contains((y % 65536) as u16);
                            if i < p {
                                assert(before[i] == after[i]);
                            } else {
                                assert(before[i] == after[i + 1]);
                            }
                        }
                    }
                }
                lemma_holds_missing(before, key, x);
                assert(self@ =~= old(self)@.insert(x));
            }
            true
        }
    }

    /// Adds the values with high half `key` whose low half lies in `[lo, hi]`.
    fn insert_block(&mut self, key: u16, lo: u16, hi: u16)
        requires
            old(self).wf(),
            lo <= hi,
        ensures
            final(self).wf(),
            forall|y: u32|
                holds(final(self).containers@, y) <==> (holds(old(self).containers@, y) || (y / 65536
                    == key && lo <= y % 65536 <= hi)),
    {
        let ghost before = self.containers@;
        let (p, found) = self.find(key);
        if found {
            self.containers[p].store.insert_range(lo, hi);
            proof {
                let after = self.containers@;
                assert(after == before.update(p as int, after[p as int]));
                assert(containers_wf(after)) by {
                    assert forall|i: int, j: int| 0 <= i < j < after.len() implies (#[trigger] after[i]).key < (
                    #[trigger] after[j]).key by {
                        assert(before[i].key < before[j].key);
                    }
                    assert(after[p as int].store.seq().contains(lo));
                }
                assert forall|y: u32| holds(after, y) <==> (holds(before, y) || (y / 65536 == key
                    && lo <= y % 65536 <= hi)) by {
                    if y / 65536 == key {
                        lemma_holds_at(after, p as int, y);
                        lemma_holds_at(before, p as int, y);
                    } else {
                        if holds(after, y) {
                            let i = choose|i: int|
                                0 <= i < after.len() && (#[trigger] after[i]).key == y / 65536
                                    && after[i].store.seq().contains((y % 65536) as u16);
                            assert(before[i] == after[i]);
                        }
                        if holds(before, y) {
                            let i = choose|i: int|
                                0 <= i < before.len() && (#[trigger] before[i]).key == y / 65536
                                    && before[i].store.seq().contains((y % 65536) as u16);
                            assert(before[i] == after[i]);
                        }
                    }
                }
            }
        } else {
            let c = Container { key: key, store: Store::full_range(lo, hi) };
            self.containers.insert(p, c);
            proof {
                let after = self.containers@;
                assert(after == before.insert(p as int, c));
                assert(c.store.seq().contains(lo));
                assert(containers_wf(after)) by {
                    assert forall|i: int| 0 <= i < after.len() implies (#[trigger] after[i]).store.wf()
                        && after[i].store.seq().len() > 0 by {
                        if i < p {
                            assert(after[i] == before[i]);
                        } else if i > p {
                            assert(after[i] == before[i - 1]);
                        }
                    }
                    assert forall|i: int, j: int| 0 <= i < j < after.len() implies (#[trigger] after[i]).key < (
                    #[trigger] after[j]).key by {
                        if i < p && j < p {
                            assert(after[i] == before[i] && after[j] == before[j]);
                        } else if i < p && j == p {
                            assert(after[i] == before[i]);
                        } else if i < p {
                            assert(after[i] == before[i] && after[j] == before[j - 1]);
                        } else if i == p {
                            assert(after[j] == before[j - 1]);
                        } else {
                            assert(after[i] == before[i - 1] && after[j] == before[j - 1]);
                        }
                    }
                }
                assert forall|y: u32| holds(after, y) <==> (holds(before, y) || (y / 65536 == key
                    && lo <= y % 65536 <= hi)) by {
                    if y / 65536 == key {
                        lemma_holds_at(after, p as int, y);
                        lemma_holds_missing(before, key, y);
                    } else {
                        if holds(after, y) {
                            let i = choose|i: int|
                                0 <= i < after.len() && (#[trigger] after[i]).key == y / 65536
                                    && after[i].store.seq().contains((y % 65536) as u16);
                            if i < p {
                                assert(before[i] == after[i]);
                            } else {
                                assert(before[i - 1] == after[i]);
                            }
                        }
                        if holds(before, y) {
                            let i = choose|i: int|
                                0 <= i < before.len() && (#[trigger] before[i]).key == y / 65536
                                    && before[i].store.seq().contains((y % 65536) as u16);
                            if i < p {
                                assert(before[i] == after[i]);
                            } else {
                                assert(before[i] == after[i + 1]);
                            }
                        }
                    }
                }
            }
        }
    }

    /// Adds every value of `[start, end]`; nothing when `start > end`.
    pub fn insert_range(&mut self, start: u32, end: u32)
        requires
            old(self).wf(),
        ensures
            final(self).wf(),
            final(self)@ == old(self)@.union(span(start, end)),
    {
        if start > end {
            assert(self@ =~= old(self)@.union(span(start, end)));
            return;
        }
        let first = start / 65536;
        let last = end / 65536;
        let mut k: u32 = first;
        while k <= last
            invariant
                self.wf(),
                start <= end,
                first == start / 65536,
                last == end / 65536,
                last <= 65535,
                first <= k <= last + 1,
                forall|y: u32|
                    holds(self.containers@, y) <==> (holds(old(self).containers@, y) || (start <= y
                        <= end && y / 65536 < k)),
            decreases last + 1 - k,
        {
            let lo: u32 = if k == first {
                start % 65536
            } else {
                0
            };
            let hi: u32 = if k == last {
                end % 65536
            } else {
                65535
            };
            let ghost mid = self.containers@;
            self.insert_block(k as u16, lo as u16, hi as u16);
            proof {
                assert forall|y: u32|
                    holds(self.containers@, y) <==> (holds(old(self).containers@, y) || (start <= y
                        <= end && y / 65536 < k + 1)) by {
                    assert(holds(self.containers@, y) <==> (holds(mid, y) || (y / 65536 == k
                        && lo <= y % 65536 <= hi)));
                    if y / 65536 == k {
                        assert(y == k * 65536 + y % 65536);
                        assert(start == first * 65536 + start % 65536);
                        assert(end == last * 65536 + end % 65536);
                    }
                }
            }
            k = k + 1;
        }
        assert(self@ =~= old(self)@.union(span(start, end)));
    }

    /// Number of values.
    pub fn len(&self) -> (n: u64)
        requires
            self.wf(),
        ensures
            n == self.sorted().len(),
            n == self@.len(),
    {
        proof {
            self.lemma_sorted();
        }
        let cs = &self.containers;
        let ghost s = cs@;
        proof {
            lemma_flat_increasing(s);
            lemma_flat_total(s);
            lemma_cprefix_zero(s);
        }
        let mut total: u64 = 0;
        let mut i: usize = 0;
        while i < cs.len()
            invariant
                s == cs@,
                containers_wf(s),
                i <= s.len(),
                flat(s).len() <= 0x1_0000_0000,
                cprefix(s, s.len() as int) == flat(s).len(),
                total == cprefix(s, i as int),
            decreases s.len() - i,
        {
            proof {
                lemma_flat_step(s, i as int);
                lemma_cprefix_mono(s, i + 1, s.len() as int);
                lemma_container_values(s[i as int]);
            }
            total = total + cs[i].store.len() as u64;
            i = i + 1;
        }
        total
    }

    /// Number of values below `x`: the position in `sorted()` where the
    /// values at least `x` begin.
    pub fn count_below(&self, x: u64) -> (g: u64)
        requires
            self.wf(),
            x <= 0x1_0000_0000,
        ensures
            g <= self.sorted().len(),
            forall|i: int| 0 <= i < g ==> (#[trigger] self.sorted()[i]) < x,
            forall|i: int| g <= i < self.sorted().len() ==> (#[trigger] self.sorted()[i]) >= x,
    {
        let cs = &self.containers;
        let ghost s = cs@;
        let ghost f = flat(s);
        proof {
            lemma_flat_increasing(s);
            lemma_flat_total(s);
            lemma_cprefix_zero(s);
        }
        let xh = x / 65536;
        let mut g: u64 = 0;
        let mut i: usize = 0;
        while i < cs.len() && (cs[i].key as u64) < xh
            invariant
                s == cs@,
                f == flat(s),
                containers_wf(s),
                increasing(f),
                xh == x / 65536,
                i <= s.len(),
                f.len() <= 0x1_0000_0000,
                cprefix(s, s.len() as int) == f.len(),
                g == cprefix(s, i as int),
                forall|j: int| 0 <= j < g ==> (#[trigger] f[j]) < x,
            decreases s.len() - i,
        {
            proof {
                lemma_flat_step(s, i as int);
                lemma_cprefix_mono(s, i + 1, s.len() as int);
                lemma_container_values(s[i as int]);
                assert forall|j: int| 0 <= j < g + s[i as int].values().len() implies (#[trigger] f[j]) < x by {
                    if j >= g {
                        lemma_flat_index(s, i as int, j - g);
                    }
                }
            }
            g = g + cs[i].store.len() as u64;
            i = i + 1;
        }
        let ghost gi = g;
        if i < cs.len() && cs[i].key as u64 == xh {
            let c = cs[i].store.seek_ge((x % 65536) as u32);
            proof {
                lemma_container_values(s[i as int]);
                lemma_flat_step(s, i as int);
                lemma_cprefix_mono(s, i + 1, s.len() as int);
                assert forall|j: int| 0 <= j < g + c.rank implies (#[trigger] f[j]) < x by {
                    if j >= g {
                        lemma_flat_index(s, i as int, j - g);
                    }
                }
            }
            g = g + c.rank as u64;
            proof {
                let e = g as int;
                if e < f.len() {
                    if c.rank < s[i as int].values().len() {
                        lemma_flat_index(s, i as int, c.rank as int);
                    } else {
                        if i + 1 == s.len() {
                        } else {
                            lemma_flat_index(s, i + 1, 0);
                            assert(s[i as int].key < s[i + 1].key);
                            lemma_container_values(s[i + 1]);
                        }
                    }
                    assert(f[e] >= x);
                    assert forall|j: int| e <= j < f.len() implies (#[trigger] f[j]) >= x by {
                        if j > e {
                            assert(f[e] < f[j]);
                        }
                    }
                }
            }
        } else {
            proof {
                lemma_cprefix_mono(s, i as int, s.len() as int);
                let e = g as int;
                if e < f.len() {
                    if i == s.len() {
                    } else {
                        lemma_flat_step(s, i as int);
                        lemma_container_values(s[i as int]);
                        lemma_flat_index(s, i as int, 0);
                    }
                    assert(f[e] >= x);
                    assert forall|j: int| e <= j < f.len() implies (#[trigger] f[j]) >= x by {
                        if j > e {
                            assert(f[e] < f[j]);
                        }
                    }
                }
            }
        }
        g
    }

    /// Number of values in `[start, end]`; 0 when `start > end`.
    pub fn range_cardinality(&self, start: u32, end: u32) -> (n: u64)
        requires
            self.wf(),
        ensures
            n == self.sorted().filter(within(start, end)).len(),
            n == self@.filter(within(start, end)).len(),
    {
        proof {
            self.lemma_sorted();
            let f = self.sorted();
            lemma_filter_increasing(f, within(start, end));
            assert(self@.filter(within(start, end)) =~= f.filter(within(start, end)).to_set());
            lemma_increasing_set_len(f.filter(within(start, end)));
        }
        let a = self.count_below(start as u64);
        let b = self.count_below(end as u64 + 1);
        proof {
            let f = self.sorted();
            if start > end {
                lemma_filter_window(f, within(start, end), a as int, a as int);
            } else {
                if b < a {
                    assert(f[b as int] >= end + 1);
                    assert(f[b as int] < start);
                }
                lemma_filter_window(f, within(start, end), a as int, b as int);
            }
        }
        if start > end {
            0
        } else {
            b - a
        }
    }
}

/// The values of `[start, end]`.
pub open spec fn span(start: u32, end: u32) -> Set<u32> {
    Set::new(|y: u32| start <= y && y <= end)
}

} // verus!
