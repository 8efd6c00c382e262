//! The store of one container: the low 16 bits of the values that share a
//! high 16 bits, kept as a sorted array, as runs, or as a bitmap.

use vstd::prelude::*;
use crate::order::{increasing16, lemma_increasing16_len};
use crate::bits::{
    has_bit, members_below, bits_seq, lemma_members, lemma_members_prefix, lemma_members_index,
    empty_words, bit_at, set_bit, next_member, prev_member, count_members_below,
};
use crate::runs::{
    Interval, interval_len, runs_seq, runs_prefix, runs_has, runs_wf, lemma_runs_step,
    lemma_runs_take, lemma_runs_total, lemma_runs_index, lemma_runs_prefix_mono,
    lemma_runs_members, lemma_runs_increasing, runs_insert_range, runs_of_array,
};

verus! {

/// The low halves of the values of one container.
pub enum Store {
    /// A strictly increasing array of the values, at most `ARRAY_LIMIT` of them.
    Array(Vec<u16>),
    /// The values as sorted runs.
    Run(Vec<Interval>),
    /// The values as the set bits of 1024 words of 64 bits.
    Bitmap(Vec<u64>),
}

/// An array store holds at most this many values; beyond it the values go
/// to a bitmap store.
pub const ARRAY_LIMIT: usize = 4096;

/// A position in a store: before the value of rank `rank`. For a run store
/// `pos` is the run and `off` the offset in it; for an array `pos` is the
/// index and `off` is 0; for a bitmap `pos` is the value itself (65536 at
/// the end) and `off` is 0.
#[derive(Clone, Copy, Debug)]
pub struct StoreCursor {
    pub rank: u32,
    pub pos: usize,
    pub off: u32,
}

impl Store {
    /// The values of the store in increasing order.
    pub open spec fn seq(&self) -> Seq<u16> {
        match self {
            Store::Array(v) => v@,
            Store::Run(r) => runs_seq(r@),
            Store::Bitmap(w) => bits_seq(w@),
        }
    }

    /// The array is strictly increasing and short enough, the runs are well
    /// formed, the bitmap has 1024 words.
    pub open spec fn wf(&self) -> bool {
        match self {
            Store::Array(v) => increasing16(v@) && v@.len() <= ARRAY_LIMIT,
            Store::Run(r) => runs_wf(r@),
            Store::Bitmap(w) => w@.len() == 1024,
        }
    }

    /// `c` is a position of this store.
    pub open spec fn cursor_ok(&self, c: StoreCursor) -> bool {
        &&& c.rank <= self.seq().len()
        &&& match self {
            Store::Array(v) => c.pos == c.rank && c.off == 0,
            Store::Run(r) => {
                ||| (c.pos < r@.len() && c.off < interval_len(r@[c.pos as int]) && c.rank
                    == runs_prefix(r@, c.pos as int) + c.off)
                ||| (c.pos == r@.len() && c.off == 0 && c.rank == runs_prefix(r@, c.pos as int))
            },
            Store::Bitmap(w) => {
                &&& c.off == 0
                &&& c.pos <= 65536
                &&& c.rank == members_below(w@, c.pos as int).len()
                &&& (c.pos == 65536 || has_bit(w@, c.pos as int))
            },
        }
    }

    /// A well-formed store lists at most 65536 values in increasing order.
    pub proof fn lemma_wf(&self)
        requires
            self.wf(),
        ensures
            increasing16(self.seq()),
            self.seq().len() <= 65536,
    {
        match self {
            Store::Array(v) => {},
            Store::Run(r) => {
                lemma_runs_increasing(r@);
            },
            Store::Bitmap(w) => {
                lemma_members(w@, 65536);
            },
        }
        lemma_increasing16_len(self.seq());
    }

    /// A store that holds `v` alone.
    pub fn single(v: u16) -> (s: Store)
        ensures
            s.wf(),
            s.seq() == seq![v],
    {
        let s = Store::Array(vec![v]);
        assert(s.seq() =~= seq![v]);
        s
    }

    /// A store that holds the values of `[lo, hi]`.
    pub fn full_range(lo: u16, hi: u16) -> (s: Store)
        requires
            lo <= hi,
        ensures
            s.wf(),
            forall|w: u16| s.seq().contains(w) <==> (lo <= w && w <= hi),
    {
        let s = Store::Run(vec![Interval { start: lo, end: hi }]);
        proof {
            match &s {
                Store::Run(r) => {
                    lemma_runs_members(r@);
                    assert(r@.len() == 1);
                    assert(r@[0].start == lo && r@[0].end == hi);
                    assert(s.seq() == runs_seq(r@));
                    assert forall|w: u16| s.seq().contains(w) <==> (lo <= w && w <= hi) by {
                        assert(runs_seq(r@).contains(w) <==> runs_has(r@, w as int));
                        if lo <= w && w <= hi {
                            assert(r@[0].start <= w <= r@[0].end);
                        }
                        if s.seq().contains(w) {
                            assert(runs_has(r@, w as int));
                            let k = choose|k: int| 0 <= k < r@.len() && (#[trigger] r@[k]).start <= w <= r@[k].end;
                            assert(k == 0);
                        }
                    }
                },
                _ => {},
            }
        }
        s
    }

    /// Number of values.
    pub fn len(&self) -> (n: u32)
        requires
            self.wf(),
        ensures
            n == self.seq().len(),
    {
        proof {
            self.lemma_wf();
        }
        match self {
            Store::Array(v) => v.len() as u32,
            Store::Run(r) => {
                let ghost rs = r@;
                let mut total: u32 = 0;
                let mut p: usize = 0;
                while p < r.len()
                    invariant
                        rs == r@,
                        runs_wf(rs),
                        p <= rs.len(),
                        runs_seq(rs).len() <= 65536,
                        total == runs_prefix(rs, p as int),
                    decreases rs.len() - p,
                {
                    proof {
                        lemma_runs_step(rs, p as int);
                        lemma_runs_prefix_mono(rs, p + 1, rs.len() as int);
                        lemma_runs_total(rs);
                    }
                    total = total + ((r[p].end - r[p].start) as u32 + 1);
                    p = p + 1;
                }
                proof {
                    lemma_runs_total(rs);
                }
                total
            },
            Store::Bitmap(w) => count_members_below(w, 65536),
        }
    }

    /// The position before the first value.
    pub fn start_cursor(&self) -> (c: StoreCursor)
        requires
            self.wf(),
        ensures
            self.cursor_ok(c),
            c.rank == 0,
    {
        match self {
            Store::Bitmap(w) => {
                let p = next_member(w, 0);
                StoreCursor { rank: 0, pos: p as usize, off: 0 }
            },
            Store::Run(r) => {
                assert(r@.take(0) =~= Seq::<Interval>::empty());
                StoreCursor { rank: 0, pos: 0, off: 0 }
            },
            Store::Array(_) => StoreCursor { rank: 0, pos: 0, off: 0 },
        }
    }

    /// The position after the last value.
    pub fn end_cursor(&self) -> (c: StoreCursor)
        requires
            self.wf(),
        ensures
            self.cursor_ok(c),
            c.rank == self.seq().len(),
    {
        let n = self.len();
        match self {
            Store::Array(v) => StoreCursor { rank: n, pos: v.len(), off: 0 },
            Store::Bitmap(_) => StoreCursor { rank: n, pos: 65536, off: 0 },
            Store::Run(r) => {
                proof {
                    lemma_runs_total(r@);
                }
                StoreCursor { rank: n, pos: r.len(), off: 0 }
            },
        }
    }

    /// Whether the store holds `v`.
    pub fn contains(&self, v: u16) -> (r: bool)
        requires
            self.wf(),
        ensures
            r == self.seq().contains(v),
    {
        match self {
            Store::Array(a) => {
                assert(self.seq() == a@);
                let mut k: usize = 0;
                while k < a.len()
                    invariant
                        self.seq() == a@,
                        k <= a@.len(),
                        forall|i: int| 0 <= i < k ==> a@[i] != v,
                    decreases a@.len() - k,
                {
                    if a[k] == v {
                        assert(a@[k as int] == v);
                        return true;
                    }
                    k = k + 1;
                }
                false
            },
            Store::Run(r) => {
                proof {
                    lemma_runs_members(r@);
                }
                runs_contains(r, v)
            },
            Store::Bitmap(w) => {
                proof {
                    lemma_members(w@, 65536);
                }
                bit_at(w, v as u32)
            },
        }
    }

    /// Whether `c` is the position after the last value.
    pub fn at_end(&self, c: StoreCursor) -> (r: bool)
        requires
            self.wf(),
            self.cursor_ok(c),
        ensures
            r == (c.rank == self.seq().len()),
    {
        match self {
            Store::Array(v) => c.pos == v.len(),
            Store::Bitmap(w) => {
                proof {
                    if c.pos < 65536 {
                        lemma_members_index(w@, c.pos as int);
                    }
                }
                c.pos == 65536
            },
            Store::Run(r) => {
                proof {
                    lemma_runs_total(r@);
                    if c.pos < r@.len() {
                        lemma_runs_step(r@, c.pos as int);
                        lemma_runs_prefix_mono(r@, c.pos + 1, r@.len() as int);
                    }
                }
                c.pos == r.len()
            },
        }
    }

    /// The value right after the position `c`.
    pub fn get(&self, c: StoreCursor) -> (v: u16)
        requires
            self.wf(),
            self.cursor_ok(c),
            c.rank < self.seq().len(),
        ensures
            v == self.seq()[c.rank as int],
    {
        match self {
            Store::Array(v) => v[c.pos],
            Store::Bitmap(w) => {
                proof {
                    if c.pos == 65536 {
                        assert(bits_seq(w@) == members_below(w@, 65536));
                    }
                    lemma_members_index(w@, c.pos as int);
                }
                c.pos as u16
            },
            Store::Run(r) => {
                proof {
                    if c.pos == r@.len() {
                        lemma_runs_total(r@);
                    }
                    lemma_runs_index(r@, c.pos as int, c.off as int);
                }
                r[c.pos].start + c.off as u16
            },
        }
    }

    /// The position one value further.
    pub fn step(&self, c: StoreCursor) -> (d: StoreCursor)
        requires
            self.wf(),
            self.cursor_ok(c),
            c.rank < self.seq().len(),
        ensures
            self.cursor_ok(d),
            d.rank == c.rank + 1,
    {
        proof {
            self.lemma_wf();
        }
        match self {
            Store::Array(v) => StoreCursor { rank: c.rank + 1, pos: c.pos + 1, off: 0 },
            Store::Bitmap(w) => {
                proof {
                    if c.pos == 65536 {
                        assert(bits_seq(w@) == members_below(w@, 65536));
                    }
                    lemma_members_index(w@, c.pos as int);
                }
                let p = next_member(w, c.pos as u32 + 1);
                StoreCursor { rank: c.rank + 1, pos: p as usize, off: 0 }
            },
            Store::Run(r) => {
                proof {
                    if c.pos == r@.len() {
                        lemma_runs_total(r@);
                    }
                    lemma_runs_step(r@, c.pos as int);
                }
                let n = r.len();
                let iv = r[c.pos];
                if c.off + 1 < (iv.end - iv.start) as u32 + 1 {
                    StoreCursor { rank: c.rank + 1, pos: c.pos, off: c.off + 1 }
                } else {
                    StoreCursor { rank: c.rank + 1, pos: c.pos + 1, off: 0 }
                }
            },
        }
    }

    /// The position one value back.
    pub fn step_back(&self, c: StoreCursor) -> (d: StoreCursor)
        requires
            self.wf(),
            self.cursor_ok(c),
            c.rank > 0,
        ensures
            self.cursor_ok(d),
            d.rank == c.rank - 1,
    {
        match self {
            Store::Array(v) => StoreCursor { rank: c.rank - 1, pos: c.pos - 1, off: 0 },
            Store::Bitmap(w) => {
                let p = prev_member(w, c.pos as u32);
                proof {
                    lemma_members_index(w@, p as int);
                }
                StoreCursor { rank: c.rank - 1, pos: p as usize, off: 0 }
            },
            Store::Run(r) => {
                if c.off > 0 {
                    StoreCursor { rank: c.rank - 1, pos: c.pos, off: c.off - 1 }
                } else {
                    proof {
                        if c.pos == 0 {
                            assert(r@.take(0) =~= Seq::<Interval>::empty());
                        }
                        lemma_runs_step(r@, c.pos - 1);
                    }
                    let iv = r[c.pos - 1];
                    StoreCursor { rank: c.rank - 1, pos: c.pos - 1, off: (iv.end - iv.start) as u32 }
                }
            },
        }
    }

    /// The position of the given rank.
    pub fn seek_rank(&self, k: u32) -> (c: StoreCursor)
        requires
            self.wf(),
            k <= self.seq().len(),
        ensures
            self.cursor_ok(c),
            c.rank == k,
    {
        proof {
            self.lemma_wf();
        }
        match self {
            Store::Array(v) => StoreCursor { rank: k, pos: k as usize, off: 0 },
            Store::Bitmap(w) => {
                let mut count: u32 = 0;
                let mut v: u32 = 0;
                while v < 65536 && !(count == k && bit_at(w, v))
                    invariant
                        w@.len() == 1024,
                        v <= 65536,
                        count == members_below(w@, v as int).len(),
                        count <= k,
                        k <= bits_seq(w@).len(),
                    decreases 65536 - v,
                {
                    proof {
                        lemma_members(w@, v + 1);
                        if has_bit(w@, v as int) {
                            assert(count < k);
                        }
                    }
                    if bit_at(w, v) {
                        count = count + 1;
                    }
                    v = v + 1;
                }
                StoreCursor { rank: k, pos: v as usize, off: 0 }
            },
            Store::Run(r) => {
                let ghost rs = r@;
                let mut rank: u32 = 0;
                let mut p: usize = 0;
                proof {
                    assert(rs.take(0) =~= Seq::<Interval>::empty());
                    lemma_runs_total(rs);
                }
                while p < r.len() && rank + ((r[p].end - r[p].start) as u32 + 1) <= k
                    invariant
                        rs == r@,
                        runs_wf(rs),
                        p <= rs.len(),
                        k <= runs_seq(rs).len(),
                        runs_seq(rs).len() <= 65536,
                        rank == runs_prefix(rs, p as int),
                        rank <= k,
                    decreases rs.len() - p,
                {
                    proof {
                        lemma_runs_step(rs, p as int);
                    }
                    rank = rank + ((r[p].end - r[p].start) as u32 + 1);
                    p = p + 1;
                }
                if p == r.len() {
                    proof {
                        lemma_runs_total(rs);
                    }
                    StoreCursor { rank: k, pos: p, off: 0 }
                } else {
                    StoreCursor { rank: k, pos: p, off: k - rank }
                }
            },
        }
    }

    /// The position before the first value that is at least `x`.
    pub fn seek_ge(&self, x: u32) -> (c: StoreCursor)
        requires
            self.wf(),
            x <= 65536,
        ensures
            self.cursor_ok(c),
            forall|i: int| 0 <= i < c.rank ==> (#[trigger] self.seq()[i]) < x,
            forall|i: int| c.rank <= i < self.seq().len() ==> (#[trigger] self.seq()[i]) >= x,
    {
        proof {
            self.lemma_wf();
        }
        let ghost s = self.seq();
        match self {
            Store::Bitmap(w) => {
                let rank = count_members_below(w, x);
                let p = next_member(w, x);
                proof {
                    lemma_members(w@, x as int);
                    lemma_members_prefix(w@, x as int, 65536);
                    let m = members_below(w@, x as int);
                    assert forall|i: int| 0 <= i < rank implies (#[trigger] s[i]) < x by {
                        assert(s.subrange(0, m.len() as int)[i] == s[i]);
                    }
                }
                StoreCursor { rank: rank, pos: p as usize, off: 0 }
            },
            Store::Array(v) => {
                let mut i: usize = 0;
                while i < v.len() && (v[i] as u32) < x
                    invariant
                        s == v@,
                        i <= v@.len(),
                        forall|k: int| 0 <= k < i ==> (#[trigger] s[k]) < x,
                    decreases v@.len() - i,
                {
                    i = i + 1;
                }
                proof {
                    assert forall|k: int| i <= k < s.len() implies (#[trigger] s[k]) >= x by {
                        if k > i {
                            assert(s[i as int] < s[k]);
                        }
                    }
                }
                StoreCursor { rank: i as u32, pos: i, off: 0 }
            },
            Store::Run(r) => {
                let ghost rs = r@;
                let mut rank: u32 = 0;
                let mut p: usize = 0;
                proof {
                    assert(rs.take(0) =~= Seq::<Interval>::empty());
                    lemma_runs_total(rs);
                }
                while p < r.len() && (r[p].end as u32) < x
                    invariant
                        rs == r@,
                        s == runs_seq(rs),
                        runs_wf(rs),
                        p <= rs.len(),
                        s.len() <= 65536,
                        runs_prefix(rs, rs.len() as int) == s.len(),
                        rank == runs_prefix(rs, p as int),
                        forall|k: int| 0 <= k < rank ==> (#[trigger] s[k]) < x,
                    decreases rs.len() - p,
                {
                    proof {
                        lemma_runs_step(rs, p as int);
                        lemma_runs_prefix_mono(rs, p + 1, rs.len() as int);
                        assert forall|k: int| 0 <= k < rank + interval_len(rs[p as int]) implies (
                        #[trigger] s[k]) < x by {
                            if k >= rank {
                                lemma_runs_index(rs, p as int, k - rank);
                            }
                        }
                    }
                    rank = rank + ((r[p].end - r[p].start) as u32 + 1);
                    p = p + 1;
                }
                if p == r.len() {
                    StoreCursor { rank: rank, pos: p, off: 0 }
                } else {
                    let iv = r[p];
                    let off: u32 = if (iv.start as u32) < x {
                        x - iv.start as u32
                    } else {
                        0
                    };
                    proof {
                        lemma_runs_index(rs, p as int, off as int);
                        assert forall|k: int| 0 <= k < rank + off implies (#[trigger] s[k]) < x by {
                            if k >= rank {
                                lemma_runs_index(rs, p as int, k - rank);
                            }
                        }
                        let first = rank + off;
                        assert(s[first as int] >= x);
                        assert forall|k: int| first <= k < s.len() implies (#[trigger] s[k]) >= x by {
                            if k > first {
                                assert(s[first as int] < s[k]);
                            }
                        }
                    }
                    StoreCursor { rank: rank + off, pos: p, off: off }
                }
            },
        }
    }

    /// Adds `v`; tells whether it was absent before. An array store that
    /// is full moves its values to a bitmap store first.
    pub fn insert(&mut self, v: u16) -> (added: bool)
        requires
            old(self).wf(),
        ensures
            final(self).wf(),
            added == !old(self).seq().contains(v),
            forall|w: u16| final(self).seq().contains(w) <==> (old(self).seq().contains(w) || w == v),
    {
        let promoted = self.promoted();
        match promoted {
            Some(st) => {
                *self = st;
            },
            None => {},
        }
        let ghost mid = self.seq();
        assert(forall|w: u16| mid.contains(w) <==> old(self).seq().contains(w));
        match self {
            Store::Array(a) => array_insert(a, v),
            Store::Run(r) => {
                let ghost before = r@;
                proof {
                    lemma_runs_members(before);
                }
                let present = runs_contains(r, v);
                if !present {
                    runs_insert_range(r, v, v);
                }
                proof {
                    lemma_runs_members(r@);
                    assert forall|w: u16| runs_seq(r@).contains(w) <==> (runs_seq(before).contains(w)
                        || w == v) by {
                        assert(runs_seq(r@).contains(w) <==> runs_has(r@, w as int));
                        assert(runs_seq(before).contains(w) <==> runs_has(before, w as int));
                    }
                    assert(runs_seq(before).contains(v) <==> runs_has(before, v as int));
                }
                !present
            },
            Store::Bitmap(w) => {
                let ghost before = w@;
                proof {
                    lemma_members(before, 65536);
                }
                let present = bit_at(w, v as u32);
                if !present {
                    set_bit(w, v as u32);
                }
                proof {
                    lemma_members(w@, 65536);
                    assert forall|u: u16| bits_seq(w@).contains(u) <==> (bits_seq(before).contains(u)
                        || u == v) by {
                        assert(bits_seq(w@).contains(u) <==> has_bit(w@, u as int));
                        assert(bits_seq(before).contains(u) <==> has_bit(before, u as int));
                    }
                }
                !present
            },
        }
    }

    /// A bitmap store with the same values, when this is a full array store.
    fn promoted(&self) -> (r: Option<Store>)
        requires
            self.wf(),
        ensures
            r matches Some(st) ==> st.wf() && forall|w: u16| st.seq().contains(w) <==> self.seq().contains(w),
            r matches Some(st) ==> st is Bitmap,
            r is None ==> (self matches Store::Array(a) ==> a@.len() < ARRAY_LIMIT),
    {
        match self {
            Store::Array(a) => {
                if a.len() >= ARRAY_LIMIT {
                    let words = words_of_array(a);
                    let st = Store::Bitmap(words);
                    proof {
                        lemma_members(words@, 65536);
                        assert forall|w: u16| st.seq().contains(w) <==> self.seq().contains(w) by {
                            assert(st.seq().contains(w) <==> has_bit(words@, w as int));
                        }
                    }
                    Some(st)
                } else {
                    None
                }
            },
            _ => None,
        }
    }

    /// Adds every value of `[lo, hi]`. An array store turns into runs first.
    pub fn insert_range(&mut self, lo: u16, hi: u16)
        requires
            old(self).wf(),
            lo <= hi,
        ensures
            final(self).wf(),
            forall|w: u16|
                final(self).seq().contains(w) <==> (old(self).seq().contains(w) || (lo <= w && w
                    <= hi)),
    {
        let converted = match &*self {
            Store::Array(a) => Some(runs_of_array(a)),
            _ => None,
        };
        match converted {
            Some(runs) => {
                *self = Store::Run(runs);
            },
            None => {},
        }
        let ghost mid = self.seq();
        assert(forall|w: u16| mid.contains(w) <==> old(self).seq().contains(w));
        match self {
            Store::Run(r) => {
                let ghost before = r@;
                proof {
                    lemma_runs_members(before);
                }
                runs_insert_range(r, lo, hi);
                proof {
                    lemma_runs_members(r@);
                    assert forall|w: u16| runs_seq(r@).contains(w) <==> (runs_seq(before).contains(w)
                        || (lo <= w && w <= hi)) by {
                        assert(runs_seq(r@).contains(w) <==> runs_has(r@, w as int));
                        assert(runs_seq(before).contains(w) <==> runs_has(before, w as int));
                    }
                }
            },
            Store::Bitmap(w) => {
                let ghost before = w@;
                let mut x: u32 = lo as u32;
                while x <= hi as u32
                    invariant
                        w@.len() == 1024,
                        before.len() == 1024,
                        lo <= x <= hi as u32 + 1,
                        forall|u: int| #[trigger] has_bit(w@, u) <==> (has_bit(before, u) || (lo <= u < x)),
                    decreases hi as u32 + 1 - x,
                {
                    set_bit(w, x);
                    x = x + 1;
                }
                proof {
                    lemma_members(before, 65536);
                    lemma_members(w@, 65536);
                    assert forall|u: u16| bits_seq(w@).contains(u) <==> (bits_seq(before).contains(u)
                        || (lo <= u && u <= hi)) by {
                        assert(bits_seq(w@).contains(u) <==> has_bit(w@, u as int));
                        assert(bits_seq(before).contains(u) <==> has_bit(before, u as int));
                    }
                }
            },
            Store::Array(_) => {},
        }
    }
}

/// The bitmap words of a strictly increasing array.
fn words_of_array(a: &Vec<u16>) -> (words: Vec<u64>)
    ensures
        words@.len() == 1024,
        forall|u: u16| #[trigger] has_bit(words@, u as int) <==> a@.contains(u),
{
    let mut words = empty_words();
    let mut k: usize = 0;
    while k < a.len()
        invariant
            words@.len() == 1024,
            k <= a@.len(),
            forall|u: int| #[trigger] has_bit(words@, u) <==> (exists|i: int| 0 <= i < k && a@[i] == u),
        decreases a@.len() - k,
    {
        let ghost before = words@;
        set_bit(&mut words, a[k] as u32);
        proof {
            assert forall|u: int| #[trigger] has_bit(words@, u) <==> (exists|i: int| 0 <= i < k + 1 && a@[i] == u) by {
                if has_bit(words@, u) && !has_bit(before, u) {
                    assert(a@[k as int] == u);
                }
            }
        }
        k = k + 1;
    }
    proof {
        assert forall|u: u16| #[trigger] has_bit(words@, u as int) <==> a@.contains(u) by {
            if a@.contains(u) {
                let i = choose|i: int| 0 <= i < a@.len() && a@[i] == u;
                assert(exists|i: int| 0 <= i < a@.len() && a@[i] == u as int);
            }
        }
    }
    words
}

/// Whether some run holds `v`.
fn runs_contains(runs: &Vec<Interval>, v: u16) -> (found: bool)
    ensures
        found == runs_has(runs@, v as int),
{
    let mut k: usize = 0;
    while k < runs.len()
        invariant
            k <= runs@.len(),
            forall|i: int| 0 <= i < k ==> !((#[trigger] runs@[i]).start <= v && v <= runs@[i].end),
        decreases runs@.len() - k,
    {
        if runs[k].start <= v && v <= runs[k].end {
            return true;
        }
        k = k + 1;
    }
    false
}

/// Adds `x` to a strictly increasing array; tells whether it was absent.
fn array_insert(a: &mut Vec<u16>, x: u16) -> (added: bool)
    requires
        increasing16(old(a)@),
    ensures
        increasing16(final(a)@),
        final(a)@.len() <= old(a)@.len() + 1,
        added == !old(a)@.contains(x),
        forall|w: u16| final(a)@.contains(w) <==> (old(a)@.contains(w) || w == x),
{
    let ghost s = a@;
    let mut p: usize = a.len();
    while p > 0 && a[p - 1] > x
        invariant
            a@ == s,
            p <= s.len(),
            forall|k: int| p <= k < s.len() ==> (#[trigger] s[k]) > x,
        decreases p,
    {
        p = p - 1;
    }
    if p > 0 && a[p - 1] == x {
        assert(s[p - 1] == x);
        return false;
    }
    proof {
        assert forall|k: int| 0 <= k < p implies (#[trigger] s[k]) < x by {
            if k < p - 1 {
                assert(s[k] < s[p - 1]);
            }
        }
        assert(!s.contains(x)) by {
            if s.contains(x) {
                let k = choose|k: int| 0 <= k < s.len() && s[k] == x;
                if k < p {
                } else {
                }
            }
        }
    }
    a.insert(p, x);
    proof {
        let t = a@;
        assert(t == s.insert(p as int, x));
        assert forall|i: int, j: int| 0 <= i < j < t.len() implies t[i] < t[j] by {
            if j < p {
                assert(t[i] == s[i] && t[j] == s[j]);
            } else if j == p {
                assert(t[i] == s[i]);
            } else if i < p {
                assert(t[j] == s[j - 1]);
                assert(t[i] == s[i]);
                if i < j - 1 {
                    assert(s[i] < s[j - 1]);
                }
            } else if i == p {
                assert(t[j] == s[j - 1]);
            } else {
                assert(t[i] == s[i - 1] && t[j] == s[j - 1]);
            }
        }
        assert forall|w: u16| t.contains(w) <==> (s.contains(w) || w == x) by {
            if t.contains(w) {
                let i = choose|i: int| 0 <= i < t.len() && t[i] == w;
                if i < p {
                    assert(s[i] == w);
                } else if i > p {
                    assert(s[i - 1] == w);
                }
            }
            if s.contains(w) {
                let i = choose|i: int| 0 <= i < s.len() && s[i] == w;
                if i < p {
                    assert(t[i] == w);
                } else {
                    assert(t[i + 1] == w);
                }
            }
            if w == x {
                assert(t[p as int] == x);
            }
        }
    }
    true
}

} // verus!
