//! A double-ended iterator over a roaring bitmap, which can also skip ahead
//! from either end.

use vstd::prelude::*;
use crate::order::{increasing, at_least, at_most, lemma_cut_front, lemma_cut_back};
use crate::store::StoreCursor;
use super::{
    RoaringBitmap, Container, flat, cprefix, containers_wf, lemma_flat_increasing,
    lemma_flat_total, lemma_flat_step, lemma_flat_index, lemma_cprefix_mono, lemma_cprefix_zero,
    lemma_container_values,
};

verus! {

/// The values of a bitmap that remain between a front and a back position.
pub struct Iter<'a> {
    bitmap: &'a RoaringBitmap,
    front_c: usize,
    front: StoreCursor,
    back_c: usize,
    back: StoreCursor,
    lo: u64,
    hi: u64,
}

/// `c` is a position in container `ci`, or the position past the last
/// container.
pub open spec fn cursor_at(cs: Seq<Container>, ci: int, c: StoreCursor) -> bool {
    if 0 <= ci < cs.len() {
        cs[ci].store.cursor_ok(c)
    } else {
        ci == cs.len() && c.rank == 0 && c.pos == 0 && c.off == 0
    }
}

/// The position `c` of container `ci` in the whole.
pub open spec fn position(cs: Seq<Container>, ci: int, c: StoreCursor) -> int {
    cprefix(cs, ci) + c.rank
}

/// A position in a container lies between that container's bounds in the
/// whole.
pub proof fn lemma_cursor_bounds(cs: Seq<Container>, ci: int, c: StoreCursor)
    requires
        containers_wf(cs),
        0 <= ci <= cs.len(),
        cursor_at(cs, ci, c),
    ensures
        position(cs, ci, c) <= flat(cs).len(),
        ci < cs.len() ==> c.rank <= cs[ci].values().len(),
        ci < cs.len() ==> cprefix(cs, ci + 1) == cprefix(cs, ci) + cs[ci].values().len(),
        ci < cs.len() ==> cprefix(cs, ci + 1) <= flat(cs).len(),
{
    lemma_flat_total(cs);
    if ci < cs.len() {
        lemma_flat_step(cs, ci);
        lemma_cprefix_mono(cs, ci + 1, cs.len() as int);
    }
}

impl<'a> View for Iter<'a> {
    type V = Seq<u32>;

    /// The values that remain, in increasing order.
    closed spec fn view(&self) -> Seq<u32> {
        self.bitmap.sorted().subrange(self.lo as int, self.hi as int)
    }
}

impl<'a> Iter<'a> {
    /// Both positions are positions of the bitmap, the front one not after
    /// the back one.
    pub closed spec fn wf(&self) -> bool {
        let cs = self.bitmap.containers@;
        &&& containers_wf(cs)
        &&& self.front_c <= cs.len()
        &&& self.back_c <= cs.len()
        &&& cursor_at(cs, self.front_c as int, self.front)
        &&& cursor_at(cs, self.back_c as int, self.back)
        &&& self.lo == position(cs, self.front_c as int, self.front)
        &&& self.hi == position(cs, self.back_c as int, self.back)
        &&& self.lo <= self.hi
    }

    /// The remaining values are strictly increasing.
    pub proof fn lemma_view(&self)
        requires
            self.wf(),
        ensures
            increasing(self@),
    {
        let cs = self.bitmap.containers@;
        lemma_flat_increasing(cs);
        lemma_cursor_bounds(cs, self.back_c as int, self.back);
    }

    /// Number of values that remain.
    pub fn len(&self) -> (n: u64)
        requires
            self.wf(),
        ensures
            n == self@.len(),
    {
        proof {
            lemma_cursor_bounds(self.bitmap.containers@, self.back_c as int, self.back);
        }
        self.hi - self.lo
    }

    /// Moves the front position to a container where a value follows it.
    fn settle_front(&mut self)
        requires
            old(self).wf(),
            old(self).lo < old(self).hi,
        ensures
            final(self).wf(),
            final(self).bitmap == old(self).bitmap,
            final(self).lo == old(self).lo,
            final(self).hi == old(self).hi,
            final(self).front_c < final(self).bitmap.containers@.len(),
            final(self).front.rank < final(self).bitmap.containers@[final(self).front_c as int].values().len(),
    {
        let cs = &self.bitmap.containers;
        let ghost s = cs@;
        proof {
            lemma_cursor_bounds(s, self.back_c as int, self.back);
            lemma_cursor_bounds(s, self.front_c as int, self.front);
            lemma_flat_total(s);
        }
        while self.front_c < cs.len() && cs[self.front_c].store.at_end(self.front)
            invariant
                self.wf(),
                s == self.bitmap.containers@,
                *cs == self.bitmap.containers,
                self.bitmap == old(self).bitmap,
                self.lo == old(self).lo,
                self.hi == old(self).hi,
                self.lo < self.hi,
                self.hi <= flat(s).len(),
                cprefix(s, s.len() as int) == flat(s).len(),
            decreases s.len() - self.front_c,
        {
            proof {
                lemma_cursor_bounds(s, self.front_c as int, self.front);
            }
            self.front_c = self.front_c + 1;
            if self.front_c < cs.len() {
                self.front = cs[self.front_c].store.start_cursor();
            } else {
                self.front = StoreCursor { rank: 0, pos: 0, off: 0 };
            }
        }
        proof {
            lemma_cursor_bounds(s, self.front_c as int, self.front);
        }
    }

    /// Moves the back position to a container where a value precedes it.
    fn settle_back(&mut self)
        requires
            old(self).wf(),
            old(self).lo < old(self).hi,
        ensures
            final(self).wf(),
            final(self).bitmap == old(self).bitmap,
            final(self).lo == old(self).lo,
            final(self).hi == old(self).hi,
            final(self).back_c < final(self).bitmap.containers@.len(),
            final(self).back.rank > 0,
    {
        let cs = &self.bitmap.containers;
        let ghost s = cs@;
        proof {
            lemma_cprefix_zero(s);
        }
        while self.back.rank == 0
            invariant
                self.wf(),
                s == self.bitmap.containers@,
                *cs == self.bitmap.containers,
                self.bitmap == old(self).bitmap,
                self.lo == old(self).lo,
                self.hi == old(self).hi,
                self.lo < self.hi,
                cprefix(s, 0) == 0,
            decreases self.back_c,
        {
            if self.back_c == 0 {
                assert(false);
            }
            self.back_c = self.back_c - 1;
            proof {
                lemma_flat_step(s, self.back_c as int);
            }
            self.back = cs[self.back_c].store.end_cursor();
        }
        if self.back_c == cs.len() {
            assert(false);
        }
    }

    /// The first remaining value, which is taken away.
    pub fn next(&mut self) -> (r: Option<u32>)
        requires
            old(self).wf(),
        ensures
            final(self).wf(),
            old(self)@.len() == 0 ==> r is None && final(self)@ == old(self)@,
            old(self)@.len() > 0 ==> r == Some(old(self)@[0]) && final(self)@ == old(self)@.drop_first(),
    {
        proof {
            lemma_cursor_bounds(self.bitmap.containers@, self.back_c as int, self.back);
        }
        if self.lo == self.hi {
            return None;
        }
        self.settle_front();
        let cs = &self.bitmap.containers;
        let ghost s = cs@;
        let c = &cs[self.front_c];
        let low = c.store.get(self.front);
        let v = (c.key as u32) * 65536 + low as u32;
        proof {
            lemma_container_values(s[self.front_c as int]);
            lemma_flat_index(s, self.front_c as int, self.front.rank as int);
            lemma_cursor_bounds(s, self.back_c as int, self.back);
        }
        self.front = c.store.step(self.front);
        self.lo = self.lo + 1;
        proof {
            assert(self@ =~= old(self)@.drop_first());
        }
        Some(v)
    }

    /// The last remaining value, which is taken away.
    pub fn next_back(&mut self) -> (r: Option<u32>)
        requires
            old(self).wf(),
        ensures
            final(self).wf(),
            old(self)@.len() == 0 ==> r is None && final(self)@ == old(self)@,
            old(self)@.len() > 0 ==> r == Some(old(self)@.last()) && final(self)@ == old(self)@.drop_last(),
    {
        proof {
            lemma_cursor_bounds(self.bitmap.containers@, self.back_c as int, self.back);
        }
        if self.lo == self.hi {
            return None;
        }
        self.settle_back();
        let cs = &self.bitmap.containers;
        let ghost s = cs@;
        let c = &cs[self.back_c];
        self.back = c.store.step_back(self.back);
        self.hi = self.hi - 1;
        let low = c.store.get(self.back);
        let v = (c.key as u32) * 65536 + low as u32;
        proof {
            lemma_container_values(s[self.back_c as int]);
            lemma_flat_index(s, self.back_c as int, self.back.rank as int);
            lemma_cursor_bounds(s, self.back_c as int, self.back);
            assert(self@ =~= old(self)@.drop_last());
        }
        Some(v)
    }

    /// Drops every remaining value.
    fn drain(&mut self)
        requires
            old(self).wf(),
        ensures
            final(self).wf(),
            final(self)@.len() == 0,
            final(self).bitmap == old(self).bitmap,
    {
        proof {
            lemma_cursor_bounds(self.bitmap.containers@, self.back_c as int, self.back);
        }
        self.lo = self.hi;
        self.front_c = self.back_c;
        self.front = self.back;
    }

    /// Moves the front position `k` values further.
    fn skip_front(&mut self, k0: u64)
        requires
            old(self).wf(),
            k0 < old(self).hi - old(self).lo,
        ensures
            final(self).wf(),
            final(self).bitmap == old(self).bitmap,
            final(self).hi == old(self).hi,
            final(self).lo == old(self).lo + k0,
    {
        self.settle_front();
        let cs = &self.bitmap.containers;
        let ghost s = cs@;
        proof {
            lemma_flat_total(s);
        }
        let mut k = k0;
        let n = cs.len();
        while k >= (cs[self.front_c].store.len() - self.front.rank) as u64
            invariant
                n == s.len(),
                self.wf(),
                s == self.bitmap.containers@,
                *cs == self.bitmap.containers,
                self.bitmap == old(self).bitmap,
                self.hi == old(self).hi,
                self.lo + k == old(self).lo + k0,
                self.lo + k < self.hi,
                self.front_c < s.len(),
                cprefix(s, s.len() as int) == flat(s).len(),
            decreases s.len() - self.front_c,
        {
            proof {
                lemma_cursor_bounds(s, self.front_c as int, self.front);
                lemma_cursor_bounds(s, self.back_c as int, self.back);
                lemma_container_values(s[self.front_c as int]);
            }
            let rest = cs[self.front_c].store.len() - self.front.rank;
            k = k - rest as u64;
            self.lo = self.lo + rest as u64;
            self.front_c = self.front_c + 1;
            if self.front_c < cs.len() {
                self.front = cs[self.front_c].store.start_cursor();
            } else {
                assert(false);
                self.front = StoreCursor { rank: 0, pos: 0, off: 0 };
            }
        }
        proof {
            lemma_container_values(s[self.front_c as int]);
        }
        self.front = cs[self.front_c].store.seek_rank(self.front.rank + k as u32);
        self.lo = self.lo + k;
    }

    /// Moves the back position `k` values back.
    fn skip_back(&mut self, k0: u64)
        requires
            old(self).wf(),
            k0 < old(self).hi - old(self).lo,
        ensures
            final(self).wf(),
            final(self).bitmap == old(self).bitmap,
            final(self).lo == old(self).lo,
            final(self).hi == old(self).hi - k0,
    {
        self.settle_back();
        let cs = &self.bitmap.containers;
        let ghost s = cs@;
        proof {
            lemma_cprefix_zero(s);
        }
        let mut k = k0;
        while k >= self.back.rank as u64
            invariant
                self.wf(),
                s == self.bitmap.containers@,
                *cs == self.bitmap.containers,
                self.bitmap == old(self).bitmap,
                self.lo == old(self).lo,
                self.hi == old(self).hi - (k0 - k),
                self.lo + k < self.hi,
                self.back_c < s.len(),
                self.back.rank > 0,
                cprefix(s, 0) == 0,
            decreases self.back_c,
        {
            k = k - self.back.rank as u64;
            self.hi = self.hi - self.back.rank as u64;
            if self.back_c == 0 {
                assert(false);
            }
            self.back_c = self.back_c - 1;
            proof {
                lemma_flat_step(s, self.back_c as int);
                lemma_container_values(s[self.back_c as int]);
            }
            self.back = cs[self.back_c].store.end_cursor();
        }
        self.back = cs[self.back_c].store.seek_rank(self.back.rank - k as u32);
        self.hi = self.hi - k;
    }

    /// The remaining value at index `n`; it and every value before it are
    /// taken away. When fewer than `n + 1` values remain, all are taken away.
    pub fn nth(&mut self, n: usize) -> (r: Option<u32>)
        requires
            old(self).wf(),
        ensures
            final(self).wf(),
            n < old(self)@.len() ==> r == Some(old(self)@[n as int]) && final(self)@ == old(self)@.skip(n + 1),
            n >= old(self)@.len() ==> r is None && final(self)@.len() == 0,
    {
        proof {
            lemma_cursor_bounds(self.bitmap.containers@, self.back_c as int, self.back);
        }
        if n as u64 >= self.hi - self.lo {
            self.drain();
            return None;
        }
        self.skip_front(n as u64);
        proof {
            lemma_cursor_bounds(self.bitmap.containers@, self.back_c as int, self.back);
        }
        let r = self.next();
        proof {
            assert(final(self)@ =~= old(self)@.skip(n + 1));
        }
        r
    }

    /// The remaining value at index `n` counted from the back; it and every
    /// value after it are taken away. When fewer than `n + 1` values remain,
    /// all are taken away.
    pub fn nth_back(&mut self, n: usize) -> (r: Option<u32>)
        requires
            old(self).wf(),
        ensures
            final(self).wf(),
            n < old(self)@.len() ==> r == Some(old(self)@[old(self)@.len() - 1 - n])
                && final(self)@ == old(self)@.take(old(self)@.len() - 1 - n),
            n >= old(self)@.len() ==> r is None && final(self)@.len() == 0,
    {
        proof {
            lemma_cursor_bounds(self.bitmap.containers@, self.back_c as int, self.back);
        }
        if n as u64 >= self.hi - self.lo {
            self.drain();
            return None;
        }
        self.skip_back(n as u64);
        proof {
            lemma_cursor_bounds(self.bitmap.containers@, self.back_c as int, self.back);
        }
        let r = self.next_back();
        proof {
            assert(final(self)@ =~= old(self)@.take(old(self)@.len() - 1 - n));
        }
        r
    }

    /// Takes away the remaining values below `x`.
    pub fn advance_to(&mut self, x: u32)
        requires
            old(self).wf(),
        ensures
            final(self).wf(),
            final(self)@ == old(self)@.filter(at_least(x)),
    {
        let cs = &self.bitmap.containers;
        let ghost s = cs@;
        let ghost f = flat(s);
        let n = cs.len();
        let xh = x / 65536;
        let xl = x % 65536;
        proof {
            lemma_flat_increasing(s);
            lemma_flat_total(s);
            lemma_cursor_bounds(s, self.back_c as int, self.back);
        }
        let mut ci = self.front_c;
        let mut cur = self.front;
        let mut g = self.lo;
        let mut done = false;
        while !done && ci < n
            invariant
                s == cs@,
                n == s.len(),
                f == flat(s),
                containers_wf(s),
                increasing(f),
                f.len() <= 0x1_0000_0000,
                cprefix(s, s.len() as int) == f.len(),
                xh == x / 65536,
                xl == x % 65536,
                ci <= n,
                cursor_at(s, ci as int, cur),
                g == position(s, ci as int, cur),
                self.lo <= g,
                g == self.lo || f[g - 1] < x,
                done ==> g == f.len() || f[g as int] >= x,
            decreases n - ci + (if done { 0int } else { 1int }),
        {
            proof {
                lemma_cursor_bounds(s, ci as int, cur);
                lemma_container_values(s[ci as int]);
            }
            if cs[ci].store.at_end(cur) {
                ci = ci + 1;
                if ci < n {
                    cur = cs[ci].store.start_cursor();
                } else {
                    cur = StoreCursor { rank: 0, pos: 0, off: 0 };
                }
            } else if (cs[ci].key as u32) < xh {
                let len = cs[ci].store.len();
                proof {
                    lemma_flat_index(s, ci as int, len - 1);
                }
                g = g + (len - cur.rank) as u64;
                ci = ci + 1;
                if ci < n {
                    cur = cs[ci].store.start_cursor();
                } else {
                    cur = StoreCursor { rank: 0, pos: 0, off: 0 };
                }
            } else if cs[ci].key as u32 == xh {
                let c2 = cs[ci].store.seek_ge(xl);
                if c2.rank > cur.rank {
                    proof {
                        lemma_flat_index(s, ci as int, c2.rank - 1);
                    }
                    g = g + (c2.rank - cur.rank) as u64;
                    cur = c2;
                }
                proof {
                    let e = g as int;
                    if e < f.len() {
                        if cur.rank < s[ci as int].values().len() {
                            lemma_flat_index(s, ci as int, cur.rank as int);
                        } else {
                            lemma_flat_index(s, ci + 1, 0);
                            assert(s[ci as int].key < s[ci + 1].key);
                            lemma_container_values(s[ci + 1]);
                        }
                    }
                }
                done = true;
            } else {
                proof {
                    lemma_flat_index(s, ci as int, cur.rank as int);
                }
                done = true;
            }
        }
        proof {
            lemma_cursor_bounds(s, ci as int, cur);
            lemma_cut_front(f, self.lo as int, self.hi as int, g as int, x);
        }
        if g >= self.hi {
            self.lo = self.hi;
            self.front_c = self.back_c;
            self.front = self.back;
        } else {
            self.lo = g;
            self.front_c = ci;
            self.front = cur;
        }
    }

    /// Takes away the remaining values above `x`.
    pub fn advance_back_to(&mut self, x: u32)
        requires
            old(self).wf(),
        ensures
            final(self).wf(),
            final(self)@ == old(self)@.filter(at_most(x)),
    {
        let cs = &self.bitmap.containers;
        let ghost s = cs@;
        let ghost f = flat(s);
        let n = cs.len();
        let xh = x / 65536;
        let xl = x % 65536;
        proof {
            lemma_flat_increasing(s);
            lemma_flat_total(s);
            lemma_cprefix_zero(s);
            lemma_cursor_bounds(s, self.back_c as int, self.back);
        }
        let mut ci = self.back_c;
        let mut cur = self.back;
        let mut g = self.hi;
        let mut done = false;
        while !done
            invariant
                s == cs@,
                n == s.len(),
                f == flat(s),
                containers_wf(s),
                increasing(f),
                f.len() <= 0x1_0000_0000,
                cprefix(s, s.len() as int) == f.len(),
                cprefix(s, 0) == 0,
                xh == x / 65536,
                xl == x % 65536,
                ci <= n,
                cursor_at(s, ci as int, cur),
                g == position(s, ci as int, cur),
                g <= self.hi,
                self.hi <= f.len(),
                g == self.hi || f[g as int] > x,
                done ==> g == 0 || f[g - 1] <= x,
            decreases ci + (if done { 0int } else { 1int }),
        {
            proof {
                lemma_cursor_bounds(s, ci as int, cur);
            }
            if cur.rank == 0 {
                if ci == 0 {
                    done = true;
                } else {
                    ci = ci - 1;
                    proof {
                        lemma_flat_step(s, ci as int);
                    }
                    cur = cs[ci].store.end_cursor();
                }
            } else if (cs[ci].key as u32) > xh {
                proof {
                    lemma_container_values(s[ci as int]);
                    lemma_flat_index(s, ci as int, 0);
                }
                g = g - cur.rank as u64;
                cur = cs[ci].store.start_cursor();
                if ci == 0 {
                    done = true;
                } else {
                    ci = ci - 1;
                    proof {
                        lemma_flat_step(s, ci as int);
                    }
                    cur = cs[ci].store.end_cursor();
                }
            } else if cs[ci].key as u32 == xh {
                proof {
                    lemma_container_values(s[ci as int]);
                }
                let c2 = cs[ci].store.seek_ge(xl + 1);
                if c2.rank < cur.rank {
                    proof {
                        lemma_flat_index(s, ci as int, c2.rank as int);
                    }
                    g = g - (cur.rank - c2.rank) as u64;
                    cur = c2;
                }
                proof {
                    let e = g as int;
                    if e > 0 {
                        if cur.rank > 0 {
                            lemma_flat_index(s, ci as int, cur.rank - 1);
                        } else {
                            assert(ci > 0) by {
                                if ci == 0 {
                                    assert(e == 0);
                                }
                            }
                            lemma_flat_step(s, ci - 1);
                            lemma_container_values(s[ci - 1]);
                            lemma_flat_index(s, ci - 1, s[ci - 1].values().len() - 1);
                            assert(s[ci - 1].key < s[ci as int].key);
                        }
                    }
                }
                done = true;
            } else {
                proof {
                    lemma_container_values(s[ci as int]);
                    lemma_flat_index(s, ci as int, cur.rank - 1);
                }
                done = true;
            }
        }
        proof {
            lemma_cursor_bounds(s, ci as int, cur);
            lemma_cut_back(f, self.lo as int, self.hi as int, g as int, x);
        }
        if g <= self.lo {
            self.hi = self.lo;
            self.back_c = self.front_c;
            self.back = self.front;
        } else {
            self.hi = g;
            self.back_c = ci;
            self.back = cur;
        }
    }
}

impl RoaringBitmap {
    /// An iterator over all the values, in increasing order.
    pub fn iter(&self) -> (it: Iter)
        requires
            self.wf(),
        ensures
            it.wf(),
            it@ == self.sorted(),
    {
        let ghost s = self.containers@;
        proof {
            lemma_cprefix_zero(s);
            lemma_flat_total(s);
        }
        let total = self.len();
        let front = if self.containers.len() > 0 {
            self.containers[0].store.start_cursor()
        } else {
            StoreCursor { rank: 0, pos: 0, off: 0 }
        };
        let it = Iter {
            bitmap: self,
            front_c: 0,
            front: front,
            back_c: self.containers.len(),
            back: StoreCursor { rank: 0, pos: 0, off: 0 },
            lo: 0,
            hi: total,
        };
        assert(it@ =~= self.sorted());
        it
    }
}

} // verus!
