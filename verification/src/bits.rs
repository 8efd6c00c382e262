//! A dense set of 16-bit values kept as 1024 words of 64 bits: the bitmap
//! store of a container.

use vstd::prelude::*;
use crate::order::increasing16;

verus! {

/// Bit `v` of the words is set.
pub open spec fn has_bit(words: Seq<u64>, v: int) -> bool {
    0 <= v < 65536 && (words[v / 64] >> ((v % 64) as u64)) & 1u64 == 1u64
}

/// The set bits below `n`, in increasing order.
pub open spec fn members_below(words: Seq<u64>, n: int) -> Seq<u16>
    decreases n,
{
    if n <= 0 {
        Seq::empty()
    } else {
        let rest = members_below(words, n - 1);
        if has_bit(words, n - 1) {
            rest.push((n - 1) as u16)
        } else {
            rest
        }
    }
}

/// All the set bits, in increasing order.
pub open spec fn bits_seq(words: Seq<u64>) -> Seq<u16> {
    members_below(words, 65536)
}

/// The set bits below `n` are increasing, below `n`, and exactly the set
/// bits below `n`.
pub proof fn lemma_members(words: Seq<u64>, n: int)
    requires
        0 <= n <= 65536,
    ensures
        increasing16(members_below(words, n)),
        members_below(words, n).len() <= n,
        forall|i: int|
            0 <= i < members_below(words, n).len() ==> #[trigger] members_below(words, n)[i] < n,
        forall|u: u16| members_below(words, n).contains(u) <==> (u < n && has_bit(words, u as int)),
    decreases n,
{
    if n > 0 {
        lemma_members(words, n - 1);
        let rest = members_below(words, n - 1);
        let s = members_below(words, n);
        if has_bit(words, n - 1) {
            assert(s == rest.push((n - 1) as u16));
            assert forall|u: u16| s.contains(u) <==> (u < n && has_bit(words, u as int)) by {
                if s.contains(u) && u != n - 1 {
                    let k = choose|k: int| 0 <= k < s.len() && s[k] == u;
                    assert(rest[k] == u);
                    assert(rest.contains(u));
                }
                if u < n && has_bit(words, u as int) {
                    if u == n - 1 {
                        assert(s[rest.len() as int] == u);
                    } else {
                        assert(rest.contains(u));
                        let k = choose|k: int| 0 <= k < rest.len() && rest[k] == u;
                        assert(s[k] == u);
                    }
                }
            }
        }
    }
}

/// The set bits below `m` begin the set bits below `n`, and the others
/// are at least `m`.
pub proof fn lemma_members_prefix(words: Seq<u64>, m: int, n: int)
    requires
        0 <= m <= n <= 65536,
    ensures
        members_below(words, m).len() <= members_below(words, n).len(),
        members_below(words, n).subrange(0, members_below(words, m).len() as int) == members_below(words, m),
        forall|i: int|
            members_below(words, m).len() <= i < members_below(words, n).len() ==> #[trigger] members_below(
                words,
                n,
            )[i] >= m,
    decreases n - m,
{
    if m < n {
        lemma_members_prefix(words, m, n - 1);
        let a = members_below(words, m);
        let b = members_below(words, n - 1);
        let c = members_below(words, n);
        if has_bit(words, n - 1) {
            assert(c == b.push((n - 1) as u16));
            assert(c.subrange(0, a.len() as int) =~= b.subrange(0, a.len() as int));
        }
    } else {
        assert(members_below(words, n).subrange(0, members_below(words, m).len() as int) =~= members_below(words, m));
    }
}

/// A set bit `p` stands at position `members_below(words, p).len()` of the
/// set bits.
pub proof fn lemma_members_index(words: Seq<u64>, p: int)
    requires
        0 <= p < 65536,
        has_bit(words, p),
    ensures
        members_below(words, p).len() < bits_seq(words).len(),
        bits_seq(words)[members_below(words, p).len() as int] == p,
        members_below(words, p + 1).len() == members_below(words, p).len() + 1,
{
    lemma_members_prefix(words, p + 1, 65536);
    let a = members_below(words, p);
    let b = members_below(words, p + 1);
    assert(b == a.push(p as u16));
    assert(bits_seq(words).subrange(0, b.len() as int)[a.len() as int] == bits_seq(words)[a.len() as int]);
}

/// Without set bits in `[a, b)`, the set bits below `b` are those below `a`.
pub proof fn lemma_members_gap(words: Seq<u64>, a: int, b: int)
    requires
        0 <= a <= b <= 65536,
        forall|v: int| a <= v < b ==> !#[trigger] has_bit(words, v),
    ensures
        members_below(words, b) == members_below(words, a),
    decreases b - a,
{
    if a < b {
        lemma_members_gap(words, a, b - 1);
    }
}

/// Setting bit `b` of a word changes no other bit.
proof fn lemma_set_bit(w: u64, b: u64, c: u64)
    requires
        b < 64,
        c < 64,
    ensures
        ((w | (1u64 << b)) >> c) & 1u64 == 1u64 <==> (((w >> c) & 1u64 == 1u64) || c == b),
{
    assert(((w | (1u64 << b)) >> c) & 1u64 == 1u64 <==> (((w >> c) & 1u64 == 1u64) || c == b))
        by (bit_vector)
        requires
            b < 64,
            c < 64,
    ;
}

/// 1024 words with no bit set.
pub fn empty_words() -> (words: Vec<u64>)
    ensures
        words@.len() == 1024,
        forall|v: int| !#[trigger] has_bit(words@, v),
{
    let mut words: Vec<u64> = Vec::new();
    while words.len() < 1024
        invariant
            words@.len() <= 1024,
            forall|i: int| 0 <= i < words@.len() ==> words@[i] == 0,
        decreases 1024 - words@.len(),
    {
        words.push(0);
    }
    assert forall|v: int| !#[trigger] has_bit(words@, v) by {
        if 0 <= v < 65536 {
            let z = words@[v / 64];
            let c = (v % 64) as u64;
            assert(z == 0);
            assert((0u64 >> c) & 1u64 == 0u64) by (bit_vector);
        }
    }
    words
}

/// Whether bit `v` is set.
pub fn bit_at(words: &Vec<u64>, v: u32) -> (r: bool)
    requires
        words@.len() == 1024,
        v < 65536,
    ensures
        r == has_bit(words@, v as int),
{
    (words[(v / 64) as usize] >> ((v % 64) as u64)) & 1u64 == 1u64
}

/// Sets bit `v`.
pub fn set_bit(words: &mut Vec<u64>, v: u32)
    requires
        old(words)@.len() == 1024,
        v < 65536,
    ensures
        final(words)@.len() == 1024,
        forall|u: int| #[trigger] has_bit(final(words)@, u) <==> (has_bit(old(words)@, u) || u == v),
{
    let i = (v / 64) as usize;
    let b = (v % 64) as u64;
    let w = words[i];
    words[i] = w | (1u64 << b);
    proof {
        assert forall|u: int| #[trigger] has_bit(words@, u) <==> (has_bit(old(words)@, u) || u == v) by {
            if 0 <= u < 65536 {
                if u / 64 == i {
                    lemma_set_bit(w, b, (u % 64) as u64);
                } else {
                    assert(words@[u / 64] == old(words)@[u / 64]);
                }
            }
        }
    }
}

/// The first set bit at or after `from`, or 65536 when there is none.
pub fn next_member(words: &Vec<u64>, from: u32) -> (p: u32)
    requires
        words@.len() == 1024,
        from <= 65536,
    ensures
        from <= p <= 65536,
        p < 65536 ==> has_bit(words@, p as int),
        members_below(words@, p as int) == members_below(words@, from as int),
{
    let mut p = from;
    while p < 65536 && !bit_at(words, p)
        invariant
            words@.len() == 1024,
            from <= p <= 65536,
            forall|v: int| from <= v < p ==> !#[trigger] has_bit(words@, v),
        decreases 65536 - p,
    {
        p = p + 1;
    }
    proof {
        lemma_members_gap(words@, from as int, p as int);
    }
    p
}

/// The last set bit below `below`, when some bit below it is set.
pub fn prev_member(words: &Vec<u64>, below: u32) -> (p: u32)
    requires
        words@.len() == 1024,
        below <= 65536,
        members_below(words@, below as int).len() > 0,
    ensures
        p < below,
        has_bit(words@, p as int),
        members_below(words@, below as int) == members_below(words@, p + 1),
{
    let mut v = below;
    while v > 0 && !bit_at(words, v - 1)
        invariant
            words@.len() == 1024,
            v <= below <= 65536,
            forall|u: int| v <= u < below ==> !#[trigger] has_bit(words@, u),
        decreases v,
    {
        v = v - 1;
    }
    proof {
        lemma_members_gap(words@, v as int, below as int);
        if v == 0 {
            assert(members_below(words@, 0).len() == 0);
        }
    }
    v - 1
}

/// Number of set bits below `x`.
pub fn count_members_below(words: &Vec<u64>, x: u32) -> (n: u32)
    requires
        words@.len() == 1024,
        x <= 65536,
    ensures
        n == members_below(words@, x as int).len(),
{
    let mut n: u32 = 0;
    let mut v: u32 = 0;
    while v < x
        invariant
            words@.len() == 1024,
            v <= x <= 65536,
            n == members_below(words@, v as int).len(),
            n <= v,
        decreases x - v,
    {
        proof {
            lemma_members(words@, v + 1);
        }
        if bit_at(words, v) {
            n = n + 1;
        }
        v = v + 1;
    }
    n
}

} // verus!
