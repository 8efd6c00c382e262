//! The reference model of a bitmap: a `BTreeSet` of its values.

use vstd::prelude::*;
use std::collections::BTreeSet;
use vstd::std_specs::iter::IteratorSpec;
use crate::order::increasing;

verus! {

broadcast use vstd::laws_cmp::group_laws_cmp;

proof fn lemma_increasing_refs(s: Seq<&u32>)
    requires
        vstd::std_specs::btree::increasing_seq(s),
    ensures
        forall|i: int, j: int| 0 <= i < j < s.len() ==> *s[i] < *s[j],
{
    assert(vstd::laws_cmp::obeys_cmp::<&u32>());
    assert forall|i: int, j: int| 0 <= i < j < s.len() implies *s[i] < *s[j] by {
        assert(vstd::std_specs::cmp::OrdSpec::cmp_spec(&s[i], &s[j]) is Less);
    }
}

/// The members of the model in the order in which the set walks them,
/// which is increasing.
pub fn sorted_members(m: &BTreeSet<u32>) -> (r: Vec<u32>)
    ensures
        increasing(r@),
        forall|x: u32| r@.contains(x) <==> m@.contains(x),
{
    let mut out: Vec<u32> = Vec::new();
    for x in it: m.iter()
        invariant
            out@ == it.seq().take(it.index() as int).map_values(|p: &u32| *p),
            it.seq() == vstd::std_specs::btree::spec_btree_keys_iter(m).remaining(),
    {
        out.push(*x);
    }
    proof {
        let s = vstd::std_specs::btree::spec_btree_keys_iter(m).remaining();
        assert(out@ =~= s.map_values(|p: &u32| *p));
        assert(s.unref() =~= out@);
        lemma_increasing_refs(s);
        assert(out@.to_set() == m@);
        assert forall|x: u32| out@.contains(x) <==> m@.contains(x) by {
            assert(out@.to_set().contains(x) <==> out@.contains(x));
        }
    }
    out
}

/// Adds `v` to the model.
pub fn model_insert(m: &mut BTreeSet<u32>, v: u32)
    ensures
        final(m)@ == old(m)@.insert(v),
{
    m.insert(v);
}

} // verus!
