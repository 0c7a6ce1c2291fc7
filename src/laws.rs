//! Laws that relate several heap operations, stated over the slot model
//! that the operations' contracts use.
use vstd::prelude::*;
use vstd::laws_cmp::obeys_cmp;
use crate::heap::{extracts_min, sorted_keys};
use crate::order::{key_le, key_lt, lemma_key_order};
use crate::slots::{live_keys, occupied, lemma_live_keys_update};

verus! {

/// Two extractions in a row return keys in non-decreasing order.
pub proof fn lemma_pops_in_order<T: Ord>(
    s0: Seq<Option<T>>,
    s1: Seq<Option<T>>,
    s2: Seq<Option<T>>,
    k1: T,
    k2: T,
)
    requires
        obeys_cmp::<T>(),
        extracts_min(s0, s1, Some(k1)),
        extracts_min(s1, s2, Some(k2)),
    ensures
        key_le(k1, k2),
{
    let i = choose|i: int|
        {
            &&& occupied(s0, i)
            &&& s0[i] == Some(k1)
            &&& s1 == s0.update(i, None)
            &&& forall|j: int| occupied(s0, j) ==> key_le(k1, #[trigger] s0[j]->Some_0)
        };
    let j = choose|j: int|
        {
            &&& occupied(s1, j)
            &&& s1[j] == Some(k2)
            &&& s2 == s1.update(j, None)
            &&& forall|l: int| occupied(s1, l) ==> key_le(k2, #[trigger] s1[l]->Some_0)
        };
    assert(j != i);
    assert(s0[j] == s1[j]);
    assert(occupied(s0, j));
    assert(key_le(k1, s0[j]->Some_0));
}

/// After an element's key is lowered to `k`, the next extraction returns a
/// key no larger than `k`.
pub proof fn lemma_decrease_then_pop<T: Ord>(
    s0: Seq<Option<T>>,
    i: int,
    k: T,
    s1: Seq<Option<T>>,
    s2: Seq<Option<T>>,
    r: Option<T>,
)
    requires
        obeys_cmp::<T>(),
        occupied(s0, i),
        key_lt(k, s0[i]->Some_0),
        s1 == s0.update(i, Some(k)),
        extracts_min(s1, s2, r),
    ensures
        r matches Some(m) && key_le(m, k),
{
    lemma_live_keys_update(s0, i, Some(k));
    assert(occupied(s1, i));
    lemma_live_keys_update(s1, i, None);
    if r is None {
        assert(live_keys(s1).contains(k));
    }
    let m = r->Some_0;
    let j = choose|j: int|
        {
            &&& occupied(s1, j)
            &&& s1[j] == Some(m)
            &&& s2 == s1.update(j, None)
            &&& forall|l: int| occupied(s1, l) ==> key_le(m, #[trigger] s1[l]->Some_0)
        };
    assert(key_le(m, s1[i]->Some_0));
}

/// Taking one element out lowers the count by one and removes one copy of
/// its key, and no other.
pub proof fn lemma_remove_one<T>(s0: Seq<Option<T>>, i: int)
    requires
        occupied(s0, i),
    ensures
        live_keys(s0.update(i, None)) == live_keys(s0).remove(s0[i]->Some_0),
        live_keys(s0.update(i, None)).len() + 1 == live_keys(s0).len(),
        !occupied(s0.update(i, None), i),
{
    lemma_live_keys_update(s0, i, None);
}

/// A run of extractions: `states[i + 1]` is `states[i]` with `out[i]`
/// taken out as a smallest key, as `pop` does.
pub open spec fn pop_run<T: Ord>(states: Seq<Seq<Option<T>>>, out: Seq<T>) -> bool {
    &&& states.len() == out.len() + 1
    &&& forall|i: int| 0 <= i < out.len() ==> extracts_min(states[i], states[i + 1], Some(#[trigger] out[i]))
}

/// A run of extractions returns keys in non-decreasing order, each no larger
/// than any key left behind, and those keys together with the ones left are
/// exactly the keys the run started from.
pub proof fn lemma_pop_run<T: Ord>(states: Seq<Seq<Option<T>>>, out: Seq<T>)
    requires
        obeys_cmp::<T>(),
        pop_run(states, out),
    ensures
        sorted_keys(out),
        out.to_multiset().add(live_keys(states.last())) == live_keys(states[0]),
        out.len() > 0 ==> forall|j: int|
            occupied(states.last(), j) ==> key_le(out.last(), #[trigger] states.last()[j]->Some_0),
    decreases out.len(),
{
    lemma_key_order::<T>();
    if out.len() == 0 {
        out.to_multiset_ensures();
        vstd::multiset::lemma_multiset_empty_len(out.to_multiset());
        assert(out.to_multiset().add(live_keys(states[0])) =~= live_keys(states[0]));
    } else {
        let n = out.len() - 1;
        let ps = states.drop_last();
        let po = out.drop_last();
        assert(pop_run(ps, po)) by {
            assert forall|i: int| 0 <= i < po.len() implies extracts_min(ps[i], ps[i + 1], Some(#[trigger] po[i])) by {
                assert(extracts_min(states[i], states[i + 1], Some(out[i])));
            }
        }
        lemma_pop_run(ps, po);
        let before = states[n];
        let after = states[n + 1];
        let k = out[n];
        assert(extracts_min(before, after, Some(k)));
        let i = choose|i: int|
            {
                &&& occupied(before, i)
                &&& before[i] == Some(k)
                &&& after == before.update(i, None)
                &&& forall|j: int| occupied(before, j) ==> key_le(k, #[trigger] before[j]->Some_0)
            };
        lemma_live_keys_update(before, i, None);
        assert(ps.last() == before);
        assert forall|j: int| occupied(after, j) implies key_le(k, #[trigger] after[j]->Some_0) by {
            assert(after[j] == before[j]);
            assert(occupied(before, j));
            assert(key_le(k, before[j]->Some_0));
        }
        if po.len() > 0 {
            assert(key_le(po.last(), before[i]->Some_0));
        }
        assert(out =~= po.push(k));
        po.to_multiset_ensures();
        assert(po.push(k).to_multiset() =~= po.to_multiset().insert(k));
        assert(po.to_multiset().insert(k).add(live_keys(before).remove(k)) =~= po.to_multiset().add(live_keys(before)));
        assert forall|a: int, b: int| 0 <= a < b < out.len() implies key_le(out[a], out[b]) by {
            if b < n {
                assert(out[a] == po[a] && out[b] == po[b]);
            } else {
                assert(out[a] == po[a]);
                if a < n - 1 {
                    assert(key_le(po[a], po[n - 1]));
                }
            }
        }
    }
}

} // verus!
