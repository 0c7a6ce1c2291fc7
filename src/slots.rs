//! The keys held by a sequence of arena slots, as a multiset.
use vstd::prelude::*;
use vstd::multiset::Multiset;

verus! {

/// The keys of the occupied slots of `s`, with repetition.
pub open spec fn live_keys<T>(s: Seq<Option<T>>) -> Multiset<T>
    decreases s.len(),
{
    if s.len() == 0 {
        Multiset::empty()
    } else {
        let rest = live_keys(s.drop_last());
        match s.last() {
            Some(k) => rest.insert(k),
            None => rest,
        }
    }
}

/// Slot `i` of `s` holds a key.
pub open spec fn occupied<T>(s: Seq<Option<T>>, i: int) -> bool {
    0 <= i < s.len() && s[i] is Some
}

pub proof fn lemma_live_keys_push<T>(s: Seq<Option<T>>, o: Option<T>)
    ensures
        live_keys(s.push(o)) == match o {
            Some(k) => live_keys(s).insert(k),
            None => live_keys(s),
        },
{
    assert(s.push(o).drop_last() =~= s);
}

pub proof fn lemma_live_keys_update<T>(s: Seq<Option<T>>, i: int, o: Option<T>)
    requires
        0 <= i < s.len(),
    ensures
        live_keys(s.update(i, o)) == match o {
            Some(k) => match s[i] {
                Some(j) => live_keys(s).remove(j).insert(k),
                None => live_keys(s).insert(k),
            },
            None => match s[i] {
                Some(j) => live_keys(s).remove(j),
                None => live_keys(s),
            },
        },
        s[i] matches Some(j) ==> live_keys(s).contains(j),
    decreases s.len(),
{
    let n = s.len() - 1;
    let t = s.update(i, o);
    if i == n {
        assert(t.drop_last() =~= s.drop_last());
    } else {
        assert(t.drop_last() =~= s.drop_last().update(i, o));
        lemma_live_keys_update(s.drop_last(), i, o);
        let r = live_keys(s.drop_last());
        if let Some(j) = s[i] {
            assert(s.drop_last()[i] == s[i]);
            if let Some(l) = s[n] {
                assert(r.insert(l).remove(j) =~= r.remove(j).insert(l));
                if let Some(k) = o {
                    assert(r.remove(j).insert(k).insert(l) =~= r.insert(l).remove(j).insert(k));
                }
            }
        } else {
            assert(s.drop_last()[i] == s[i]);
            if let Some(l) = s[n] {
                if let Some(k) = o {
                    assert(r.insert(k).insert(l) =~= r.insert(l).insert(k));
                }
            }
        }
    }
}

/// The keys of two slot sequences one after the other.
pub proof fn lemma_live_keys_append<T>(a: Seq<Option<T>>, b: Seq<Option<T>>)
    ensures
        live_keys(a + b) == live_keys(a).add(live_keys(b)),
    decreases b.len(),
{
    if b.len() == 0 {
        assert(a + b =~= a);
        assert(live_keys(a).add(Multiset::empty()) =~= live_keys(a));
    } else {
        assert((a + b).drop_last() =~= a + b.drop_last());
        lemma_live_keys_append(a, b.drop_last());
        let x = live_keys(a);
        let y = live_keys(b.drop_last());
        if let Some(k) = b.last() {
            assert(x.add(y).insert(k) =~= x.add(y.insert(k)));
        }
    }
}

/// The multiset is empty exactly when no slot is occupied.
pub proof fn lemma_live_keys_empty<T>(s: Seq<Option<T>>)
    ensures
        (live_keys(s).len() == 0) <==> (forall|i: int| !occupied(s, i)),
    decreases s.len(),
{
    if s.len() > 0 {
        lemma_live_keys_empty(s.drop_last());
        if let Some(k) = s.last() {
            assert(occupied(s, s.len() - 1));
        } else {
            assert((forall|i: int| !occupied(s, i)) <==> (forall|i: int| !occupied(s.drop_last(), i))) by {
                if forall|i: int| !occupied(s.drop_last(), i) {
                    assert forall|i: int| !occupied(s, i) by {
                        if 0 <= i < s.len() - 1 {
                            assert(!occupied(s.drop_last(), i));
                        }
                    }
                }
                if forall|i: int| !occupied(s, i) {
                    assert forall|i: int| !occupied(s.drop_last(), i) by {
                        assert(!occupied(s, i));
                    }
                }
            }
        }
    }
}

/// No occupied slot at or past `len`.
pub proof fn lemma_live_keys_len_bound<T>(s: Seq<Option<T>>)
    ensures
        live_keys(s).len() <= s.len(),
    decreases s.len(),
{
    if s.len() > 0 {
        lemma_live_keys_len_bound(s.drop_last());
    }
}

} // verus!
