//! Circular doubly-linked lists threaded through an arena of links, and the
//! three ways of changing one: splicing a node in, joining two lists, and
//! unlinking a node.
//!
//! A list is described by a ghost sequence of arena indices, in the order in
//! which `right` walks it; the last element's `right` is the first element.
use vstd::prelude::*;

verus! {

/// The structural part of a heap node: its place in a sibling list and in
/// its tree.
#[derive(Clone, Copy)]
pub struct Link {
    pub left: usize,
    pub right: usize,
    pub parent: Option<usize>,
    pub child: Option<usize>,
    pub degree: usize,
    pub mark: bool,
}

#[verifier::opaque]
/// `l` is a circular list in `links`: distinct indices in range, each one's
/// `right` the next, each next one's `left` the previous, wrapping around.
pub open spec fn ring(links: Seq<Link>, l: Seq<usize>) -> bool {
    &&& l.no_duplicates()
    &&& forall|p: int| 0 <= p < l.len() ==> (#[trigger] l[p] as int) < links.len()
    &&& forall|p: int|
        0 <= p < l.len() - 1 ==> links[#[trigger] l[p] as int].right == l[p + 1] && links[l[p
            + 1] as int].left == l[p]
    &&& l.len() > 0 ==> links[l.last() as int].right == l[0] && links[l[0] as int].left
        == l.last()
}

/// `a` and `b` agree on everything but the sibling pointers.
pub open spec fn same_but_siblings(a: Link, b: Link) -> bool {
    a.parent == b.parent && a.child == b.child && a.degree == b.degree && a.mark == b.mark
}

/// `l` turned so that it starts at position `k`.
pub open spec fn rotate(l: Seq<usize>, k: int) -> Seq<usize> {
    l.subrange(k, l.len() as int) + l.subrange(0, k)
}

pub proof fn lemma_rotate(links: Seq<Link>, l: Seq<usize>, k: int)
    requires
        ring(links, l),
        0 <= k < l.len(),
    ensures
        ring(links, rotate(l, k)),
        rotate(l, k).len() == l.len(),
        rotate(l, k)[0] == l[k],
        rotate(l, k).last() == l[if k == 0 { l.len() - 1 } else { k - 1 }],
        forall|x: usize| #[trigger] rotate(l, k).contains(x) <==> l.contains(x),
{
    reveal(ring);
    let r = rotate(l, k);
    let n = l.len() as int;
    assert forall|p: int| 0 <= p < n implies r[p] == l[if p + k < n { p + k } else { p + k - n }] by {}
    assert forall|x: usize| #[trigger] r.contains(x) <==> l.contains(x) by {
        if l.contains(x) {
            let q = choose|q: int| 0 <= q < n && l[q] == x;
            let p = if q >= k { q - k } else { q + n - k };
            assert(r[p] == x);
        }
    }
    assert(r.no_duplicates()) by {
        assert forall|i: int, j: int| 0 <= i < n && 0 <= j < n && i != j implies r[i] != r[j] by {
            let ii = if i + k < n { i + k } else { i + k - n };
            let jj = if j + k < n { j + k } else { j + k - n };
            assert(r[i] == l[ii]);
            assert(r[j] == l[jj]);
        }
    }
    assert forall|p: int| 0 <= p < n - 1 implies links[#[trigger] r[p] as int].right == r[p + 1]
        && links[r[p + 1] as int].left == r[p] by {
        let q = if p + k < n { p + k } else { p + k - n };
        if q == n - 1 {
            assert(r[p + 1] == l[0]);
        } else {
            assert(r[p + 1] == l[q + 1]);
        }
    }
    assert forall|p: int| 0 <= p < n implies (#[trigger] r[p] as int) < links.len() by {
        let q = if p + k < n { p + k } else { p + k - n };
        assert(r[p] == l[q]);
    }
}

/// `l` turned so that it ends at its member `x`.
pub proof fn lemma_rotate_to_end(links: Seq<Link>, l: Seq<usize>, x: usize) -> (r: Seq<usize>)
    requires
        ring(links, l),
        l.contains(x),
    ensures
        ring(links, r),
        r.len() == l.len(),
        r.last() == x,
        forall|y: usize| #[trigger] r.contains(y) <==> l.contains(y),
{
    reveal(ring);
    let k = choose|k: int| 0 <= k < l.len() && l[k] == x;
    let k2 = if k + 1 < l.len() { k + 1 } else { 0 };
    lemma_rotate(links, l, k2);
    rotate(l, k2)
}

/// `l` turned so that it starts at its member `x`.
pub proof fn lemma_rotate_to_front(links: Seq<Link>, l: Seq<usize>, x: usize) -> (r: Seq<usize>)
    requires
        ring(links, l),
        l.contains(x),
    ensures
        ring(links, r),
        r.len() == l.len(),
        r[0] == x,
        forall|y: usize| #[trigger] r.contains(y) <==> l.contains(y),
{
    reveal(ring);
    let k = choose|k: int| 0 <= k < l.len() && l[k] == x;
    lemma_rotate(links, l, k);
    rotate(l, k)
}

/// Distinct indices below `n` number at most `n`.
pub proof fn lemma_distinct_below(l: Seq<usize>, n: int)
    requires
        n >= 0,
        l.no_duplicates(),
        forall|p: int| 0 <= p < l.len() ==> (#[trigger] l[p] as int) < n,
    ensures
        l.len() <= n,
{
    reveal(ring);
    let m = l.map_values(|u: usize| u as int);
    assert forall|i: int| 0 <= i < m.len() implies #[trigger] m[i] == l[i] as int by {}
    assert(m.no_duplicates()) by {
        assert forall|i: int, j: int| 0 <= i < m.len() && 0 <= j < m.len() && i != j implies m[i] != m[j] by {
            assert(m[i] == l[i] as int);
            assert(m[j] == l[j] as int);
        }
    }
    m.unique_seq_to_set();
    assert(m.len() == l.len());
    let range = vstd::set_lib::set_int_range(0, n);
    assert(m.to_set().subset_of(range)) by {
        assert forall|v: int| m.to_set().contains(v) implies range.contains(v) by {
            let q = choose|q: int| 0 <= q < m.len() && m[q] == v;
            assert(m[q] == l[q] as int);
        }
    }
    vstd::set_lib::lemma_int_range(0, n);
    vstd::set_lib::lemma_len_subset(m.to_set(), range);
}

/// Growing a prefix by one element adds exactly that element.
pub proof fn lemma_prefix_step(l: Seq<usize>, q: int)
    requires
        0 <= q < l.len(),
    ensures
        forall|v: usize|
            #[trigger] l.subrange(0, q + 1).contains(v) <==> (l.subrange(0, q).contains(v) || v == l[q]),
{
    reveal(ring);
    assert forall|v: usize| #[trigger] l.subrange(0, q + 1).contains(v) <==> (l.subrange(0, q).contains(v) || v == l[q]) by {
        if l.subrange(0, q + 1).contains(v) {
            let e = choose|e: int| 0 <= e < q + 1 && #[trigger] l.subrange(0, q + 1)[e] == v;
            if e < q {
                assert(l.subrange(0, q)[e] == v);
            }
        }
        if l.subrange(0, q).contains(v) {
            let e = choose|e: int| 0 <= e < q && #[trigger] l.subrange(0, q)[e] == v;
            assert(l.subrange(0, q + 1)[e] == v);
        }
        if v == l[q] {
            assert(l.subrange(0, q + 1)[q] == v);
        }
    }
}

/// A list stays a list when no sibling pointer of its members changes.
pub proof fn lemma_ring_frame(links: Seq<Link>, links2: Seq<Link>, l: Seq<usize>)
    requires
        ring(links, l),
        links2.len() >= links.len(),
        forall|x: usize|
            #[trigger] l.contains(x) && (x as int) < links.len() ==> links2[x as int].left == links[x as int].left
                && links2[x as int].right == links[x as int].right,
    ensures
        ring(links2, l),
{
    reveal(ring);
    assert forall|p: int| 0 <= p < l.len() - 1 implies links2[#[trigger] l[p] as int].right == l[p
        + 1] && links2[l[p + 1] as int].left == l[p] by {
        assert(l.contains(l[p]));
        assert(l.contains(l[p + 1]));
    }
    if l.len() > 0 {
        assert(l.contains(l[0]));
        assert(l.contains(l.last()));
    }
}

/// The empty list.
pub proof fn lemma_ring_empty(links: Seq<Link>)
    ensures
        ring(links, Seq::empty()),
{
    reveal(ring);
}

/// What a list is made of: distinct indices in range, linked to the next.
pub proof fn lemma_ring_basics(links: Seq<Link>, l: Seq<usize>)
    requires
        ring(links, l),
    ensures
        l.no_duplicates(),
        forall|p: int| 0 <= p < l.len() ==> (#[trigger] l[p] as int) < links.len(),
        forall|p: int| 0 <= p < l.len() - 1 ==> links[#[trigger] l[p] as int].right == l[p + 1],
        l.len() > 0 ==> links[l.last() as int].right == l[0],
{
    reveal(ring);
}

/// The one-node list.
pub proof fn lemma_ring_singleton(links: Seq<Link>, x: usize)
    requires
        (x as int) < links.len(),
        links[x as int].left == x,
        links[x as int].right == x,
    ensures
        ring(links, seq![x]),
{
    reveal(ring);
}

/// Splices the lone node `x` into the list `l` right after its last node `a`.
pub fn ring_insert(links: &mut Vec<Link>, x: usize, a: usize, Ghost(l): Ghost<Seq<usize>>)
    requires
        ring(old(links)@, l),
        l.len() > 0,
        l.last() == a,
        (x as int) < old(links)@.len(),
        !l.contains(x),
    ensures
        ring(final(links)@, l.push(x)),
        final(links)@.len() == old(links)@.len(),
        forall|i: int|
            0 <= i < old(links)@.len() && i != x && i != a && i != l[0] ==> final(links)@[i]
                == old(links)@[i],
        forall|i: int|
            0 <= i < old(links)@.len() ==> same_but_siblings(#[trigger] final(links)@[i], old(links)@[i]),
{
    reveal(ring);
    let f = links[a].right;
    let mut lx = links[x];
    lx.left = a;
    lx.right = f;
    links.set(x, lx);
    let mut la = links[a];
    la.right = x;
    links.set(a, la);
    let mut lf = links[f];
    lf.left = x;
    links.set(f, lf);
    let ghost nl = l.push(x);
    proof {
        let n = l.len() as int;
        assert(nl[n] == x);
        assert(nl.no_duplicates()) by {
            assert forall|i: int, j: int| 0 <= i < nl.len() && 0 <= j < nl.len() && i != j implies nl[i] != nl[j] by {
                if i < n && j < n {
                    assert(nl[i] == l[i] && nl[j] == l[j]);
                }
            }
        }
        assert forall|p: int| 0 <= p < nl.len() - 1 implies links@[#[trigger] nl[p] as int].right == nl[p
            + 1] && links@[nl[p + 1] as int].left == nl[p] by {
            if p < n - 1 {
                assert(nl[p] == l[p] && nl[p + 1] == l[p + 1]);
                assert(l[p] != x && l[p + 1] != x);
                assert(l[p] != a) by {
                    assert(l[n - 1] == a);
                }
                assert(l[p + 1] != f) by {
                    assert(l[0] == f);
                }
            }
        }
        assert forall|p: int| 0 <= p < nl.len() implies (#[trigger] nl[p] as int) < links@.len() by {
            if p < n {
                assert(nl[p] == l[p]);
            }
        }
    }
}

/// Removes `x`, the last node of `l`, from the list; `x`'s own pointers are
/// left as they were.
#[verifier::rlimit(60)]
pub fn ring_unlink(links: &mut Vec<Link>, x: usize, Ghost(l): Ghost<Seq<usize>>)
    requires
        ring(old(links)@, l),
        l.len() > 0,
        l.last() == x,
    ensures
        ring(final(links)@, l.drop_last()),
        final(links)@.len() == old(links)@.len(),
        forall|i: int|
            0 <= i < old(links)@.len() && (l.len() == 1 || (i != l[0] && i != l[l.len() - 2]))
                ==> final(links)@[i] == old(links)@[i],
        forall|i: int|
            0 <= i < old(links)@.len() ==> same_but_siblings(#[trigger] final(links)@[i], old(links)@[i]),
{
    reveal(ring);
    let ghost old_links = links@;
    proof {
        let n = l.len() as int;
        assert(l[n - 1] == x);
        if n > 1 {
            assert(links@[l[n - 2] as int].right == l[n - 1]);
        }
    }
    let lt = links[x].left;
    let rt = links[x].right;
    proof {
        let n = l.len() as int;
        if n > 1 {
            assert(lt == l[n - 2]);
        } else {
            assert(lt == x);
        }
        assert(rt == l[0]);
    }
    let mut ll = links[lt];
    ll.right = rt;
    links.set(lt, ll);
    let mut lr = links[rt];
    lr.left = lt;
    links.set(rt, lr);
    proof {
        let n = l.len() as int;
        let nl = l.drop_last();
        assert(l.contains(x));
        if n > 1 {
            assert(lt == l[n - 2]);
            assert(rt == l[0]);
            assert(links@[lt as int].right == rt);
            assert(links@[rt as int].left == lt);
            assert forall|i: int| 0 <= i < links@.len() && i != lt && i != rt implies links@[i]
                == old_links[i] by {}
            assert forall|p: int| 0 <= p < nl.len() - 1 implies links@[#[trigger] nl[p] as int].right
                == nl[p + 1] && links@[nl[p + 1] as int].left == nl[p] by {
                assert(nl[p] == l[p] && nl[p + 1] == l[p + 1]);
                assert(l[p] != l[n - 2]);
                assert(l[p + 1] != l[0]);
                assert(old_links[l[p] as int].right == l[p + 1]);
                assert(old_links[l[p + 1] as int].left == l[p]);
            }
            assert forall|p: int| 0 <= p < nl.len() implies (#[trigger] nl[p] as int) < links@.len() by {
                assert(nl[p] == l[p]);
            }
            assert(nl.no_duplicates()) by {
                assert forall|i: int, j: int| 0 <= i < nl.len() && 0 <= j < nl.len() && i != j implies nl[i] != nl[j] by {
                    assert(nl[i] == l[i] && nl[j] == l[j]);
                }
            }
            assert(nl.last() == l[n - 2]);
            assert(nl[0] == l[0]);
        } else {
            assert(lt == x && rt == x);
            assert(links@ =~= old_links);
        }
    }
}

/// `l` with every index moved up by `off`.
pub open spec fn shift_seq(l: Seq<usize>, off: int) -> Seq<usize> {
    l.map_values(|c: usize| (c + off) as usize)
}

/// `l` with every index it holds moved up by `off`.
pub open spec fn shift_link(l: Link, off: int) -> Link {
    Link {
        left: (l.left + off) as usize,
        right: (l.right + off) as usize,
        parent: match l.parent {
            Some(p) => Some((p + off) as usize),
            None => None,
        },
        child: match l.child {
            Some(c) => Some((c + off) as usize),
            None => None,
        },
        degree: l.degree,
        mark: l.mark,
    }
}

/// What moving the indices of a list up by `off` does to it.
pub proof fn lemma_shift_seq(l: Seq<usize>, off: int, bound: int)
    requires
        l.no_duplicates(),
        0 <= off,
        bound + off <= usize::MAX,
        forall|p: int| 0 <= p < l.len() ==> (#[trigger] l[p] as int) < bound,
    ensures
        shift_seq(l, off).len() == l.len(),
        forall|p: int| 0 <= p < l.len() ==> #[trigger] shift_seq(l, off)[p] as int == l[p] as int + off,
        shift_seq(l, off).no_duplicates(),
        forall|y: usize|
            #[trigger] shift_seq(l, off).contains(y) <==> (y >= off && l.contains((y - off) as usize)),
{
    let m = shift_seq(l, off);
    assert forall|p: int| 0 <= p < l.len() implies #[trigger] m[p] as int == l[p] as int + off by {}
    assert(m.no_duplicates()) by {
        assert forall|i: int, j: int| 0 <= i < m.len() && 0 <= j < m.len() && i != j implies m[i] != m[j] by {
            assert(m[i] as int == l[i] as int + off);
            assert(m[j] as int == l[j] as int + off);
        }
    }
    assert forall|y: usize| #[trigger] m.contains(y) <==> (y >= off && l.contains((y - off) as usize)) by {
        if m.contains(y) {
            let q = choose|q: int| 0 <= q < m.len() && m[q] == y;
            assert(m[q] as int == l[q] as int + off);
            assert(l[q] == (y - off) as usize);
        }
        if y >= off && l.contains((y - off) as usize) {
            let q = choose|q: int| 0 <= q < l.len() && l[q] == (y - off) as usize;
            assert(m[q] as int == l[q] as int + off);
        }
    }
}

/// A list keeps its shape when the whole arena is moved up by `off` into
/// another one.
#[verifier::rlimit(50)]
pub proof fn lemma_ring_shift(links: Seq<Link>, links2: Seq<Link>, l: Seq<usize>, off: int)
    requires
        ring(links, l),
        0 <= off,
        links2.len() >= links.len() + off,
        links.len() + off <= usize::MAX,
        forall|x: usize|
            #[trigger] l.contains(x) ==> links2[x + off].left == links[x as int].left + off
                && links2[x + off].right == links[x as int].right + off,
    ensures
        ring(links2, shift_seq(l, off)),
        shift_seq(l, off).len() == l.len(),
        forall|y: usize| #[trigger] shift_seq(l, off).contains(y) <==> (y >= off && l.contains((y - off) as usize)),
{
    lemma_ring_basics(links, l);
    lemma_shift_seq(l, off, links.len() as int);
    reveal(ring);
    let m = shift_seq(l, off);
    let n = l.len() as int;
    assert forall|p: int| 0 <= p < m.len() - 1 implies links2[#[trigger] m[p] as int].right == m[p + 1] && links2[m[p
        + 1] as int].left == m[p] by {
        assert(l.contains(l[p]));
        assert(l.contains(l[p + 1]));
        assert(m[p] as int == l[p] as int + off);
        assert(m[p + 1] as int == l[p + 1] as int + off);
        assert(links2[l[p] + off].right == links[l[p] as int].right + off);
        assert(links2[l[p + 1] + off].left == links[l[p + 1] as int].left + off);
    }
    if n > 0 {
        assert(l.contains(l[0]));
        assert(l.contains(l[n - 1]));
        assert(m[0] as int == l[0] as int + off);
        assert(m[n - 1] as int == l[n - 1] as int + off);
        assert(links2[l[n - 1] + off].right == links[l[n - 1] as int].right + off);
        assert(links2[l[0] + off].left == links[l[0] as int].left + off);
    }
    assert forall|p: int| 0 <= p < m.len() implies (#[trigger] m[p] as int) < links2.len() by {
        assert(m[p] as int == l[p] as int + off);
    }
}

/// A member's neighbours are members.
pub proof fn lemma_ring_neighbors(links: Seq<Link>, l: Seq<usize>, x: usize)
    requires
        ring(links, l),
        l.contains(x),
    ensures
        l.contains(links[x as int].left),
        l.contains(links[x as int].right),
        (x as int) < links.len(),
{
    reveal(ring);
    let q = choose|q: int| 0 <= q < l.len() && l[q] == x;
    if q + 1 < l.len() {
        assert(l.contains(l[q + 1]));
    } else {
        assert(l.contains(l[0]));
    }
    if q > 0 {
        assert(links[l[q - 1] as int].right == l[q]);
        assert(l.contains(l[q - 1]));
    } else {
        assert(l.contains(l.last()));
    }
}

/// Joins list `la`, which ends at `a`, and list `lb`, which starts at `b`,
/// into the one list `la + lb`.
pub fn ring_concat(
    links: &mut Vec<Link>,
    a: usize,
    b: usize,
    Ghost(la): Ghost<Seq<usize>>,
    Ghost(lb): Ghost<Seq<usize>>,
)
    requires
        ring(old(links)@, la),
        ring(old(links)@, lb),
        la.len() > 0,
        lb.len() > 0,
        la.last() == a,
        lb[0] == b,
        forall|y: usize| la.contains(y) ==> !lb.contains(y),
    ensures
        ring(final(links)@, la + lb),
        final(links)@.len() == old(links)@.len(),
        forall|i: int|
            0 <= i < old(links)@.len() && i != a && i != b && i != la[0] && i != lb.last()
                ==> final(links)@[i] == old(links)@[i],
        forall|i: int|
            0 <= i < old(links)@.len() ==> same_but_siblings(#[trigger] final(links)@[i], old(links)@[i]),
{
    reveal(ring);
    let a_right = links[a].right;
    let b_left = links[b].left;
    let mut l1 = links[a];
    l1.right = b;
    links.set(a, l1);
    let mut l2 = links[b];
    l2.left = a;
    links.set(b, l2);
    let mut l3 = links[a_right];
    l3.left = b_left;
    links.set(a_right, l3);
    let mut l4 = links[b_left];
    l4.right = a_right;
    links.set(b_left, l4);
    proof {
        let na = la.len() as int;
        let nb = lb.len() as int;
        let nl = la + lb;
        assert(a_right == la[0]);
        assert(b_left == lb[nb - 1]);
        assert(la.contains(la[0]) && la.contains(a));
        assert(lb.contains(b) && lb.contains(lb[nb - 1]));
        assert(nl.no_duplicates()) by {
            assert forall|i: int, j: int| 0 <= i < nl.len() && 0 <= j < nl.len() && i != j implies nl[i] != nl[j] by {
                if i < na && j >= na {
                    assert(la.contains(nl[i]));
                    assert(lb.contains(nl[j]));
                } else if i >= na && j < na {
                    assert(lb.contains(nl[i]));
                    assert(la.contains(nl[j]));
                }
            }
        }
        assert forall|p: int| 0 <= p < nl.len() implies (#[trigger] nl[p] as int) < links@.len() by {
            if p < na {
                assert(nl[p] == la[p]);
            } else {
                assert(nl[p] == lb[p - na]);
            }
        }
        assert forall|p: int| 0 <= p < nl.len() - 1 implies links@[#[trigger] nl[p] as int].right
            == nl[p + 1] && links@[nl[p + 1] as int].left == nl[p] by {
            if p < na - 1 {
                assert(nl[p] == la[p] && nl[p + 1] == la[p + 1]);
                assert(la.contains(la[p]) && la.contains(la[p + 1]));
                assert(la[p] != a);
                assert(la[p + 1] != la[0]);
            } else if p >= na {
                assert(nl[p] == lb[p - na] && nl[p + 1] == lb[p + 1 - na]);
                assert(lb.contains(lb[p - na]) && lb.contains(lb[p + 1 - na]));
                assert(lb[p - na] != lb[nb - 1]);
                assert(lb[p + 1 - na] != b);
            }
        }
    }
}

} // verus!
