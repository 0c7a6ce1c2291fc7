//! The heap: an arena of nodes threaded into a forest of heap-ordered trees
//! whose roots form one circular list.
use vstd::prelude::*;
use vstd::laws_cmp::obeys_cmp;
use vstd::multiset::{Multiset, lemma_multiset_empty_len};
use crate::order::{key_le, key_lt, key_less, lemma_key_order};
use crate::ring::{Link, shift_seq, lemma_shift_seq, shift_link, lemma_ring_shift, lemma_ring_neighbors, ring_concat, lemma_ring_empty, lemma_ring_basics, lemma_prefix_step, lemma_distinct_below, lemma_rotate_to_end, lemma_rotate_to_front, ring, same_but_siblings, lemma_ring_frame, lemma_ring_singleton, ring_insert, ring_unlink};
use crate::slots::{live_keys, lemma_live_keys_append, occupied, lemma_live_keys_push, lemma_live_keys_update, lemma_live_keys_empty, lemma_live_keys_len_bound};

verus! {

/// Relies on std's `RandomState::new`: each state it returns carries hash
/// keys of its own, drawn at random for the thread and stepped for every
/// new state.
#[verifier::external_body]
fn fresh_random_state() -> (r: std::collections::hash_map::RandomState) {
    std::collections::hash_map::RandomState::new()
}

/// Relies on std's `BuildHasher::hash_one`: the hash of one value under the
/// keys of `s`; nothing is promised of the number.
#[verifier::external_body]
fn hash_under(s: &std::collections::hash_map::RandomState, v: u64) -> (r: u64) {
    std::hash::BuildHasher::hash_one(s, v)
}

/// The key in slot `i`.
spec fn key_of<T>(keys: Seq<Option<T>>, i: int) -> T {
    keys[i]->Some_0
}

/// Node `i` sits well in the forest; kept opaque so that only the nodes a
/// proof names get unfolded.
#[verifier::opaque]
closed spec fn node_ok<T: Ord>(
    keys: Seq<Option<T>>,
    links: Seq<Link>,
    kids: Seq<Seq<usize>>,
    rank: Seq<nat>,
    height: nat,
    i: int,
) -> bool {
    node_facts(keys, links, kids, rank, height, i)
}

/// What it takes for node `i` to sit well: its child list, its degree, its
/// parent, and the heap order towards that parent.
closed spec fn node_facts<T: Ord>(
    keys: Seq<Option<T>>,
    links: Seq<Link>,
    kids: Seq<Seq<usize>>,
    rank: Seq<nat>,
    height: nat,
    i: int,
) -> bool {
    let l = links[i];
    let ks = kids[i];
    &&& ring(links, ks)
    &&& l.degree == ks.len()
    &&& (l.child is None <==> ks.len() == 0)
    &&& (l.child matches Some(c) ==> ks.contains(c))
    &&& forall|c: usize|
        #[trigger] ks.contains(c) ==> occupied(keys, c as int) && links[c as int].parent == Some(
            i as usize,
        )
    &&& (l.parent matches Some(p) ==> {
        &&& occupied(keys, p as int)
        &&& kids[p as int].contains(i as usize)
        &&& rank[p as int] > rank[i]
        &&& key_le(key_of(keys, p as int), key_of(keys, i))
    })
    &&& rank[i] < height
}

proof fn lemma_unfold<T: Ord>(
    keys: Seq<Option<T>>,
    links: Seq<Link>,
    kids: Seq<Seq<usize>>,
    rank: Seq<nat>,
    height: nat,
    i: int,
)
    requires
        node_ok(keys, links, kids, rank, height, i),
    ensures
        node_facts(keys, links, kids, rank, height, i),
{
    reveal(node_ok);
}

proof fn lemma_fold<T: Ord>(
    keys: Seq<Option<T>>,
    links: Seq<Link>,
    kids: Seq<Seq<usize>>,
    rank: Seq<nat>,
    height: nat,
    i: int,
)
    requires
        node_facts(keys, links, kids, rank, height, i),
    ensures
        node_ok(keys, links, kids, rank, height, i),
{
    reveal(node_ok);
}

/// `t` is a live, parentless, unmarked node.
closed spec fn is_top<T>(keys: Seq<Option<T>>, links: Seq<Link>, t: usize) -> bool {
    &&& occupied(keys, t as int)
    &&& links[t as int].parent is None
    &&& !links[t as int].mark
}

/// `after` is `before` with a smallest key taken out, and `r` is that key;
/// or `before` holds no key, `after` is the same and `r` is `None`.
pub open spec fn extracts_min<T: Ord>(before: Seq<Option<T>>, after: Seq<Option<T>>, r: Option<T>) -> bool {
    match r {
        None => live_keys(before).len() == 0 && after == before,
        Some(k) => exists|i: int|
            {
                &&& occupied(before, i)
                &&& before[i] == Some(k)
                &&& after == before.update(i, None)
                &&& forall|j: int| occupied(before, j) ==> key_le(k, #[trigger] before[j]->Some_0)
            },
    }
}

/// A handle on one element of a heap, returned by `push`.
///
/// It names the slot that the element was given and carries the identity
/// of the heap that gave it. The slot is never reused, so once the element
/// has left the heap the handle stays harmless: `decrease_key` and `delete`
/// ignore it. A heap also ignores every handle whose identity differs from
/// its own; identities are random 64-bit numbers, so two heaps share one
/// only by chance, and then a handle of one is taken as naming a slot of the
/// other.
#[derive(Clone, Copy, PartialEq, Eq, Debug)]
pub struct NodePtr {
    heap: u64,
    slot: usize,
}

impl NodePtr {
    /// The identity of the heap that issued this handle.
    pub closed spec fn heap_id(&self) -> u64 {
        self.heap
    }

    /// The arena slot of the element.
    pub closed spec fn index(&self) -> int {
        self.slot as int
    }
}

/// A min-Fibonacci heap.
///
/// Its model is the sequence of its arena slots: slot `i` holds `Some(k)`
/// while the element pushed as the `i`-th one is in the heap with key `k`,
/// and `None` once it has left.
pub struct FibonacciHeap<T> {
    keys: Vec<Option<T>>,
    links: Vec<Link>,
    n: usize,
    min: Option<usize>,
    id: u64,
    roots: Ghost<Seq<usize>>,
    kids: Ghost<Seq<Seq<usize>>>,
    rank: Ghost<Seq<nat>>,
    height: Ghost<nat>,
}

impl<T> View for FibonacciHeap<T> {
    type V = Seq<Option<T>>;

    closed spec fn view(&self) -> Seq<Option<T>> {
        self.keys@
    }
}

impl<T> FibonacciHeap<T> {
    /// The identity that this heap stamps on its handles.
    pub closed spec fn id(&self) -> u64 {
        self.id
    }

    /// `h` names an element that is in this heap.
    pub open spec fn holds(&self, h: NodePtr) -> bool {
        h.heap_id() == self.id() && occupied(self@, h.index())
    }

    closed spec fn wf_forest(&self) -> bool
        where T: Ord
    {
        &&& self.links@.len() == self.keys@.len()
        &&& self.kids@.len() == self.keys@.len()
        &&& self.rank@.len() == self.keys@.len()
        &&& self.height@ > 0
        &&& self.links@.len() <= usize::MAX
        &&& forall|i: int| #[trigger] occupied(self.keys@, i) ==> node_ok(self.keys@, self.links@, self.kids@, self.rank@, self.height@, i)
    }

    closed spec fn wf_roots(&self) -> bool {
        &&& ring(self.links@, self.roots@)
        &&& forall|r: usize|
            #[trigger] self.roots@.contains(r) ==> occupied(self.keys@, r as int) && self.links@[r as int].parent is None
                && !self.links@[r as int].mark
        &&& forall|i: int|
            #[trigger] occupied(self.keys@, i) && self.links@[i].parent is None ==> self.roots@.contains(
                i as usize,
            )
    }

    closed spec fn wf_min(&self) -> bool
        where T: Ord
    {
        match self.min {
            None => forall|i: int| !#[trigger] occupied(self.keys@, i),
            Some(m) => {
                &&& self.roots@.contains(m)
                &&& forall|i: int| #[trigger] occupied(self.keys@, i) ==> key_le(key_of(self.keys@, m as int), key_of(self.keys@, i))
            },
        }
    }

    /// The heap is well formed: a forest of heap-ordered trees whose roots
    /// form one circular list, `min` on a smallest key, and the count right.
    pub closed spec fn wf(&self) -> bool
        where T: Ord
    {
        &&& self.wf_forest()
        &&& self.wf_roots()
        &&& self.wf_min()
        &&& self.n == live_keys(self.keys@).len()
    }

    /// The key that `min` points at, if any.
    pub closed spec fn min_key(&self) -> Option<T> {
        match self.min {
            Some(m) => Some(key_of(self.keys@, m as int)),
            None => None,
        }
    }

    /// In a well-formed heap `min_key` is a smallest key held, and there is
    /// one exactly when the heap is not empty.
    pub proof fn lemma_min_key(&self)
        where T: Ord
        requires
            self.wf(),
        ensures
            self.min_key() is None <==> live_keys(self@).len() == 0,
            self.min_key() matches Some(k) ==> {
                &&& exists|i: int| occupied(self@, i) && self@[i] == Some(k)
                &&& forall|j: int| occupied(self@, j) ==> key_le(k, #[trigger] self@[j]->Some_0)
            },
    {
        lemma_live_keys_empty(self.keys@);
        if let Some(m) = self.min {
            assert(occupied(self.keys@, m as int));
            assert forall|j: int| occupied(self@, j) implies key_le(key_of(self.keys@, m as int), #[trigger] self@[j]->Some_0) by {
                assert(key_le(key_of(self.keys@, m as int), key_of(self.keys@, j)));
            }
        }
    }

    /// No two roots have the same degree: what consolidation leaves behind.
    pub closed spec fn roots_distinct_degrees(&self) -> bool {
        forall|r1: usize, r2: usize|
            #[trigger] self.roots@.contains(r1) && #[trigger] self.roots@.contains(r2) && r1 != r2
                ==> self.links@[r1 as int].degree != self.links@[r2 as int].degree
    }

    /// Every element that has a parent has a key no smaller than its
    /// parent's.
    pub closed spec fn heap_ordered(&self) -> bool
        where T: Ord
    {
        forall|i: int|
            #[trigger] occupied(self.keys@, i) && self.links@[i].parent is Some ==> key_le(
                key_of(self.keys@, self.links@[i].parent->Some_0 as int),
                key_of(self.keys@, i),
            )
    }

    /// A well-formed heap is heap-ordered.
    pub proof fn lemma_wf_heap_ordered(&self)
        where T: Ord
        requires
            self.wf(),
        ensures
            self.heap_ordered(),
    {
        assert forall|i: int| #[trigger] occupied(self.keys@, i) && self.links@[i].parent is Some implies key_le(
            key_of(self.keys@, self.links@[i].parent->Some_0 as int),
            key_of(self.keys@, i),
        ) by {
            lemma_unfold(self.keys@, self.links@, self.kids@, self.rank@, self.height@, i);
        }
    }
}

impl<T: Ord> FibonacciHeap<T> {
    /// Node `j` stays well placed when nothing it depends on changes: its
    /// key, rank and child list, its children's links, and its parent's key,
    /// rank and membership.
    proof fn lemma_node_frame(old: &Self, new: &Self, j: int)
        requires
            occupied(old.keys@, j),
            node_ok(old.keys@, old.links@, old.kids@, old.rank@, old.height@, j),
            occupied(new.keys@, j),
            new.links@.len() >= old.links@.len(),
            key_of(new.keys@, j) == key_of(old.keys@, j),
            new.rank@[j] == old.rank@[j],
            new.height@ >= old.height@,
            new.kids@[j] == old.kids@[j],
            new.links@[j].parent == old.links@[j].parent,
            new.links@[j].child == old.links@[j].child,
            new.links@[j].degree == old.links@[j].degree,
            forall|c: usize|
                #[trigger] old.kids@[j].contains(c) ==> occupied(new.keys@, c as int) && new.links@[c as int].left
                    == old.links@[c as int].left && new.links@[c as int].right == old.links@[c as int].right
                    && new.links@[c as int].parent == old.links@[c as int].parent,
            old.links@[j].parent matches Some(p) ==> {
                &&& occupied(new.keys@, p as int)
                &&& key_of(new.keys@, p as int) == key_of(old.keys@, p as int)
                &&& new.rank@[p as int] >= old.rank@[p as int]
                &&& new.kids@[p as int].contains(j as usize)
            },
        ensures
            node_ok(new.keys@, new.links@, new.kids@, new.rank@, new.height@, j),
    {
        lemma_unfold(old.keys@, old.links@, old.kids@, old.rank@, old.height@, j);
        let ks = old.kids@[j];
        assert forall|c: usize| #[trigger] ks.contains(c) implies new.links@[c as int].left
            == old.links@[c as int].left && new.links@[c as int].right == old.links@[c as int].right by {}
        lemma_ring_frame(old.links@, new.links@, ks);
        lemma_fold(new.keys@, new.links@, new.kids@, new.rank@, new.height@, j);
    }
}

impl<T: Ord> FibonacciHeap<T> {
    /// A change that only touches the sibling pointers of roots, and may add
    /// fresh nodes at the end of the arena, leaves every old node well placed.
    proof fn lemma_roots_only_frame(old: &Self, new: &Self)
        requires
            old.wf_forest(),
            new.links@.len() >= old.links@.len(),
            new.height@ >= old.height@,
            forall|j: int| #[trigger] occupied(old.keys@, j) ==> occupied(new.keys@, j) && key_of(new.keys@, j) == key_of(old.keys@, j),
            forall|j: int|
                0 <= j < old.links@.len() ==> #[trigger] new.kids@[j] == old.kids@[j]
                    && new.rank@[j] == old.rank@[j] && same_but_siblings(new.links@[j], old.links@[j]),
            forall|j: int|
                occupied(old.keys@, j) && old.links@[j].parent is Some ==> #[trigger] new.links@[j]
                    == old.links@[j],
        ensures
            forall|j: int| occupied(old.keys@, j) ==> #[trigger] node_ok(new.keys@, new.links@, new.kids@, new.rank@, new.height@, j),
    {
        assert forall|j: int| occupied(old.keys@, j) implies #[trigger] node_ok(new.keys@, new.links@, new.kids@, new.rank@, new.height@, j) by {
            assert(node_ok(old.keys@, old.links@, old.kids@, old.rank@, old.height@, j));
            lemma_unfold(old.keys@, old.links@, old.kids@, old.rank@, old.height@, j);
            assert forall|c: usize| #[trigger] old.kids@[j].contains(c) implies occupied(new.keys@, c as int)
                && new.links@[c as int] == old.links@[c as int] by {
                assert(occupied(old.keys@, c as int));
                assert(old.links@[c as int].parent is Some);
            }
            assert(new.kids@[j] == old.kids@[j]);
            if let Some(p) = old.links@[j].parent {
                assert(new.kids@[p as int] == old.kids@[p as int]);
            }
            Self::lemma_node_frame(old, new, j);
        }
    }
}

impl<T: Ord> FibonacciHeap<T> {
    /// Constructs a new, empty Fibonacci heap, with a random 64-bit identity
    /// that it stamps on its handles. Nothing is promised of the identity:
    /// two heaps tell their handles apart only when their identities differ.
    pub fn new() -> (r: FibonacciHeap<T>)
        ensures
            r.wf(),
            r@ == Seq::<Option<T>>::empty(),
    {
        let state = fresh_random_state();
        let id = hash_under(&state, 0);
        let r = FibonacciHeap {
            keys: Vec::new(),
            links: Vec::new(),
            n: 0,
            min: None,
            id,
            roots: Ghost(Seq::empty()),
            kids: Ghost(Seq::empty()),
            rank: Ghost(Seq::empty()),
            height: Ghost(1),
        };
        proof {
            assert(r.keys@ =~= Seq::<Option<T>>::empty());
            lemma_ring_empty(r.links@);
        }
        r
    }

    /// Whether the heap holds no element.
    pub fn is_empty(&self) -> (r: bool)
        requires
            self.wf(),
        ensures
            r == (live_keys(self@).len() == 0),
    {
        self.n == 0
    }

    /// The number of elements in the heap.
    pub fn len(&self) -> (r: usize)
        requires
            self.wf(),
        ensures
            r == live_keys(self@).len(),
    {
        self.n
    }
}


impl<T: Ord> FibonacciHeap<T> {
    /// The key of live node `i`.
    fn key_at(&self, i: usize) -> (r: &T)
        requires
            occupied(self.keys@, i as int),
        ensures
            *r == key_of(self.keys@, i as int),
    {
        self.keys[i].as_ref().unwrap()
    }

    /// Whether live node `a` has a strictly smaller key than live node `b`.
    fn less_at(&self, a: usize, b: usize) -> (r: bool)
        requires
            obeys_cmp::<T>(),
            occupied(self.keys@, a as int),
            occupied(self.keys@, b as int),
        ensures
            r == key_lt(key_of(self.keys@, a as int), key_of(self.keys@, b as int)),
    {
        key_less(self.key_at(a), self.key_at(b))
    }

    /// Inserts an element into the heap and returns a handle on it.
    #[verifier::rlimit(100)]
    #[verifier::spinoff_prover]
    pub fn push(&mut self, item: T) -> (r: NodePtr)
        requires
            old(self).wf(),
            obeys_cmp::<T>(),
            old(self)@.len() < usize::MAX,
        ensures
            final(self).wf(),
            final(self)@ == old(self)@.push(Some(item)),
            final(self).id() == old(self).id(),
            r.heap_id() == final(self).id(),
            r.index() == old(self)@.len(),
            final(self).min_key() == match old(self).min_key() {
                None => Some(item),
                Some(k) => if key_lt(item, k) {
                    Some(item)
                } else {
                    Some(k)
                },
            },
    {
        proof {
            lemma_live_keys_len_bound(self.keys@);
            lemma_live_keys_push(self.keys@, Some(item));
        }
        let ghost old_self = *self;
        let i = self.keys.len();
        self.keys.push(Some(item));
        self.links.push(Link { left: i, right: i, parent: None, child: None, degree: 0, mark: false });
        self.kids = Ghost(self.kids@.push(Seq::empty()));
        self.rank = Ghost(self.rank@.push(0));
        self.n = self.n + 1;
        match self.min {
            None => {
                self.roots = Ghost(Seq::empty().push(i));
                self.min = Some(i);
                proof {
                    Self::lemma_push_first(&old_self, self, i);
                }
            },
            Some(m) => {
                let ghost rot = lemma_rotate_to_end(old_self.links@, old_self.roots@, m);
                proof {
                    lemma_ring_frame(old_self.links@, self.links@, rot);
                }
                let ghost before = self.links@;
                ring_insert(&mut self.links, i, m, Ghost(rot));
                self.roots = Ghost(rot.push(i));
                let less = self.less_at(i, m);
                if less {
                    self.min = Some(i);
                }
                proof {
                    Self::lemma_push_more(&old_self, self, before, i, m, rot, less);
                }
            },
        }
        NodePtr { heap: self.id, slot: i }
    }
}


impl<T: Ord> FibonacciHeap<T> {
    proof fn lemma_push_first(old: &Self, new: &Self, i: usize)
        requires
            obeys_cmp::<T>(),
            old.wf(),
            old.min is None,
            i == old.keys@.len(),
            i < usize::MAX,
            new.keys@ == old.keys@.push(new.keys@[i as int]),
            new.keys@[i as int] is Some,
            new.links@ == old.links@.push(
                Link { left: i, right: i, parent: None, child: None, degree: 0, mark: false },
            ),
            new.kids@ == old.kids@.push(Seq::empty()),
            new.rank@ == old.rank@.push(0),
            new.height == old.height,
            new.roots@ == Seq::<usize>::empty().push(i),
            new.min == Some(i),
            new.n == live_keys(new.keys@).len(),
        ensures
            new.wf(),
    {
        lemma_key_order::<T>();
        lemma_ring_singleton(new.links@, i);
        assert(new.roots@[0] == i);
        assert forall|j: int| #[trigger] occupied(new.keys@, j) implies j == i by {
            assert(!occupied(old.keys@, j));
        }
        assert(new.kids@[i as int] =~= Seq::<usize>::empty());
        lemma_ring_empty(new.links@);
        lemma_fold(new.keys@, new.links@, new.kids@, new.rank@, new.height@, i as int);
        assert(new.wf_forest());
        assert(new.roots@.contains(i));
        assert(new.wf_roots());
        assert(new.wf_min());
    }

    proof fn lemma_push_more(
        old: &Self,
        new: &Self,
        before: Seq<Link>,
        i: usize,
        m: usize,
        rot: Seq<usize>,
        less: bool,
    )
        requires
            obeys_cmp::<T>(),
            old.wf(),
            old.min == Some(m),
            i == old.keys@.len(),
            i < usize::MAX,
            new.keys@ == old.keys@.push(new.keys@[i as int]),
            new.keys@[i as int] is Some,
            before == old.links@.push(
                Link { left: i, right: i, parent: None, child: None, degree: 0, mark: false },
            ),
            ring(new.links@, rot.push(i)),
            new.links@.len() == before.len(),
            forall|j: int|
                0 <= j < before.len() && j != i && j != m && j != rot[0] ==> new.links@[j]
                    == before[j],
            forall|j: int|
                0 <= j < before.len() ==> same_but_siblings(#[trigger] new.links@[j], before[j]),
            ring(old.links@, rot),
            rot.len() > 0,
            rot.last() == m,
            forall|y: usize| #[trigger] rot.contains(y) <==> old.roots@.contains(y),
            new.kids@ == old.kids@.push(Seq::empty()),
            new.rank@ == old.rank@.push(0),
            new.height == old.height,
            new.roots@ == rot.push(i),
            less == key_lt(key_of(new.keys@, i as int), key_of(new.keys@, m as int)),
            new.min == if less { Some(i) } else { Some(m) },
            new.n == live_keys(new.keys@).len(),
        ensures
            new.wf(),
    {
        lemma_key_order::<T>();
        assert(forall|j: int| #[trigger] occupied(old.keys@, j) ==> occupied(new.keys@, j) && key_of(new.keys@, j) == key_of(old.keys@, j));
        assert(forall|j: int| #[trigger] occupied(new.keys@, j) ==> occupied(old.keys@, j) || j == i);
        assert(rot.contains(rot[0]));
        assert forall|j: int| 0 <= j < old.links@.len() implies #[trigger] new.kids@[j] == old.kids@[j]
            && new.rank@[j] == old.rank@[j] && same_but_siblings(new.links@[j], old.links@[j]) by {
            assert(same_but_siblings(new.links@[j], before[j]));
        }
        assert forall|j: int| occupied(old.keys@, j) && old.links@[j].parent is Some implies #[trigger] new.links@[j]
            == old.links@[j] by {
            assert(!old.roots@.contains(j as usize));
            assert(!rot.contains(j as usize));
        }
        Self::lemma_roots_only_frame(old, new);
        assert(new.kids@[i as int] =~= Seq::<usize>::empty());
        assert(same_but_siblings(new.links@[i as int], before[i as int]));
        lemma_ring_empty(new.links@);
        lemma_fold(new.keys@, new.links@, new.kids@, new.rank@, new.height@, i as int);
        assert(new.wf_forest());
        let nr = new.roots@;
        assert(nr[nr.len() - 1] == i);
        assert forall|r: usize| #[trigger] nr.contains(r) implies occupied(new.keys@, r as int)
            && new.links@[r as int].parent is None && !new.links@[r as int].mark by {
            if r != i {
                let q = choose|q: int| 0 <= q < nr.len() && nr[q] == r;
                assert(rot[q] == r);
                assert(rot.contains(r));
                assert(same_but_siblings(new.links@[r as int], before[r as int]));
            }
        }
        assert forall|j: int| #[trigger] occupied(new.keys@, j) && new.links@[j].parent is None implies nr.contains(
            j as usize,
        ) by {
            if j != i {
                assert(same_but_siblings(new.links@[j], before[j]));
                assert(old.roots@.contains(j as usize));
                assert(rot.contains(j as usize));
                let q = choose|q: int| 0 <= q < rot.len() && rot[q] == j as usize;
                assert(nr[q] == j as usize);
            }
        }
        assert(new.wf_roots());
        assert(nr.contains(m)) by {
            assert(nr[rot.len() - 1] == m);
        }
        let mm = new.min->Some_0;
        assert forall|j: int| #[trigger] occupied(new.keys@, j) implies key_le(key_of(new.keys@, mm as int), key_of(new.keys@, j)) by {
            if j != i {
                assert(occupied(old.keys@, j));
                assert(key_le(key_of(old.keys@, m as int), key_of(old.keys@, j)));
            }
        }
        assert(new.wf_min());
    }
}


impl<T: Ord> FibonacciHeap<T> {
    /// Every live node sits below a parentless node whose key is no larger.
    proof fn lemma_top_below(&self, j: int) -> (r: int)
        requires
            obeys_cmp::<T>(),
            self.wf_forest(),
            occupied(self.keys@, j),
        ensures
            occupied(self.keys@, r),
            self.links@[r].parent is None,
            key_le(key_of(self.keys@, r), key_of(self.keys@, j)),
        decreases self.height@ - self.rank@[j],
    {
        lemma_key_order::<T>();
        lemma_unfold(self.keys@, self.links@, self.kids@, self.rank@, self.height@, j);
        match self.links@[j].parent {
            None => j,
            Some(p) => {
                assert(node_ok(self.keys@, self.links@, self.kids@, self.rank@, self.height@, p as int));
                lemma_unfold(self.keys@, self.links@, self.kids@, self.rank@, self.height@, p as int);
                let r = self.lemma_top_below(p as int);
                r
            },
        }
    }

    /// Makes the parentless node `y` a child of the parentless node `x`,
    /// whose key is no larger.
    #[verifier::rlimit(100)]
    #[verifier::spinoff_prover]
    fn link(&mut self, x: usize, y: usize)
        requires
            old(self).wf_forest(),
            occupied(old(self).keys@, x as int),
            occupied(old(self).keys@, y as int),
            x != y,
            old(self).links@[x as int].parent is None,
            old(self).links@[y as int].parent is None,
            key_le(key_of(old(self).keys@, x as int), key_of(old(self).keys@, y as int)),
        ensures
            final(self).wf_forest(),
            final(self).keys@ == old(self).keys@,
            final(self).n == old(self).n,
            final(self).min == old(self).min,
            final(self).id == old(self).id,
            final(self).roots == old(self).roots,
            final(self).links@[y as int].parent == Some(x),
            final(self).links@[x as int].degree == old(self).links@[x as int].degree + 1,
            forall|j: int|
                0 <= j < old(self).links@.len() && j != y ==> (#[trigger] final(self).links@[j]).parent
                    == old(self).links@[j].parent && final(self).links@[j].mark == old(self).links@[j].mark,
            forall|j: int|
                0 <= j < old(self).links@.len() && j != x ==> (#[trigger] final(self).links@[j]).degree
                    == old(self).links@[j].degree,
            !final(self).links@[y as int].mark,
            final(self).links@.len() == old(self).links@.len(),
    {
        reveal(ring);
        let ghost old_self = *self;
        proof {
            lemma_unfold(self.keys@, self.links@, self.kids@, self.rank@, self.height@, x as int);
            lemma_unfold(self.keys@, self.links@, self.kids@, self.rank@, self.height@, y as int);
            let ks = self.kids@[x as int];
            assert(!ks.contains(y));
            let ky = ks.push(y);
            assert(ky.no_duplicates()) by {
                assert forall|a: int, b: int| 0 <= a < ky.len() && 0 <= b < ky.len() && a != b implies ky[a] != ky[b] by {
                    if a < ks.len() && b < ks.len() {
                        assert(ky[a] == ks[a] && ky[b] == ks[b]);
                    } else if a < ks.len() {
                        assert(ks.contains(ky[a]));
                    } else if b < ks.len() {
                        assert(ks.contains(ky[b]));
                    }
                }
            }
            assert forall|q: int| 0 <= q < ky.len() implies (#[trigger] ky[q] as int) < self.links@.len() by {
                if q < ks.len() {
                    assert(ky[q] == ks[q]);
                }
            }
            lemma_distinct_below(ky, self.links@.len() as int);
        }
        let d = self.links[x].degree;
        match self.links[x].child {
            None => {
                let mut ly = self.links[y];
                ly.left = y;
                ly.right = y;
                ly.parent = Some(x);
                ly.mark = false;
                self.links.set(y, ly);
                proof {
                    lemma_ring_singleton(self.links@, y);
                }
                let ghost mid = self.links@;
                let mut lx = self.links[x];
                lx.child = Some(y);
                lx.degree = d + 1;
                self.links.set(x, lx);
                self.kids = Ghost(self.kids@.update(x as int, Seq::empty().push(y)));
                proof {
                    assert(Seq::<usize>::empty().push(y) =~= seq![y]);
                    lemma_ring_frame(mid, self.links@, seq![y]);
                    assert(old_self.kids@[x as int].len() == 0);
                    assert(old_self.kids@[x as int] =~= Seq::<usize>::empty());
                }
            },
            Some(c) => {
                let ghost rot = lemma_rotate_to_end(self.links@, self.kids@[x as int], c);
                ring_insert(&mut self.links, y, c, Ghost(rot));
                let ghost mid = self.links@;
                let mut ly = self.links[y];
                ly.parent = Some(x);
                ly.mark = false;
                self.links.set(y, ly);
                let mut lx = self.links[x];
                lx.degree = d + 1;
                self.links.set(x, lx);
                self.kids = Ghost(self.kids@.update(x as int, rot.push(y)));
                proof {
                    assert(!rot.contains(x));
                    lemma_ring_frame(mid, self.links@, rot.push(y));
                    assert forall|v: usize| #[trigger] rot.push(y).contains(v) <==> (old_self.kids@[x as int].contains(v) || v == y) by {
                        if rot.push(y).contains(v) && v != y {
                            let q = choose|q: int| 0 <= q < rot.push(y).len() && rot.push(y)[q] == v;
                            if q < rot.len() {
                                assert(rot.contains(v));
                            }
                        }
                        if rot.contains(v) {
                            let q = choose|q: int| 0 <= q < rot.len() && rot[q] == v;
                            assert(rot.push(y)[q] == v);
                        }
                        assert(rot.push(y)[rot.len() as int] == y);
                    }
                    assert(rot.contains(rot[0]));
                    assert(rot.contains(c));
                }
            },
        }
        let ghost rx = if self.rank@[x as int] > self.rank@[y as int] {
            self.rank@[x as int]
        } else {
            self.rank@[y as int] + 1
        };
        self.rank = Ghost(self.rank@.update(x as int, rx));
        self.height = Ghost(if self.height@ > rx { self.height@ } else { rx + 1 });
        proof {
            Self::lemma_link_ok(&old_self, self, x, y);
        }
    }
}


impl<T: Ord> FibonacciHeap<T> {
    proof fn lemma_link_ok(old: &Self, new: &Self, x: usize, y: usize)
        requires
            old.wf_forest(),
            occupied(old.keys@, x as int),
            occupied(old.keys@, y as int),
            x != y,
            old.links@[x as int].parent is None,
            old.links@[y as int].parent is None,
            key_le(key_of(old.keys@, x as int), key_of(old.keys@, y as int)),
            new.keys@ == old.keys@,
            new.links@.len() == old.links@.len(),
            new.kids@.len() == old.kids@.len(),
            new.rank@.len() == old.rank@.len(),
            ring(new.links@, new.kids@[x as int]),
            new.kids@[x as int].len() == old.kids@[x as int].len() + 1,
            forall|v: usize|
                #[trigger] new.kids@[x as int].contains(v) <==> (old.kids@[x as int].contains(v) || v
                    == y),
            forall|j: int| 0 <= j < old.kids@.len() && j != x ==> #[trigger] new.kids@[j] == old.kids@[j],
            new.links@[y as int].parent == Some(x),
            new.links@[y as int].child == old.links@[y as int].child,
            new.links@[y as int].degree == old.links@[y as int].degree,
            new.links@[x as int].parent is None,
            new.links@[x as int].degree == old.links@[x as int].degree + 1,
            new.links@[x as int].child matches Some(c) && new.kids@[x as int].contains(c),
            forall|j: int|
                0 <= j < old.links@.len() && j != x && j != y ==> same_but_siblings(
                    #[trigger] new.links@[j],
                    old.links@[j],
                ),
            forall|j: int|
                0 <= j < old.links@.len() && j != x && j != y && !old.kids@[x as int].contains(
                    j as usize,
                ) ==> #[trigger] new.links@[j] == old.links@[j],
            forall|j: int| 0 <= j < old.rank@.len() && j != x ==> #[trigger] new.rank@[j] == old.rank@[j],
            new.rank@[x as int] >= old.rank@[x as int],
            new.rank@[x as int] > old.rank@[y as int],
            new.height@ > new.rank@[x as int],
            new.height@ >= old.height@,
        ensures
            new.wf_forest(),
    {
        lemma_unfold(old.keys@, old.links@, old.kids@, old.rank@, old.height@, x as int);
        lemma_unfold(old.keys@, old.links@, old.kids@, old.rank@, old.height@, y as int);
        assert(forall|j: int| #[trigger] occupied(new.keys@, j) == occupied(old.keys@, j));
        assert forall|j: int| #[trigger] occupied(new.keys@, j) implies node_ok(new.keys@, new.links@, new.kids@, new.rank@, new.height@, j) by {
            assert(node_ok(old.keys@, old.links@, old.kids@, old.rank@, old.height@, j));
            lemma_unfold(old.keys@, old.links@, old.kids@, old.rank@, old.height@, j);
            if j == x as int {
                assert forall|c: usize| #[trigger] new.kids@[j].contains(c) implies occupied(new.keys@, c as int)
                    && new.links@[c as int].parent == Some(x) by {
                    if c != y {
                        assert(old.kids@[j].contains(c));
                    }
                }
                lemma_fold(new.keys@, new.links@, new.kids@, new.rank@, new.height@, j);
            } else if j == y as int {
                assert forall|c: usize| #[trigger] old.kids@[j].contains(c) implies new.links@[c as int]
                    == old.links@[c as int] by {
                    assert(occupied(old.keys@, c as int));
                    assert(!old.kids@[x as int].contains(c));
                }
                lemma_ring_frame(old.links@, new.links@, old.kids@[j]);
                assert forall|c: usize| #[trigger] new.kids@[j].contains(c) implies occupied(new.keys@, c as int)
                    && new.links@[c as int].parent == Some(y) by {
                    assert(!old.kids@[x as int].contains(c));
                }
                lemma_fold(new.keys@, new.links@, new.kids@, new.rank@, new.height@, j);
            } else {
                assert forall|c: usize| #[trigger] old.kids@[j].contains(c) implies occupied(new.keys@, c as int)
                    && new.links@[c as int] == old.links@[c as int] by {
                    assert(occupied(old.keys@, c as int));
                    assert(c != y && c != x);
                    assert(!old.kids@[x as int].contains(c));
                }
                if let Some(p) = old.links@[j].parent {
                    assert(new.kids@[p as int].contains(j as usize));
                }
                Self::lemma_node_frame(old, new, j);
            }
        }
    }
}


impl<T: Ord> FibonacciHeap<T> {
    #[verifier::opaque]
    /// While roots of equal degree are merged, every parentless node is in
    /// exactly one place: among the tops still to visit (from `idx` on), in
    /// a degree slot, or carried.
    closed spec fn gathering(
        &self,
        tops: Seq<usize>,
        idx: int,
        slots: Seq<Option<usize>>,
        carry: Option<usize>,
    ) -> bool {
        &&& 0 <= idx <= tops.len()
        &&& tops.no_duplicates()
        &&& forall|k: int| idx <= k < tops.len() ==> is_top(self.keys@, self.links@, #[trigger] tops[k])
        &&& forall|d: int|
            0 <= d < slots.len() && #[trigger] slots[d] is Some ==> is_top(self.keys@, self.links@, slots[d]->Some_0)
                && self.links@[slots[d]->Some_0 as int].degree == d
        &&& forall|d1: int, d2: int|
            0 <= d1 < slots.len() && 0 <= d2 < slots.len() && d1 != d2 && #[trigger] slots[d1] is Some
                && #[trigger] slots[d2] is Some ==> slots[d1] != slots[d2]
        &&& forall|d: int, k: int|
            0 <= d < slots.len() && idx <= k < tops.len() ==> #[trigger] slots[d] != Some(
                #[trigger] tops[k],
            )
        &&& (carry matches Some(x) ==> {
            &&& is_top(self.keys@, self.links@, x)
            &&& !slots.contains(Some(x))
            &&& forall|k: int| idx <= k < tops.len() ==> #[trigger] tops[k] != x
        })
        &&& forall|j: int|
            #[trigger] occupied(self.keys@, j) && self.links@[j].parent is None ==> (exists|k: int|
                idx <= k < tops.len() && #[trigger] tops[k] == j as usize) || slots.contains(
                Some(j as usize),
            ) || carry == Some(j as usize)
    }

    /// Merges the trees whose roots `tops` lists until no two roots share a
    /// degree, then threads the remaining roots into a fresh root list and
    /// points `min` at the smallest.
    ///
    /// The degree slots grow as needed instead of being sized to
    /// `log_phi(n) + 1`: the well-formedness invariant does not carry the
    /// Fibonacci bound on subtree sizes (a node of degree `d` roots at least
    /// `F(d + 2)` nodes), which would need subtree sizes kept for every
    /// ancestor through each cut, so nothing here bounds a degree by `log n`.
    fn consolidate(&mut self, tops: Vec<usize>)
        requires
            obeys_cmp::<T>(),
            old(self).wf_forest(),
            old(self).n == live_keys(old(self).keys@).len(),
            old(self).gathering(tops@, 0, Seq::empty(), None),
        ensures
            final(self).wf(),
            final(self).roots_distinct_degrees(),
            final(self).keys@ == old(self).keys@,
            final(self).id == old(self).id,
            final(self).links@.len() == old(self).links@.len(),
            forall|j: int|
                0 <= j < old(self).links@.len() && old(self).links@[j].parent is None && (#[trigger] final(self).links@[j]).parent
                    is Some ==> !final(self).links@[j].mark,
    {
        let mut slots: Vec<Option<usize>> = Vec::new();
        let mut idx: usize = 0;
        while idx < tops.len()
            invariant
                idx <= tops.len(),
                obeys_cmp::<T>(),
                self.wf_forest(),
                self.n == live_keys(self.keys@).len(),
                self.keys@ == old(self).keys@,
                self.id == old(self).id,
                self.links@.len() == old(self).links@.len(),
                forall|j: int|
                    0 <= j < old(self).links@.len() && old(self).links@[j].parent is None && (#[trigger] self.links@[j]).parent
                        is Some ==> !self.links@[j].mark,
                self.gathering(tops@, idx as int, slots@, None),
            decreases tops.len() - idx,
        {
            let mut x = tops[idx];
            proof {
                Self::lemma_take_top(self, tops@, idx as int, slots@);
                Self::lemma_gathering_facts(self, tops@, idx as int + 1, slots@, Some(x));
            }
            idx = idx + 1;
            let mut d = self.links[x].degree;
            while d < slots.len() && slots[d].is_some()
                invariant
                    obeys_cmp::<T>(),
                    self.wf_forest(),
                    self.n == live_keys(self.keys@).len(),
                    self.keys@ == old(self).keys@,
                    self.id == old(self).id,
                    self.links@.len() == old(self).links@.len(),
                    forall|j: int|
                        0 <= j < old(self).links@.len() && old(self).links@[j].parent is None && (#[trigger] self.links@[j]).parent
                            is Some ==> !self.links@[j].mark,
                    self.gathering(tops@, idx as int, slots@, Some(x)),
                    self.links@[x as int].degree == d,
                decreases slots.len() - d,
            {
                proof {
                    Self::lemma_gathering_facts(self, tops@, idx as int, slots@, Some(x));
                    assert(slots@[d as int] is Some);
                }
                let mut y = slots[d].unwrap();
                let ghost carry0 = x;
                if self.less_at(y, x) {
                    let t = x;
                    x = y;
                    y = t;
                }
                let ghost before = *self;
                let ghost old_slots = slots@;
                proof {
                    lemma_key_order::<T>();
                    assert(old_slots[d as int] is Some);
                }
                self.link(x, y);
                slots.set(d, None);
                proof {
                    assert forall|j: int|
                        0 <= j < old(self).links@.len() && old(self).links@[j].parent is None && (#[trigger] self.links@[j]).parent
                            is Some implies !self.links@[j].mark by {
                        if j != y as int {
                            assert(self.links@[j].parent == before.links@[j].parent);
                        }
                    }
                    Self::lemma_after_link(&before, self, tops@, idx as int, old_slots, d as int, carry0, x, y);
                }
                d = d + 1;
            }
            while d >= slots.len()
                invariant
                    self.gathering(tops@, idx as int, slots@, Some(x)),
                    self.links@[x as int].degree == d,
                    (d as int) < slots@.len() ==> slots@[d as int] is None,
                decreases d + 1 - slots.len(),
            {
                let ghost old_slots = slots@;
                slots.push(None);
                proof {
                    Self::lemma_slots_grow(self, tops@, idx as int, old_slots, x);
                }
            }
            let ghost old_slots = slots@;
            slots.set(d, Some(x));
            proof {
                Self::lemma_slot_fill(self, tops@, idx as int, old_slots, d as int, x);
            }
        }
        self.rebuild_roots(&slots, Ghost(tops@));
    }
}


impl<T: Ord> FibonacciHeap<T> {
    /// What the merging phase knows of the node it carries and of a filled
    /// slot.
    proof fn lemma_gathering_facts(
        h: &Self,
        tops: Seq<usize>,
        idx: int,
        slots: Seq<Option<usize>>,
        carry: Option<usize>,
    )
        requires
            h.gathering(tops, idx, slots, carry),
        ensures
            carry matches Some(x) ==> is_top(h.keys@, h.links@, x),
            forall|d: int|
                0 <= d < slots.len() && #[trigger] slots[d] is Some ==> is_top(h.keys@, h.links@, slots[d]->Some_0)
                    && carry != slots[d] && h.links@[slots[d]->Some_0 as int].degree == d,
    {
        reveal(FibonacciHeap::gathering);
        assert forall|d: int| 0 <= d < slots.len() && #[trigger] slots[d] is Some implies carry != slots[d] by {
            if carry == slots[d] {
                assert(slots.contains(slots[d]));
            }
        }
    }

    /// What the rebuilding phase knows of the list built so far.
    proof fn lemma_rebuilding_facts(h: &Self, slots: Seq<Option<usize>>, k: int, last: usize)
        where T: Ord
        requires
            h.rebuilding(slots, k, last),
        ensures
            ring(h.links@, h.roots@),
            h.roots@.len() > 0 ==> h.roots@.last() == last,
            h.min is None <==> h.roots@.len() == 0,
            h.min matches Some(mm) ==> is_top(h.keys@, h.links@, mm),
            forall|x: usize| #[trigger] h.roots@.contains(x) ==> is_top(h.keys@, h.links@, x),
    {
        reveal(FibonacciHeap::rebuilding);
    }

    proof fn lemma_take_top(h: &Self, tops: Seq<usize>, idx: int, slots: Seq<Option<usize>>)
        requires
            h.gathering(tops, idx, slots, None),
            idx < tops.len(),
        ensures
            h.gathering(tops, idx + 1, slots, Some(tops[idx])),
    {
        reveal(FibonacciHeap::gathering);
        let x = tops[idx];
        assert(is_top(h.keys@, h.links@, x));
        assert(!slots.contains(Some(x))) by {
            if slots.contains(Some(x)) {
                let d = choose|d: int| 0 <= d < slots.len() && slots[d] == Some(x);
                assert(slots[d] != Some(tops[idx]));
            }
        }
        assert forall|j: int|
            #[trigger] occupied(h.keys@, j) && h.links@[j].parent is None implies (exists|k: int|
                idx + 1 <= k < tops.len() && #[trigger] tops[k] == j as usize) || slots.contains(
                Some(j as usize),
            ) || Some(x) == Some(j as usize) by {
            if !slots.contains(Some(j as usize)) && x != j as usize {
                let k = choose|k: int| idx <= k < tops.len() && #[trigger] tops[k] == j as usize;
                assert(idx + 1 <= k);
            }
        }
    }

    proof fn lemma_after_link(
        before: &Self,
        after: &Self,
        tops: Seq<usize>,
        idx: int,
        old_slots: Seq<Option<usize>>,
        d: int,
        carry: usize,
        x: usize,
        y: usize,
    )
        requires
            before.gathering(tops, idx, old_slots, Some(carry)),
            0 <= d < old_slots.len(),
            before.links@.len() == before.keys@.len(),
            before.links@.len() <= usize::MAX,
            (old_slots[d] == Some(y) && carry == x) || (old_slots[d] == Some(x) && carry == y),
            after.keys@ == before.keys@,
            after.links@.len() == before.links@.len(),
            after.links@[y as int].parent == Some(x),
            forall|j: int|
                0 <= j < before.links@.len() && j != y ==> (#[trigger] after.links@[j]).parent
                    == before.links@[j].parent && after.links@[j].mark == before.links@[j].mark,
            forall|j: int|
                0 <= j < before.links@.len() && j != x ==> (#[trigger] after.links@[j]).degree
                    == before.links@[j].degree,
        ensures
            after.gathering(tops, idx, old_slots.update(d, None), Some(x)),
    {
        reveal(FibonacciHeap::gathering);
        let ns = old_slots.update(d, None);
        assert(is_top(before.keys@, before.links@, x) && is_top(before.keys@, before.links@, y));
        assert(x != y) by {
            assert(old_slots.contains(old_slots[d]));
        }
        assert forall|t: usize| #[trigger] is_top(before.keys@, before.links@, t) && t != y implies is_top(after.keys@, after.links@, t) by {}
        assert forall|k: int| idx <= k < tops.len() implies is_top(after.keys@, after.links@, #[trigger] tops[k]) by {
            assert(is_top(before.keys@, before.links@, tops[k]));
            assert(old_slots[d] != Some(tops[k]));
        }
        assert forall|e: int| 0 <= e < ns.len() && #[trigger] ns[e] is Some implies is_top(after.keys@, after.links@, ns[e]->Some_0)
            && after.links@[ns[e]->Some_0 as int].degree == e by {
            assert(old_slots[e] is Some);
            assert(is_top(before.keys@, before.links@, old_slots[e]->Some_0));
            assert(old_slots[e] != old_slots[d]);
            assert(Some(x) != old_slots[e]) by {
                if carry == x {
                    assert(old_slots.contains(old_slots[e]));
                }
            }
        }
        assert forall|d1: int, d2: int|
            0 <= d1 < ns.len() && 0 <= d2 < ns.len() && d1 != d2 && #[trigger] ns[d1] is Some
                && #[trigger] ns[d2] is Some implies ns[d1] != ns[d2] by {
            assert(old_slots[d1] is Some && old_slots[d2] is Some);
        }
        assert(!ns.contains(Some(x))) by {
            if ns.contains(Some(x)) {
                let e = choose|e: int| 0 <= e < ns.len() && ns[e] == Some(x);
                assert(old_slots[e] == Some(x));
                if carry == x {
                    assert(old_slots.contains(Some(x)));
                } else {
                    assert(old_slots[e] is Some && old_slots[d] is Some);
                }
            }
        }
        assert forall|k: int| idx <= k < tops.len() implies #[trigger] tops[k] != x by {
            if carry != x {
                assert(old_slots[d] != Some(tops[k]));
            }
        }
        assert forall|j: int|
            #[trigger] occupied(after.keys@, j) && after.links@[j].parent is None implies (exists|k: int|
                idx <= k < tops.len() && #[trigger] tops[k] == j as usize) || ns.contains(
                Some(j as usize),
            ) || Some(x) == Some(j as usize) by {
            assert(j != y as int);
            assert(occupied(before.keys@, j) && before.links@[j].parent is None);
            if old_slots.contains(Some(j as usize)) && j != x as int {
                let e = choose|e: int| 0 <= e < old_slots.len() && old_slots[e] == Some(j as usize);
                assert(e != d);
                assert(ns[e] == Some(j as usize));
            }
        }
    }

    proof fn lemma_slots_grow(h: &Self, tops: Seq<usize>, idx: int, slots: Seq<Option<usize>>, x: usize)
        requires
            h.gathering(tops, idx, slots, Some(x)),
        ensures
            h.gathering(tops, idx, slots.push(None), Some(x)),
    {
        reveal(FibonacciHeap::gathering);
        let ns = slots.push(None);
        assert forall|e: int| 0 <= e < ns.len() && #[trigger] ns[e] is Some implies is_top(h.keys@, h.links@, ns[e]->Some_0)
            && h.links@[ns[e]->Some_0 as int].degree == e by {
            assert(ns[e] == slots[e]);
        }
        assert forall|d1: int, d2: int|
            0 <= d1 < ns.len() && 0 <= d2 < ns.len() && d1 != d2 && #[trigger] ns[d1] is Some
                && #[trigger] ns[d2] is Some implies ns[d1] != ns[d2] by {
            assert(ns[d1] == slots[d1] && ns[d2] == slots[d2]);
        }
        assert forall|e: int, k: int| 0 <= e < ns.len() && idx <= k < tops.len() implies #[trigger] ns[e] != Some(
            #[trigger] tops[k],
        ) by {
            if e < slots.len() {
                assert(ns[e] == slots[e]);
            }
        }
        assert(!ns.contains(Some(x))) by {
            if ns.contains(Some(x)) {
                let e = choose|e: int| 0 <= e < ns.len() && ns[e] == Some(x);
                assert(slots[e] == Some(x));
            }
        }
        assert forall|j: int|
            #[trigger] occupied(h.keys@, j) && h.links@[j].parent is None implies (exists|k: int|
                idx <= k < tops.len() && #[trigger] tops[k] == j as usize) || ns.contains(
                Some(j as usize),
            ) || Some(x) == Some(j as usize) by {
            if slots.contains(Some(j as usize)) {
                let e = choose|e: int| 0 <= e < slots.len() && slots[e] == Some(j as usize);
                assert(ns[e] == Some(j as usize));
            }
        }
    }

    proof fn lemma_slot_fill(h: &Self, tops: Seq<usize>, idx: int, slots: Seq<Option<usize>>, d: int, x: usize)
        requires
            h.gathering(tops, idx, slots, Some(x)),
            0 <= d < slots.len(),
            slots[d] is None,
            h.links@[x as int].degree == d,
        ensures
            h.gathering(tops, idx, slots.update(d, Some(x)), None),
    {
        reveal(FibonacciHeap::gathering);
        let ns = slots.update(d, Some(x));
        assert forall|e: int| 0 <= e < ns.len() && #[trigger] ns[e] is Some implies is_top(h.keys@, h.links@, ns[e]->Some_0)
            && h.links@[ns[e]->Some_0 as int].degree == e by {
            if e != d {
                assert(ns[e] == slots[e]);
            }
        }
        assert forall|d1: int, d2: int|
            0 <= d1 < ns.len() && 0 <= d2 < ns.len() && d1 != d2 && #[trigger] ns[d1] is Some
                && #[trigger] ns[d2] is Some implies ns[d1] != ns[d2] by {
            if d1 == d {
                assert(slots[d2] is Some);
                assert(slots.contains(slots[d2]));
            } else if d2 == d {
                assert(slots[d1] is Some);
                assert(slots.contains(slots[d1]));
            } else {
                assert(slots[d1] is Some && slots[d2] is Some);
            }
        }
        assert forall|e: int, k: int| 0 <= e < ns.len() && idx <= k < tops.len() implies #[trigger] ns[e] != Some(
            #[trigger] tops[k],
        ) by {
            if e != d {
                assert(ns[e] == slots[e]);
            }
        }
        assert forall|j: int|
            #[trigger] occupied(h.keys@, j) && h.links@[j].parent is None implies (exists|k: int|
                idx <= k < tops.len() && #[trigger] tops[k] == j as usize) || ns.contains(
                Some(j as usize),
            ) || None::<usize> == Some(j as usize) by {
            if slots.contains(Some(j as usize)) {
                let e = choose|e: int| 0 <= e < slots.len() && slots[e] == Some(j as usize);
                assert(e != d);
                assert(ns[e] == Some(j as usize));
            }
            if x == j as usize {
                assert(ns[d] == Some(x));
            }
        }
    }
}


impl<T: Ord> FibonacciHeap<T> {
    #[verifier::opaque]
    /// The root list being rebuilt: `roots` is a list of tops taken from the
    /// slots before `k`, ending at `last`, and `min` is its smallest.
    closed spec fn rebuilding(&self, slots: Seq<Option<usize>>, k: int, last: usize) -> bool
        where T: Ord
    {
        let roots = self.roots@;
        &&& 0 <= k <= slots.len()
        &&& ring(self.links@, roots)
        &&& roots.len() > 0 ==> roots.last() == last
        &&& forall|r: usize|
            #[trigger] roots.contains(r) ==> is_top(self.keys@, self.links@, r) && exists|e: int|
                0 <= e < k && #[trigger] slots[e] == Some(r)
        &&& forall|j: int|
            #[trigger] occupied(self.keys@, j) && self.links@[j].parent is None ==> roots.contains(j as usize)
                || exists|e: int| k <= e < slots.len() && #[trigger] slots[e] == Some(j as usize)
        &&& (self.min is None <==> roots.len() == 0)
        &&& (self.min matches Some(mm) ==> {
            &&& roots.contains(mm)
            &&& forall|r: usize| #[trigger] roots.contains(r) ==> key_le(key_of(self.keys@, mm as int), key_of(self.keys@, r as int))
        })
    }

    proof fn lemma_rebuild_skip(h: &Self, slots: Seq<Option<usize>>, k: int, last: usize)
        requires
            h.rebuilding(slots, k, last),
            0 <= k < slots.len(),
            slots[k] is None,
        ensures
            h.rebuilding(slots, k + 1, last),
    {
        reveal(FibonacciHeap::rebuilding);
        assert forall|j: int| #[trigger] occupied(h.keys@, j) && h.links@[j].parent is None implies h.roots@.contains(j as usize)
            || exists|e: int| k + 1 <= e < slots.len() && #[trigger] slots[e] == Some(j as usize) by {
            if !h.roots@.contains(j as usize) {
                let e = choose|e: int| k <= e < slots.len() && #[trigger] slots[e] == Some(j as usize);
                assert(e != k);
            }
        }
        assert forall|r: usize| #[trigger] h.roots@.contains(r) implies is_top(h.keys@, h.links@, r) && exists|e: int|
            0 <= e < k + 1 && #[trigger] slots[e] == Some(r) by {
            let e = choose|e: int| 0 <= e < k && #[trigger] slots[e] == Some(r);
        }
    }

    /// Adds the top in slot `k` to the root list under construction.
    #[verifier::rlimit(100)]
    #[verifier::spinoff_prover]
    fn thread_root(
        &mut self,
        r: usize,
        last: usize,
        Ghost(slots): Ghost<Seq<Option<usize>>>,
        Ghost(k): Ghost<int>,
        Ghost(tops): Ghost<Seq<usize>>,
    )
        requires
            obeys_cmp::<T>(),
            old(self).wf_forest(),
            old(self).gathering(tops, tops.len() as int, slots, None),
            old(self).rebuilding(slots, k, last),
            0 <= k < slots.len(),
            slots[k] == Some(r),
        ensures
            final(self).wf_forest(),
            final(self).n == old(self).n,
            final(self).keys@ == old(self).keys@,
            final(self).id == old(self).id,
            final(self).gathering(tops, tops.len() as int, slots, None),
            final(self).rebuilding(slots, k + 1, r),
            final(self).links@.len() == old(self).links@.len(),
            forall|j: int|
                0 <= j < old(self).links@.len() ==> (#[trigger] final(self).links@[j]).parent
                    == old(self).links@[j].parent && final(self).links@[j].mark == old(self).links@[j].mark,
    {
        let ghost before = *self;
        proof {
            Self::lemma_rebuilding_facts(self, slots, k, last);
            lemma_key_order::<T>();
            assert(is_top(self.keys@, self.links@, r) && !self.roots@.contains(r)) by {
                reveal(FibonacciHeap::gathering);
                reveal(FibonacciHeap::rebuilding);
                if self.roots@.contains(r) {
                    let e = choose|e: int| 0 <= e < k && #[trigger] slots[e] == Some(r);
                    assert(slots[e] is Some);
                }
            }
        }
        match self.min {
            None => {
                let mut lr = self.links[r];
                lr.left = r;
                lr.right = r;
                self.links.set(r, lr);
                proof {
                    assert(self.roots@ =~= Seq::<usize>::empty());
                    assert(self.roots@.push(r) =~= seq![r]);
                    lemma_ring_singleton(self.links@, r);
                }
                self.roots = Ghost(self.roots@.push(r));
                self.min = Some(r);
            },
            Some(mm) => {
                ring_insert(&mut self.links, r, last, Ghost(self.roots@));
                self.roots = Ghost(self.roots@.push(r));
                if self.less_at(r, mm) {
                    self.min = Some(r);
                }
            },
        }
        proof {
            Self::lemma_siblings_only(&before, self);
            Self::lemma_gathering_frame(&before, self, tops, tops.len() as int, slots, None);
            Self::lemma_rebuild_step(&before, self, slots, k, r, last);
            let rs = before.roots@;
            if rs.len() > 0 {
                assert(rs.contains(rs[0]));
                assert(rs.contains(rs.last()));
            }
            assert forall|j: int| occupied(before.keys@, j) && before.links@[j].parent is Some implies #[trigger] self.links@[j]
                == before.links@[j] by {
                assert(!is_top(before.keys@, before.links@, j as usize));
            }
            assert forall|j: int| 0 <= j < before.links@.len() implies #[trigger] self.kids@[j] == before.kids@[j]
                && self.rank@[j] == before.rank@[j] && same_but_siblings(self.links@[j], before.links@[j]) by {}
            Self::lemma_roots_only_frame(&before, self);
            assert forall|j: int| 0 <= j < before.links@.len() implies (#[trigger] self.links@[j]).parent
                == before.links@[j].parent && self.links@[j].mark == before.links@[j].mark by {
                assert(same_but_siblings(self.links@[j], before.links@[j]));
            }
        }
    }

    /// Threads the roots left in `slots` into one root list and points `min`
    /// at the smallest of them.
    fn rebuild_roots(&mut self, slots: &Vec<Option<usize>>, Ghost(tops): Ghost<Seq<usize>>)
        requires
            obeys_cmp::<T>(),
            old(self).wf_forest(),
            old(self).n == live_keys(old(self).keys@).len(),
            old(self).gathering(tops, tops.len() as int, slots@, None),
        ensures
            final(self).wf(),
            final(self).roots_distinct_degrees(),
            final(self).keys@ == old(self).keys@,
            final(self).id == old(self).id,
            final(self).links@.len() == old(self).links@.len(),
            forall|j: int|
                0 <= j < old(self).links@.len() ==> (#[trigger] final(self).links@[j]).parent
                    == old(self).links@[j].parent && final(self).links@[j].mark == old(self).links@[j].mark,
    {
        self.roots = Ghost(Seq::empty());
        self.min = None;
        let mut last: usize = 0;
        let mut k: usize = 0;
        proof {
            reveal(FibonacciHeap::gathering);
            reveal(FibonacciHeap::rebuilding);
            lemma_ring_empty(self.links@);
            assert forall|j: int| #[trigger] occupied(self.keys@, j) && self.links@[j].parent is None implies self.roots@.contains(j as usize)
                || exists|e: int| 0 <= e < slots@.len() && #[trigger] slots@[e] == Some(j as usize) by {
                assert(slots@.contains(Some(j as usize)));
            }
            assert(self.gathering(tops, tops.len() as int, slots@, None));
            assert(self.rebuilding(slots@, 0, last));
        }
        while k < slots.len()
            invariant
                obeys_cmp::<T>(),
                self.wf_forest(),
                self.n == live_keys(self.keys@).len(),
                self.keys@ == old(self).keys@,
                self.id == old(self).id,
                self.gathering(tops, tops.len() as int, slots@, None),
                self.rebuilding(slots@, k as int, last),
                self.links@.len() == old(self).links@.len(),
                forall|j: int|
                    0 <= j < old(self).links@.len() ==> (#[trigger] self.links@[j]).parent
                        == old(self).links@[j].parent && self.links@[j].mark == old(self).links@[j].mark,
            decreases slots.len() - k,
        {
            if let Some(r) = slots[k] {
                self.thread_root(r, last, Ghost(slots@), Ghost(k as int), Ghost(tops));
                last = r;
            } else {
                proof {
                    Self::lemma_rebuild_skip(self, slots@, k as int, last);
                }
            }
            k = k + 1;
        }
        proof {
            Self::lemma_rebuild_done(self, tops, slots@, last);
        }
    }
}


impl<T: Ord> FibonacciHeap<T> {
    /// Changing only sibling pointers keeps every node's standing as a top.
    proof fn lemma_siblings_only(before: &Self, after: &Self)
        requires
            after.keys@ == before.keys@,
            after.links@.len() == before.links@.len(),
            before.links@.len() == before.keys@.len(),
            forall|j: int|
                0 <= j < before.links@.len() ==> same_but_siblings(
                    #[trigger] after.links@[j],
                    before.links@[j],
                ),
        ensures
            forall|t: usize| #[trigger] is_top(after.keys@, after.links@, t) == is_top(before.keys@, before.links@, t),
            forall|j: int| #[trigger] occupied(after.keys@, j) ==> after.links@[j].parent == before.links@[j].parent
                && after.links@[j].degree == before.links@[j].degree,
    {
        assert forall|t: usize| #[trigger] is_top(after.keys@, after.links@, t) == is_top(before.keys@, before.links@, t) by {
            if occupied(before.keys@, t as int) {
                assert(same_but_siblings(after.links@[t as int], before.links@[t as int]));
            }
        }
        assert forall|j: int| #[trigger] occupied(after.keys@, j) implies after.links@[j].parent == before.links@[j].parent
            && after.links@[j].degree == before.links@[j].degree by {
            assert(same_but_siblings(after.links@[j], before.links@[j]));
        }
    }

    proof fn lemma_gathering_frame(
        before: &Self,
        after: &Self,
        tops: Seq<usize>,
        idx: int,
        slots: Seq<Option<usize>>,
        carry: Option<usize>,
    )
        requires
            before.gathering(tops, idx, slots, carry),
            after.keys@ == before.keys@,
            forall|t: usize| #[trigger] is_top(after.keys@, after.links@, t) == is_top(before.keys@, before.links@, t),
            forall|j: int| #[trigger] occupied(after.keys@, j) ==> after.links@[j].parent == before.links@[j].parent
                && after.links@[j].degree == before.links@[j].degree,
        ensures
            after.gathering(tops, idx, slots, carry),
    {
        reveal(FibonacciHeap::gathering);
        assert forall|k: int| idx <= k < tops.len() implies is_top(after.keys@, after.links@, #[trigger] tops[k]) by {
            assert(is_top(before.keys@, before.links@, tops[k]));
        }
        assert forall|d: int| 0 <= d < slots.len() && #[trigger] slots[d] is Some implies is_top(
            after.keys@, after.links@, slots[d]->Some_0) && after.links@[slots[d]->Some_0 as int].degree == d by {
            assert(is_top(before.keys@, before.links@, slots[d]->Some_0));
        }
        if let Some(x) = carry {
            assert(is_top(before.keys@, before.links@, x));
        }
    }

    proof fn lemma_rebuild_step(
        before: &Self,
        after: &Self,
        slots: Seq<Option<usize>>,
        k: int,
        r: usize,
        last0: usize,
    )
        requires
            obeys_cmp::<T>(),
            before.rebuilding(slots, k, last0),
            0 <= k < slots.len(),
            slots[k] == Some(r),
            !before.roots@.contains(r),
            is_top(before.keys@, before.links@, r),
            after.keys@ == before.keys@,
            forall|t: usize| #[trigger] is_top(after.keys@, after.links@, t) == is_top(before.keys@, before.links@, t),
            forall|j: int| #[trigger] occupied(after.keys@, j) ==> after.links@[j].parent == before.links@[j].parent,
            ring(after.links@, after.roots@),
            after.roots@ == before.roots@.push(r),
            after.min == match before.min {
                None => Some(r),
                Some(mm) => if key_lt(key_of(before.keys@, r as int), key_of(before.keys@, mm as int)) {
                    Some(r)
                } else {
                    Some(mm)
                },
            },
        ensures
            after.rebuilding(slots, k + 1, r),
    {
        reveal(FibonacciHeap::rebuilding);
        lemma_key_order::<T>();
        let rs = before.roots@;
        let nr = after.roots@;
        assert(nr.last() == r);
        assert forall|x: usize| #[trigger] nr.contains(x) implies is_top(after.keys@, after.links@, x) && exists|e: int|
            0 <= e < k + 1 && #[trigger] slots[e] == Some(x) by {
            if x != r {
                let q = choose|q: int| 0 <= q < nr.len() && nr[q] == x;
                assert(rs[q] == x);
                assert(rs.contains(x));
            }
        }
        assert forall|j: int| #[trigger] occupied(after.keys@, j) && after.links@[j].parent is None implies nr.contains(j as usize)
            || exists|e: int| k + 1 <= e < slots.len() && #[trigger] slots[e] == Some(j as usize) by {
            if rs.contains(j as usize) {
                let q = choose|q: int| 0 <= q < rs.len() && rs[q] == j as usize;
                assert(nr[q] == j as usize);
            } else if j as usize == r {
                assert(nr[rs.len() as int] == r);
            } else {
                let e = choose|e: int| k <= e < slots.len() && #[trigger] slots[e] == Some(j as usize);
                assert(e != k);
            }
        }
        let mm = after.min->Some_0;
        assert(nr.contains(mm)) by {
            if mm != r {
                let q = choose|q: int| 0 <= q < rs.len() && rs[q] == mm;
                assert(nr[q] == mm);
            } else {
                assert(nr[rs.len() as int] == r);
            }
        }
        assert forall|x: usize| #[trigger] nr.contains(x) implies key_le(key_of(after.keys@, mm as int), key_of(after.keys@, x as int)) by {
            if x != r {
                let q = choose|q: int| 0 <= q < nr.len() && nr[q] == x;
                assert(rs[q] == x);
                assert(rs.contains(x));
            }
        }
    }

    proof fn lemma_rebuild_done(h: &Self, tops: Seq<usize>, slots: Seq<Option<usize>>, last: usize)
        requires
            obeys_cmp::<T>(),
            h.wf_forest(),
            h.n == live_keys(h.keys@).len(),
            h.rebuilding(slots, slots.len() as int, last),
            h.gathering(tops, tops.len() as int, slots, None),
        ensures
            h.wf(),
            h.roots_distinct_degrees(),
    {
        reveal(FibonacciHeap::gathering);
        reveal(FibonacciHeap::rebuilding);
        lemma_key_order::<T>();
        assert forall|r1: usize, r2: usize|
            #[trigger] h.roots@.contains(r1) && #[trigger] h.roots@.contains(r2) && r1 != r2
                implies h.links@[r1 as int].degree != h.links@[r2 as int].degree by {
            let e1 = choose|e: int| 0 <= e < slots.len() && #[trigger] slots[e] == Some(r1);
            let e2 = choose|e: int| 0 <= e < slots.len() && #[trigger] slots[e] == Some(r2);
            assert(slots[e1] is Some && slots[e2] is Some);
        }
        assert forall|j: int| #[trigger] occupied(h.keys@, j) && h.links@[j].parent is None implies h.roots@.contains(j as usize) by {}
        assert(h.wf_roots());
        match h.min {
            None => {
                assert forall|j: int| !#[trigger] occupied(h.keys@, j) by {
                    if occupied(h.keys@, j) {
                        let t = h.lemma_top_below(j);
                        assert(h.roots@.contains(t as usize));
                    }
                }
            },
            Some(mm) => {
                assert forall|j: int| #[trigger] occupied(h.keys@, j) implies key_le(key_of(h.keys@, mm as int), key_of(h.keys@, j)) by {
                    let t = h.lemma_top_below(j);
                    assert(h.roots@.contains(t as usize));
                }
            },
        }
        assert(h.wf_min());
    }
}


impl<T: Ord> FibonacciHeap<T> {
    /// The roots other than `m`, in list order starting after `m`.
    fn roots_except(&self, m: usize) -> (tops: Vec<usize>)
        requires
            self.wf(),
            self.roots@.contains(m),
        ensures
            exists|rot: Seq<usize>|
                {
                    &&& ring(self.links@, rot)
                    &&& rot.len() == self.roots@.len()
                    &&& rot[0] == m
                    &&& forall|y: usize| #[trigger] rot.contains(y) <==> self.roots@.contains(y)
                    &&& tops@ == rot.subrange(1, rot.len() as int)
                },
    {
        reveal(ring);
        let ghost rot = lemma_rotate_to_front(self.links@, self.roots@, m);
        let mut tops: Vec<usize> = Vec::new();
        let mut cur = self.links[m].right;
        let ghost mut q: int = 1;
        proof {
            if rot.len() == 1 {
                assert(rot.last() == m);
            }
        }
        while cur != m
            invariant
                ring(self.links@, rot),
                rot[0] == m,
                1 <= q <= rot.len(),
                cur == if q < rot.len() { rot[q] } else { m },
                tops@ == rot.subrange(1, q),
            decreases rot.len() - q,
        {
            proof {
                reveal(ring);
                if q == rot.len() {
                    assert(cur == m);
                }
            }
            tops.push(cur);
            proof {
                assert(tops@ =~= rot.subrange(1, q + 1));
                if q + 1 < rot.len() {
                    assert(self.links@[rot[q] as int].right == rot[q + 1]);
                } else {
                    assert(rot.last() == rot[q]);
                }
            }
            cur = self.links[cur].right;
            proof {
                q = q + 1;
            }
        }
        proof {
            if q < rot.len() {
                assert(rot[q] == rot[0]);
            }
        }
        tops
    }
}


/// `l` as a root: no parent, no mark.
spec fn detached(l: Link) -> Link {
    Link { left: l.left, right: l.right, parent: None, child: l.child, degree: l.degree, mark: false }
}

proof fn lemma_detach_step(old_links: Seq<Link>, kr: Seq<usize>, q: int, prev: Seq<Link>, now: Seq<Link>)
    requires
        0 <= q < kr.len(),
        (kr[q] as int) < old_links.len(),
        old_links.len() <= usize::MAX,
        prev.len() == old_links.len(),
        !kr.subrange(0, q).contains(kr[q]),
        forall|j: int|
            0 <= j < old_links.len() ==> #[trigger] prev[j] == if kr.subrange(0, q).contains(j as usize) {
                detached(old_links[j])
            } else {
                old_links[j]
            },
        now == prev.update(kr[q] as int, detached(old_links[kr[q] as int])),
    ensures
        forall|j: int|
            0 <= j < old_links.len() ==> #[trigger] now[j] == if kr.subrange(0, q + 1).contains(j as usize) {
                detached(old_links[j])
            } else {
                old_links[j]
            },
{
    lemma_prefix_step(kr, q);
    assert forall|j: int| 0 <= j < old_links.len() implies #[trigger] now[j] == if kr.subrange(0, q + 1).contains(
        j as usize,
    ) {
        detached(old_links[j])
    } else {
        old_links[j]
    } by {
        if j == kr[q] as int {
        } else {
            assert(now[j] == prev[j]);
            assert(j as usize != kr[q]);
        }
    }
}

impl<T: Ord> FibonacciHeap<T> {
    /// Turns every child of `m` into a parentless, unmarked node and appends
    /// them to `tops`, in list order starting at `m`'s child pointer.
    #[verifier::rlimit(100)]
    #[verifier::spinoff_prover]
    fn detach_children(&mut self, m: usize, tops: &mut Vec<usize>)
        requires
            old(self).wf_forest(),
            occupied(old(self).keys@, m as int),
        ensures
            final(self).keys@ == old(self).keys@,
            final(self).kids@ == old(self).kids@,
            final(self).rank@ == old(self).rank@,
            final(self).height@ == old(self).height@,
            final(self).roots@ == old(self).roots@,
            final(self).min == old(self).min,
            final(self).n == old(self).n,
            final(self).id == old(self).id,
            final(self).links@.len() == old(self).links@.len(),
            forall|j: int|
                0 <= j < old(self).links@.len() ==> #[trigger] final(self).links@[j] == if old(
                    self,
                ).kids@[m as int].contains(j as usize) {
                    detached(old(self).links@[j])
                } else {
                    old(self).links@[j]
                },
            exists|kr: Seq<usize>|
                {
                    &&& ring(old(self).links@, kr)
                    &&& kr.len() == old(self).kids@[m as int].len()
                    &&& forall|y: usize| #[trigger] kr.contains(y) <==> old(self).kids@[m as int].contains(y)
                    &&& final(tops)@ == old(tops)@ + kr
                },
    {
        reveal(ring);
        let ghost old_links = self.links@;
        let ghost ks = self.kids@[m as int];
        proof {
            lemma_unfold(self.keys@, self.links@, self.kids@, self.rank@, self.height@, m as int);
        }
        match self.links[m].child {
            None => {
                proof {
                    assert(ks =~= Seq::<usize>::empty());
                    assert(tops@ + ks =~= tops@);
                    assert(ring(old_links, ks));
                }
            },
            Some(c) => {
                let ghost kr = lemma_rotate_to_front(old_links, ks, c);
                let ghost old_tops = tops@;
                let mut cur = c;
                let mut done = false;
                let ghost mut q: int = 0;
                while !done
                    invariant
                        old_links.len() <= usize::MAX,
                        ring(old_links, kr),
                        kr.len() > 0,
                        kr[0] == c,
                        forall|y: usize| #[trigger] kr.contains(y) <==> ks.contains(y),
                        0 <= q <= kr.len(),
                        done ==> q == kr.len(),
                        !done ==> q < kr.len() && cur == kr[q],
                        tops@ == old_tops + kr.subrange(0, q),
                        self.links@.len() == old_links.len(),
                        self.keys@ == old(self).keys@,
                        self.kids@ == old(self).kids@,
                        self.rank@ == old(self).rank@,
                        self.height@ == old(self).height@,
                        self.roots@ == old(self).roots@,
                        self.min == old(self).min,
                        self.n == old(self).n,
                        self.id == old(self).id,
                        forall|j: int|
                            0 <= j < old_links.len() ==> #[trigger] self.links@[j] == if kr.subrange(0, q).contains(
                                j as usize,
                            ) {
                                detached(old_links[j])
                            } else {
                                old_links[j]
                            },
                    decreases kr.len() - q,
                {
                    proof {
                        reveal(ring);
                        assert(kr.contains(kr[q]));
                        assert(!kr.subrange(0, q).contains(cur)) by {
                            if kr.subrange(0, q).contains(cur) {
                                let e = choose|e: int| 0 <= e < q && #[trigger] kr.subrange(0, q)[e] == cur;
                                assert(kr[e] == kr[q]);
                            }
                        }
                    }
                    let next = self.links[cur].right;
                    let ghost prev = self.links@;
                    let mut l = self.links[cur];
                    l.parent = None;
                    l.mark = false;
                    self.links.set(cur, l);
                    tops.push(cur);
                    proof {
                        assert(tops@ =~= old_tops + kr.subrange(0, q + 1));
                        assert(self.links@ == prev.update(cur as int, detached(old_links[cur as int])));
                        lemma_detach_step(old_links, kr, q, prev, self.links@);
                        if q + 1 < kr.len() {
                            assert(old_links[kr[q] as int].right == kr[q + 1]);
                            assert(kr[q + 1] != kr[0]);
                        } else {
                            assert(kr.last() == kr[q]);
                        }
                    }
                    if next == c {
                        done = true;
                    } else {
                        cur = next;
                    }
                    proof {
                        q = q + 1;
                    }
                }
                proof {
                    assert(kr.subrange(0, q) =~= kr);
                    assert forall|j: int| 0 <= j < old_links.len() implies #[trigger] self.links@[j] == if ks.contains(
                        j as usize,
                    ) {
                        detached(old_links[j])
                    } else {
                        old_links[j]
                    } by {
                        assert(kr.contains(j as usize) == ks.contains(j as usize));
                    }
                }
            },
        }
    }
}


impl<T: Ord> FibonacciHeap<T> {
    proof fn lemma_extract_ready(
        old: &Self,
        new: &Self,
        m: usize,
        rot: Seq<usize>,
        kr: Seq<usize>,
        tops: Seq<usize>,
    )
        requires
            obeys_cmp::<T>(),
            old.wf(),
            old.roots@.contains(m),
            ring(old.links@, rot),
            rot.len() == old.roots@.len(),
            rot[0] == m,
            forall|y: usize| #[trigger] rot.contains(y) <==> old.roots@.contains(y),
            ring(old.links@, kr),
            forall|y: usize| #[trigger] kr.contains(y) <==> old.kids@[m as int].contains(y),
            tops == rot.subrange(1, rot.len() as int) + kr,
            new.keys@ == old.keys@.update(m as int, None),
            new.links@.len() == old.links@.len(),
            forall|j: int|
                0 <= j < old.links@.len() ==> #[trigger] new.links@[j] == if old.kids@[m as int].contains(
                    j as usize,
                ) {
                    detached(old.links@[j])
                } else {
                    old.links@[j]
                },
            new.kids@ == old.kids@,
            new.rank@ == old.rank@,
            new.height@ == old.height@,
        ensures
            new.wf_forest(),
            new.gathering(tops, 0, Seq::empty(), None),
    {
        reveal(ring);
        let km = old.kids@[m as int];
        lemma_unfold(old.keys@, old.links@, old.kids@, old.rank@, old.height@, m as int);
        assert(old.links@[m as int].parent is None);
        assert(!km.contains(m)) by {
            if km.contains(m) {
                assert(old.links@[m as int].parent == Some(m));
            }
        }
        assert forall|j: int| #[trigger] occupied(new.keys@, j) <==> occupied(old.keys@, j) && j != m as int by {}
        assert forall|j: int| occupied(new.keys@, j) implies #[trigger] key_of(new.keys@, j) == key_of(old.keys@, j) by {}
        assert forall|j: int| #[trigger] occupied(new.keys@, j) implies node_ok(
            new.keys@, new.links@, new.kids@, new.rank@, new.height@, j) by {
            assert(occupied(old.keys@, j));
            assert(node_ok(old.keys@, old.links@, old.kids@, old.rank@, old.height@, j));
            lemma_unfold(old.keys@, old.links@, old.kids@, old.rank@, old.height@, j);
            let ks = old.kids@[j];
            assert forall|c: usize| #[trigger] ks.contains(c) implies occupied(new.keys@, c as int)
                && new.links@[c as int] == old.links@[c as int] by {
                assert(occupied(old.keys@, c as int));
                assert(old.links@[c as int].parent == Some(j as usize));
                if km.contains(c) {
                    assert(old.links@[c as int].parent == Some(m));
                }
                if c == m {
                    assert(old.links@[m as int].parent is None);
                }
            }
            if km.contains(j as usize) {
                lemma_ring_frame(old.links@, new.links@, ks);
                lemma_fold(new.keys@, new.links@, new.kids@, new.rank@, new.height@, j);
            } else {
                if let Some(p) = old.links@[j].parent {
                    lemma_unfold(old.keys@, old.links@, old.kids@, old.rank@, old.height@, j);
                    if p == m {
                        assert(km.contains(j as usize));
                    }
                }
                assert(new.links@[j] == old.links@[j]);
                Self::lemma_node_frame(old, new, j);
            }
        }
        assert(new.wf_forest());
        reveal(FibonacciHeap::gathering);
        let n1 = rot.len() - 1;
        let head = rot.subrange(1, rot.len() as int);
        assert forall|k: int| 0 <= k < tops.len() implies is_top(new.keys@, new.links@, #[trigger] tops[k]) by {
            if k < n1 {
                let r = rot[k + 1];
                assert(tops[k] == r);
                assert(rot.contains(r));
                assert(old.roots@.contains(r));
                assert(r != m);
                if km.contains(r) {
                    assert(old.links@[r as int].parent == Some(m));
                }
            } else {
                let c = kr[k - n1];
                assert(tops[k] == c);
                assert(kr.contains(c));
                assert(km.contains(c));
                assert(c != m);
            }
        }
        assert(tops.no_duplicates()) by {
            assert forall|a: int, b: int| 0 <= a < tops.len() && 0 <= b < tops.len() && a != b implies tops[a] != tops[b] by {
                if a < n1 && b < n1 {
                    assert(tops[a] == rot[a + 1] && tops[b] == rot[b + 1]);
                } else if a >= n1 && b >= n1 {
                    assert(tops[a] == kr[a - n1] && tops[b] == kr[b - n1]);
                } else if a < n1 {
                    assert(rot.contains(rot[a + 1]));
                    assert(kr.contains(kr[b - n1]));
                    assert(old.links@[kr[b - n1] as int].parent == Some(m));
                    assert(tops[a] == rot[a + 1] && tops[b] == kr[b - n1]);
                } else {
                    assert(rot.contains(rot[b + 1]));
                    assert(kr.contains(kr[a - n1]));
                    assert(old.links@[kr[a - n1] as int].parent == Some(m));
                    assert(tops[b] == rot[b + 1] && tops[a] == kr[a - n1]);
                }
            }
        }
        assert forall|j: int|
            #[trigger] occupied(new.keys@, j) && new.links@[j].parent is None implies (exists|k: int|
                0 <= k < tops.len() && #[trigger] tops[k] == j as usize) || Seq::<Option<usize>>::empty().contains(
                Some(j as usize),
            ) || None::<usize> == Some(j as usize) by {
            if km.contains(j as usize) {
                assert(kr.contains(j as usize));
                let q = choose|q: int| 0 <= q < kr.len() && kr[q] == j as usize;
                assert(tops[n1 + q] == j as usize);
            } else {
                assert(old.links@[j].parent is None);
                assert(old.roots@.contains(j as usize));
                assert(rot.contains(j as usize));
                let q = choose|q: int| 0 <= q < rot.len() && rot[q] == j as usize;
                assert(q != 0);
                assert(tops[q - 1] == j as usize);
            }
        }
    }

    /// Removes the root `m` from the heap and returns its key: its children
    /// join the roots, the trees are consolidated, and `min` is found afresh.
    fn extract_root(&mut self, m: usize) -> (r: T)
        requires
            obeys_cmp::<T>(),
            old(self).wf(),
            old(self).roots@.contains(m),
        ensures
            final(self).wf(),
            final(self).roots_distinct_degrees(),
            final(self).keys@ == old(self).keys@.update(m as int, None),
            r == key_of(old(self).keys@, m as int),
            final(self).id == old(self).id,
    {
        let ghost old_self = *self;
        let mut tops = self.roots_except(m);
        let ghost rot = choose|rot: Seq<usize>|
            {
                &&& ring(old_self.links@, rot)
                &&& rot.len() == old_self.roots@.len()
                &&& rot[0] == m
                &&& forall|y: usize| #[trigger] rot.contains(y) <==> old_self.roots@.contains(y)
                &&& tops@ == rot.subrange(1, rot.len() as int)
            };
        let ghost t0 = tops@;
        proof {
            assert(occupied(self.keys@, m as int));
        }
        self.detach_children(m, &mut tops);
        let ghost kr = choose|kr: Seq<usize>|
            {
                &&& ring(old_self.links@, kr)
                &&& kr.len() == old_self.kids@[m as int].len()
                &&& forall|y: usize| #[trigger] kr.contains(y) <==> old_self.kids@[m as int].contains(y)
                &&& tops@ == t0 + kr
            };
        let mut slot: Option<T> = None;
        self.keys.set_and_swap(m, &mut slot);
        proof {
            lemma_live_keys_update(old_self.keys@, m as int, None);
        }
        self.n = self.n - 1;
        proof {
            Self::lemma_extract_ready(&old_self, self, m, rot, kr, tops@);
        }
        self.consolidate(tops);
        slot.unwrap()
    }
}


impl<T: Ord> FibonacciHeap<T> {
    /// Removes a smallest element from the heap and returns its key, or
    /// `None` when the heap is empty. Afterwards no two roots share a degree.
    pub fn pop(&mut self) -> (r: Option<T>)
        requires
            old(self).wf(),
            obeys_cmp::<T>(),
        ensures
            final(self).wf(),
            final(self).roots_distinct_degrees(),
            final(self).id() == old(self).id(),
            extracts_min(old(self)@, final(self)@, r),
            live_keys(final(self)@) == match r {
                Some(k) => live_keys(old(self)@).remove(k),
                None => live_keys(old(self)@),
            },
    {
        let ghost old_keys = self.keys@;
        match self.min {
            None => {
                proof {
                    lemma_live_keys_empty(self.keys@);
                    assert forall|r1: usize| !#[trigger] self.roots@.contains(r1) by {
                        if self.roots@.contains(r1) {
                            assert(occupied(self.keys@, r1 as int));
                        }
                    }
                }
                None
            },
            Some(m) => {
                proof {
                    assert(occupied(self.keys@, m as int));
                    lemma_live_keys_update(old_keys, m as int, None);
                }
                let k = self.extract_root(m);
                proof {
                    assert(old_keys[m as int] == Some(k));
                    assert forall|j: int| occupied(old_keys, j) implies key_le(k, #[trigger] old_keys[j]->Some_0) by {
                        assert(key_le(key_of(old_keys, m as int), key_of(old_keys, j)));
                    }
                }
                Some(k)
            },
        }
    }
}


impl<T: Ord> FibonacciHeap<T> {
    /// Well formed but for one parentless node `x` that the root list does
    /// not hold yet.
    closed spec fn wf_loose(&self, x: usize) -> bool
        where T: Ord
    {
        &&& self.wf_forest()
        &&& ring(self.links@, self.roots@)
        &&& forall|r: usize| #[trigger] self.roots@.contains(r) ==> is_top(self.keys@, self.links@, r)
        &&& forall|i: int|
            #[trigger] occupied(self.keys@, i) && self.links@[i].parent is None ==> self.roots@.contains(
                i as usize,
            ) || i == x as int
        &&& is_top(self.keys@, self.links@, x)
        &&& !self.roots@.contains(x)
        &&& self.wf_min()
        &&& self.n == live_keys(self.keys@).len()
    }

    #[verifier::rlimit(100)]
    #[verifier::spinoff_prover]
    proof fn lemma_detach_parent_node(old: &Self, new: &Self, x: usize, p: usize, rot: Seq<usize>, j: int)
        requires
            old.wf_forest(),
            occupied(old.keys@, x as int),
            old.links@[x as int].parent == Some(p),
            ring(old.links@, rot),
            rot.len() > 0,
            rot.last() == x,
            rot.len() == old.kids@[p as int].len(),
            forall|y: usize| #[trigger] rot.contains(y) <==> old.kids@[p as int].contains(y),
            ring(new.links@, rot.drop_last()),
            new.kids@ == old.kids@.update(p as int, rot.drop_last()),
            new.keys@ == old.keys@,
            new.rank@ == old.rank@,
            new.height@ == old.height@,
            new.roots@ == old.roots@,
            new.min == old.min,
            new.n == old.n,
            new.links@.len() == old.links@.len(),
            new.links@[p as int].parent == old.links@[p as int].parent,
            new.links@[p as int].left == old.links@[p as int].left,
            new.links@[p as int].right == old.links@[p as int].right,
            new.links@[p as int].degree == old.links@[p as int].degree - 1,
            new.links@[p as int].child is None <==> rot.len() == 1,
            new.links@[p as int].child matches Some(c) ==> rot.drop_last().contains(c),
            new.links@[p as int].mark == old.links@[p as int].mark,
            new.links@[x as int] == (Link { parent: None, mark: false, ..old.links@[x as int] }),
            forall|j: int|
                0 <= j < old.links@.len() && j != p && j != x ==> same_but_siblings(
                    #[trigger] new.links@[j],
                    old.links@[j],
                ),
            forall|j: int|
                0 <= j < old.links@.len() && j != p && j != x && !rot.contains(j as usize)
                    ==> #[trigger] new.links@[j] == old.links@[j],
            forall|v: usize| #[trigger] rot.drop_last().contains(v) <==> (old.kids@[p as int].contains(v) && v != x),
            !old.kids@[p as int].contains(p),
            p != x,
            occupied(new.keys@, j),
            j == p as int,
        ensures
            node_ok(new.keys@, new.links@, new.kids@, new.rank@, new.height@, j),
    {
        let kp = old.kids@[p as int];
        let rest = rot.drop_last();
        lemma_unfold(old.keys@, old.links@, old.kids@, old.rank@, old.height@, p as int);
        assert forall|c: usize| #[trigger] new.kids@[j].contains(c) implies occupied(new.keys@, c as int)
            && new.links@[c as int].parent == Some(j as usize) by {
            assert(kp.contains(c));
        }
        if let Some(pp) = old.links@[j].parent {
            lemma_unfold(old.keys@, old.links@, old.kids@, old.rank@, old.height@, pp as int);
            assert(pp != p);
        }
        lemma_fold(new.keys@, new.links@, new.kids@, new.rank@, new.height@, j);
    }

    #[verifier::rlimit(100)]
    #[verifier::spinoff_prover]
    proof fn lemma_detach_own_node(old: &Self, new: &Self, x: usize, p: usize, rot: Seq<usize>, j: int)
        requires
            old.wf_forest(),
            occupied(old.keys@, x as int),
            old.links@[x as int].parent == Some(p),
            ring(old.links@, rot),
            rot.len() > 0,
            rot.last() == x,
            rot.len() == old.kids@[p as int].len(),
            forall|y: usize| #[trigger] rot.contains(y) <==> old.kids@[p as int].contains(y),
            ring(new.links@, rot.drop_last()),
            new.kids@ == old.kids@.update(p as int, rot.drop_last()),
            new.keys@ == old.keys@,
            new.rank@ == old.rank@,
            new.height@ == old.height@,
            new.roots@ == old.roots@,
            new.min == old.min,
            new.n == old.n,
            new.links@.len() == old.links@.len(),
            new.links@[p as int].parent == old.links@[p as int].parent,
            new.links@[p as int].left == old.links@[p as int].left,
            new.links@[p as int].right == old.links@[p as int].right,
            new.links@[p as int].degree == old.links@[p as int].degree - 1,
            new.links@[p as int].child is None <==> rot.len() == 1,
            new.links@[p as int].child matches Some(c) ==> rot.drop_last().contains(c),
            new.links@[p as int].mark == old.links@[p as int].mark,
            new.links@[x as int] == (Link { parent: None, mark: false, ..old.links@[x as int] }),
            forall|j: int|
                0 <= j < old.links@.len() && j != p && j != x ==> same_but_siblings(
                    #[trigger] new.links@[j],
                    old.links@[j],
                ),
            forall|j: int|
                0 <= j < old.links@.len() && j != p && j != x && !rot.contains(j as usize)
                    ==> #[trigger] new.links@[j] == old.links@[j],
            forall|v: usize| #[trigger] rot.drop_last().contains(v) <==> (old.kids@[p as int].contains(v) && v != x),
            !old.kids@[p as int].contains(p),
            p != x,
            occupied(new.keys@, j),
            j == x as int,
        ensures
            node_ok(new.keys@, new.links@, new.kids@, new.rank@, new.height@, j),
    {
        let kp = old.kids@[p as int];
        let rest = rot.drop_last();
        lemma_unfold(old.keys@, old.links@, old.kids@, old.rank@, old.height@, j);
        lemma_unfold(old.keys@, old.links@, old.kids@, old.rank@, old.height@, p as int);
        let ks = old.kids@[j];
        assert forall|c: usize| #[trigger] ks.contains(c) implies occupied(new.keys@, c as int)
            && new.links@[c as int] == old.links@[c as int] by {
            assert(old.links@[c as int].parent == Some(j as usize));
            if rot.contains(c) {
                assert(kp.contains(c));
                assert(old.links@[c as int].parent == Some(p));
            }
        }
        lemma_ring_frame(old.links@, new.links@, ks);
        lemma_fold(new.keys@, new.links@, new.kids@, new.rank@, new.height@, j);
    }

    #[verifier::rlimit(100)]
    #[verifier::spinoff_prover]
    proof fn lemma_detach_other_node(old: &Self, new: &Self, x: usize, p: usize, rot: Seq<usize>, j: int)
        requires
            old.wf_forest(),
            occupied(old.keys@, x as int),
            old.links@[x as int].parent == Some(p),
            ring(old.links@, rot),
            rot.len() > 0,
            rot.last() == x,
            rot.len() == old.kids@[p as int].len(),
            forall|y: usize| #[trigger] rot.contains(y) <==> old.kids@[p as int].contains(y),
            ring(new.links@, rot.drop_last()),
            new.kids@ == old.kids@.update(p as int, rot.drop_last()),
            new.keys@ == old.keys@,
            new.rank@ == old.rank@,
            new.height@ == old.height@,
            new.roots@ == old.roots@,
            new.min == old.min,
            new.n == old.n,
            new.links@.len() == old.links@.len(),
            new.links@[p as int].parent == old.links@[p as int].parent,
            new.links@[p as int].left == old.links@[p as int].left,
            new.links@[p as int].right == old.links@[p as int].right,
            new.links@[p as int].degree == old.links@[p as int].degree - 1,
            new.links@[p as int].child is None <==> rot.len() == 1,
            new.links@[p as int].child matches Some(c) ==> rot.drop_last().contains(c),
            new.links@[p as int].mark == old.links@[p as int].mark,
            new.links@[x as int] == (Link { parent: None, mark: false, ..old.links@[x as int] }),
            forall|j: int|
                0 <= j < old.links@.len() && j != p && j != x ==> same_but_siblings(
                    #[trigger] new.links@[j],
                    old.links@[j],
                ),
            forall|j: int|
                0 <= j < old.links@.len() && j != p && j != x && !rot.contains(j as usize)
                    ==> #[trigger] new.links@[j] == old.links@[j],
            forall|v: usize| #[trigger] rot.drop_last().contains(v) <==> (old.kids@[p as int].contains(v) && v != x),
            !old.kids@[p as int].contains(p),
            p != x,
            occupied(new.keys@, j),
            j != p as int,
            j != x as int,
        ensures
            node_ok(new.keys@, new.links@, new.kids@, new.rank@, new.height@, j),
    {
        let kp = old.kids@[p as int];
        let rest = rot.drop_last();
        lemma_unfold(old.keys@, old.links@, old.kids@, old.rank@, old.height@, j);
        lemma_unfold(old.keys@, old.links@, old.kids@, old.rank@, old.height@, x as int);
        lemma_unfold(old.keys@, old.links@, old.kids@, old.rank@, old.height@, p as int);
        assert(0 <= j < old.kids@.len());
        let ks = old.kids@[j];
        assert forall|c: usize| #[trigger] ks.contains(c) implies occupied(new.keys@, c as int)
            && new.links@[c as int].left == old.links@[c as int].left && new.links@[c as int].right
            == old.links@[c as int].right && new.links@[c as int].parent == old.links@[c as int].parent by {
            assert(old.links@[c as int].parent == Some(j as usize));
            if rot.contains(c) {
                assert(kp.contains(c));
                assert(old.links@[c as int].parent == Some(p));
            }
        }
        if let Some(pj) = old.links@[j].parent {
            if pj == p {
                assert(kp.contains(j as usize));
                assert(rest.contains(j as usize));
            }
        }
        assert(new.kids@[j] == old.kids@[j]);
        Self::lemma_node_frame(old, new, j);
    }

    proof fn lemma_detach_forest(old: &Self, new: &Self, x: usize, p: usize, rot: Seq<usize>)
        requires
            old.wf(),
            occupied(old.keys@, x as int),
            old.links@[x as int].parent == Some(p),
            ring(old.links@, rot),
            rot.len() > 0,
            rot.last() == x,
            rot.len() == old.kids@[p as int].len(),
            forall|y: usize| #[trigger] rot.contains(y) <==> old.kids@[p as int].contains(y),
            ring(new.links@, rot.drop_last()),
            new.kids@ == old.kids@.update(p as int, rot.drop_last()),
            new.keys@ == old.keys@,
            new.rank@ == old.rank@,
            new.height@ == old.height@,
            new.roots@ == old.roots@,
            new.min == old.min,
            new.n == old.n,
            new.links@.len() == old.links@.len(),
            new.links@[p as int].parent == old.links@[p as int].parent,
            new.links@[p as int].left == old.links@[p as int].left,
            new.links@[p as int].right == old.links@[p as int].right,
            new.links@[p as int].degree == old.links@[p as int].degree - 1,
            new.links@[p as int].child is None <==> rot.len() == 1,
            new.links@[p as int].child matches Some(c) ==> rot.drop_last().contains(c),
            new.links@[p as int].mark == old.links@[p as int].mark,
            new.links@[x as int] == (Link { parent: None, mark: false, ..old.links@[x as int] }),
            forall|j: int|
                0 <= j < old.links@.len() && j != p && j != x ==> same_but_siblings(
                    #[trigger] new.links@[j],
                    old.links@[j],
                ),
            forall|j: int|
                0 <= j < old.links@.len() && j != p && j != x && !rot.contains(j as usize)
                    ==> #[trigger] new.links@[j] == old.links@[j],
        ensures
            new.wf_forest(),
    {
        reveal(ring);
        let kp = old.kids@[p as int];
        let rest = rot.drop_last();
        lemma_unfold(old.keys@, old.links@, old.kids@, old.rank@, old.height@, x as int);
        lemma_unfold(old.keys@, old.links@, old.kids@, old.rank@, old.height@, p as int);
        assert(rot.contains(x));
        assert(p != x);
        assert(!kp.contains(p)) by {
            if kp.contains(p) {
                assert(old.links@[p as int].parent == Some(p));
                lemma_unfold(old.keys@, old.links@, old.kids@, old.rank@, old.height@, p as int);
            }
        }
        assert forall|v: usize| #[trigger] rest.contains(v) <==> (kp.contains(v) && v != x) by {
            if rest.contains(v) {
                let q = choose|q: int| 0 <= q < rest.len() && rest[q] == v;
                assert(rot[q] == v);
                assert(rot.contains(v));
                assert(rot[q] != rot[rot.len() - 1]);
            }
            if kp.contains(v) && v != x {
                assert(rot.contains(v));
                let q = choose|q: int| 0 <= q < rot.len() && rot[q] == v;
                assert(q != rot.len() - 1);
                assert(rest[q] == v);
            }
        }
        assert forall|j: int| #[trigger] occupied(new.keys@, j) implies node_ok(
            new.keys@, new.links@, new.kids@, new.rank@, new.height@, j) by {
            if j == p as int {
                Self::lemma_detach_parent_node(old, new, x, p, rot, j);
            } else if j == x as int {
                Self::lemma_detach_own_node(old, new, x, p, rot, j);
            } else {
                Self::lemma_detach_other_node(old, new, x, p, rot, j);
            }
        }
    }

    proof fn lemma_detach_ok(old: &Self, new: &Self, x: usize, p: usize, rot: Seq<usize>)
        requires
            old.wf(),
            occupied(old.keys@, x as int),
            old.links@[x as int].parent == Some(p),
            ring(old.links@, rot),
            rot.len() > 0,
            rot.last() == x,
            rot.len() == old.kids@[p as int].len(),
            forall|y: usize| #[trigger] rot.contains(y) <==> old.kids@[p as int].contains(y),
            ring(new.links@, rot.drop_last()),
            new.kids@ == old.kids@.update(p as int, rot.drop_last()),
            new.keys@ == old.keys@,
            new.rank@ == old.rank@,
            new.height@ == old.height@,
            new.roots@ == old.roots@,
            new.min == old.min,
            new.n == old.n,
            new.links@.len() == old.links@.len(),
            new.links@[p as int].parent == old.links@[p as int].parent,
            new.links@[p as int].left == old.links@[p as int].left,
            new.links@[p as int].right == old.links@[p as int].right,
            new.links@[p as int].degree == old.links@[p as int].degree - 1,
            new.links@[p as int].child is None <==> rot.len() == 1,
            new.links@[p as int].child matches Some(c) ==> rot.drop_last().contains(c),
            new.links@[p as int].mark == old.links@[p as int].mark,
            new.links@[x as int] == (Link { parent: None, mark: false, ..old.links@[x as int] }),
            forall|j: int|
                0 <= j < old.links@.len() && j != p && j != x ==> same_but_siblings(
                    #[trigger] new.links@[j],
                    old.links@[j],
                ),
            forall|j: int|
                0 <= j < old.links@.len() && j != p && j != x && !rot.contains(j as usize)
                    ==> #[trigger] new.links@[j] == old.links@[j],
        ensures
            new.wf_loose(x),
    {
        reveal(ring);
        Self::lemma_detach_forest(old, new, x, p, rot);
        let kp = old.kids@[p as int];
        let rest = rot.drop_last();
        lemma_unfold(old.keys@, old.links@, old.kids@, old.rank@, old.height@, x as int);
        lemma_unfold(old.keys@, old.links@, old.kids@, old.rank@, old.height@, p as int);
        assert(rot.contains(x));
        assert(p != x);
        assert(!kp.contains(p)) by {
            if kp.contains(p) {
                assert(old.links@[p as int].parent == Some(p));
                lemma_unfold(old.keys@, old.links@, old.kids@, old.rank@, old.height@, p as int);
            }
        }
        assert forall|v: usize| #[trigger] rest.contains(v) <==> (kp.contains(v) && v != x) by {
            if rest.contains(v) {
                let q = choose|q: int| 0 <= q < rest.len() && rest[q] == v;
                assert(rot[q] == v);
                assert(rot.contains(v));
                assert(rot[q] != rot[rot.len() - 1]);
            }
            if kp.contains(v) && v != x {
                assert(rot.contains(v));
                let q = choose|q: int| 0 <= q < rot.len() && rot[q] == v;
                assert(q != rot.len() - 1);
                assert(rest[q] == v);
            }
        }
        let rs = old.roots@;
        assert forall|r: usize| #[trigger] rs.contains(r) implies new.links@[r as int].left == old.links@[r as int].left
            && new.links@[r as int].right == old.links@[r as int].right && is_top(new.keys@, new.links@, r) by {
            assert(old.links@[r as int].parent is None);
            if rot.contains(r) {
                assert(kp.contains(r));
            }
            if r != p {
                assert(same_but_siblings(new.links@[r as int], old.links@[r as int]));
            }
        }
        lemma_ring_frame(old.links@, new.links@, rs);
        assert forall|i: int| #[trigger] occupied(new.keys@, i) && new.links@[i].parent is None implies rs.contains(
            i as usize,
        ) || i == x as int by {
            if i != x as int && i != p as int {
                assert(same_but_siblings(new.links@[i], old.links@[i]));
            }
        }
        assert(!rs.contains(x));
    }

    proof fn lemma_detach_prep(old: &Self, new: &Self, x: usize, p: usize, rot: Seq<usize>, mid: Seq<Link>)
        requires
            old.wf(),
            occupied(old.keys@, x as int),
            old.links@[x as int].parent == Some(p),
            ring(old.links@, rot),
            rot.len() > 0,
            rot.last() == x,
            rot.len() == old.kids@[p as int].len(),
            forall|y: usize| #[trigger] rot.contains(y) <==> old.kids@[p as int].contains(y),
            rot.no_duplicates(),
            old.links@[x as int].right == rot[0],
            ring(mid, rot.drop_last()),
            mid.len() == old.links@.len(),
            forall|i: int|
                0 <= i < old.links@.len() && (rot.len() == 1 || (i != rot[0] && i != rot[rot.len() - 2]))
                    ==> mid[i] == old.links@[i],
            forall|i: int| 0 <= i < old.links@.len() ==> same_but_siblings(#[trigger] mid[i], old.links@[i]),
            new.kids@ == old.kids@.update(p as int, rot.drop_last()),
            new.keys@ == old.keys@,
            new.rank@ == old.rank@,
            new.height@ == old.height@,
            new.roots@ == old.roots@,
            new.min == old.min,
            new.n == old.n,
            new.links@.len() == old.links@.len(),
            new.links@ == mid.update(p as int, new.links@[p as int]).update(x as int, new.links@[x as int]),
            new.links@[p as int].parent == mid[p as int].parent,
            new.links@[p as int].left == mid[p as int].left,
            new.links@[p as int].right == mid[p as int].right,
            new.links@[p as int].mark == mid[p as int].mark,
            new.links@[p as int].degree == mid[p as int].degree - 1,
            new.links@[p as int].child == if mid[p as int].degree - 1 == 0 {
                None
            } else {
                Some(mid[x as int].right)
            },
            new.links@[x as int] == (Link { parent: None, mark: false, ..mid[x as int] }),
        ensures
            new.wf_loose(x),
    {
        let rest = rot.drop_last();
        lemma_unfold(old.keys@, old.links@, old.kids@, old.rank@, old.height@, x as int);
        lemma_unfold(old.keys@, old.links@, old.kids@, old.rank@, old.height@, p as int);
        assert(rot.contains(x));
        assert(rot[rot.len() - 1] == x);
        if rot.len() > 1 {
            assert(rot[0] != x);
            assert(rot[rot.len() - 2] != x);
        }
        assert(mid[x as int] == old.links@[x as int]);
            assert(!rot.contains(p)) by {
                if rot.contains(p) {
                    assert(old.kids@[p as int].contains(p));
                    assert(old.links@[p as int].parent == Some(p));
                    lemma_unfold(old.keys@, old.links@, old.kids@, old.rank@, old.height@, p as int);
                }
            }
            assert(!rest.contains(x)) by {
                if rest.contains(x) {
                    let q = choose|q: int| 0 <= q < rest.len() && rest[q] == x;
                    assert(rot[q] == x);
                }
            }
            assert forall|v: usize| #[trigger] rest.contains(v) implies mid[v as int].left == new.links@[v as int].left
                && mid[v as int].right == new.links@[v as int].right by {
                if rest.contains(v) {
                    let q = choose|q: int| 0 <= q < rest.len() && rest[q] == v;
                    assert(rot[q] == v);
                    assert(rot.contains(v));
                }
            }
            lemma_ring_frame(mid, new.links@, rest);
            if rot.len() > 1 {
                assert(rest[0] == rot[0]);
                assert(rest.contains(rot[0]));
            }
            assert forall|j: int| 0 <= j < old.links@.len() && j != p && j != x && !rot.contains(j as usize)
                implies #[trigger] new.links@[j] == old.links@[j] by {
                if rot.len() > 1 {
                    assert(rot.contains(rot[0]));
                    assert(rot.contains(rot[rot.len() - 2]));
                }
            }
        assert(!rot.contains(p)) by {
            if rot.contains(p) {
                assert(old.kids@[p as int].contains(p));
            }
        }
        assert(mid[p as int] == old.links@[p as int]);
        Self::lemma_detach_ok(old, new, x, p, rot);
    }

    /// Takes the child `x` out of its parent's child list and leaves it
    /// parentless and unmarked, outside the root list.
    #[verifier::rlimit(100)]
    #[verifier::spinoff_prover]
    fn detach_from_parent(&mut self, x: usize) -> (p: usize)
        requires
            old(self).wf(),
            occupied(old(self).keys@, x as int),
            old(self).links@[x as int].parent is Some,
        ensures
            final(self).wf_loose(x),
            old(self).links@[x as int].parent == Some(p),
            final(self).keys@ == old(self).keys@,
            final(self).rank@ == old(self).rank@,
            final(self).height@ == old(self).height@,
            final(self).roots@ == old(self).roots@,
            final(self).min == old(self).min,
            final(self).n == old(self).n,
            final(self).id == old(self).id,
            final(self).links@[x as int].parent is None,
            forall|j: int|
                0 <= j < old(self).links@.len() && j != x ==> (#[trigger] final(self).links@[j]).parent
                    == old(self).links@[j].parent && final(self).links@[j].mark == old(self).links@[j].mark,
    {
        let ghost old_self = *self;
        let p = self.links[x].parent.unwrap();
        proof {
            lemma_unfold(self.keys@, self.links@, self.kids@, self.rank@, self.height@, x as int);
            assert(occupied(self.keys@, p as int));
            lemma_unfold(self.keys@, self.links@, self.kids@, self.rank@, self.height@, p as int);
            assert(p != x);
        }
        let ghost rot = lemma_rotate_to_end(self.links@, self.kids@[p as int], x);
        proof {
            lemma_ring_basics(self.links@, rot);
        }
        ring_unlink(&mut self.links, x, Ghost(rot));
        let ghost rest = rot.drop_last();
        let ghost l1 = self.links@;
        proof {
            assert(rot.contains(x));
            assert(rot[rot.len() - 1] == x);
            if rot.len() > 1 {
                assert(rot[0] != x);
                assert(rot[rot.len() - 2] != x);
            }
            assert(old_self.links@[x as int].right == rot[0]);
        }
        let xr = self.links[x].right;
        let mut lp = self.links[p];
        lp.degree = lp.degree - 1;
        if lp.degree == 0 {
            lp.child = None;
        } else {
            lp.child = Some(xr);
        }
        self.links.set(p, lp);
        let mut lx = self.links[x];
        lx.parent = None;
        lx.mark = false;
        self.links.set(x, lx);
        self.kids = Ghost(self.kids@.update(p as int, rest));
        proof {
            Self::lemma_detach_prep(&old_self, self, x, p, rot, l1);
        }
        p
    }
}


impl<T: Ord> FibonacciHeap<T> {
    /// Splices the loose parentless node `x` into the root list next to
    /// `min`.
    fn add_root(&mut self, x: usize)
        requires
            old(self).wf_loose(x),
            old(self).min is Some,
        ensures
            final(self).wf(),
            final(self).keys@ == old(self).keys@,
            final(self).rank@ == old(self).rank@,
            final(self).height@ == old(self).height@,
            final(self).id == old(self).id,
            final(self).links@.len() == old(self).links@.len(),
            forall|j: int|
                0 <= j < old(self).links@.len() ==> (#[trigger] final(self).links@[j]).parent
                    == old(self).links@[j].parent && final(self).links@[j].mark == old(self).links@[j].mark,
    {
        let ghost old_self = *self;
        let m = self.min.unwrap();
        let ghost rot = lemma_rotate_to_end(self.links@, self.roots@, m);
        proof {
            lemma_ring_basics(self.links@, rot);
        }
        ring_insert(&mut self.links, x, m, Ghost(rot));
        self.roots = Ghost(rot.push(x));
        proof {
            Self::lemma_add_root_ok(&old_self, self, x, m, rot);
        }
    }

    proof fn lemma_add_root_ok(old: &Self, new: &Self, x: usize, m: usize, rot: Seq<usize>)
        requires
            old.wf_loose(x),
            old.min == Some(m),
            rot.len() > 0,
            rot.last() == m,
            forall|y: usize| #[trigger] rot.contains(y) <==> old.roots@.contains(y),
            ring(new.links@, rot.push(x)),
            new.roots@ == rot.push(x),
            new.keys@ == old.keys@,
            new.kids@ == old.kids@,
            new.rank@ == old.rank@,
            new.height@ == old.height@,
            new.min == old.min,
            new.n == old.n,
            new.links@.len() == old.links@.len(),
            forall|j: int|
                0 <= j < old.links@.len() && j != x && j != m && j != rot[0] ==> new.links@[j]
                    == old.links@[j],
            forall|j: int|
                0 <= j < old.links@.len() ==> same_but_siblings(#[trigger] new.links@[j], old.links@[j]),
        ensures
            new.wf(),
    {
        assert(rot.contains(rot[0]));
        assert forall|j: int| 0 <= j < old.links@.len() implies #[trigger] new.kids@[j] == old.kids@[j]
            && new.rank@[j] == old.rank@[j] && same_but_siblings(new.links@[j], old.links@[j]) by {}
        assert forall|j: int| occupied(old.keys@, j) && old.links@[j].parent is Some implies #[trigger] new.links@[j]
            == old.links@[j] by {
            assert(!rot.contains(j as usize));
        }
        Self::lemma_roots_only_frame(old, new);
        let nr = new.roots@;
        assert(nr[nr.len() - 1] == x);
        assert forall|r: usize| #[trigger] nr.contains(r) implies occupied(new.keys@, r as int)
            && new.links@[r as int].parent is None && !new.links@[r as int].mark by {
            if r != x {
                let q = choose|q: int| 0 <= q < nr.len() && nr[q] == r;
                assert(rot[q] == r);
                assert(rot.contains(r));
                assert(is_top(old.keys@, old.links@, r));
            }
            assert(same_but_siblings(new.links@[r as int], old.links@[r as int]));
        }
        assert forall|j: int| #[trigger] occupied(new.keys@, j) && new.links@[j].parent is None implies nr.contains(
            j as usize,
        ) by {
            assert(same_but_siblings(new.links@[j], old.links@[j]));
            if j != x as int {
                assert(rot.contains(j as usize));
                let q = choose|q: int| 0 <= q < rot.len() && rot[q] == j as usize;
                assert(nr[q] == j as usize);
            }
        }
        assert(nr.contains(m)) by {
            assert(nr[rot.len() - 1] == m);
        }
        assert(new.wf_roots());
        assert(new.wf_min());
    }

    /// Cuts the child `x` from its parent and makes it a root; returns the
    /// former parent.
    fn cut(&mut self, x: usize) -> (p: usize)
        requires
            old(self).wf(),
            occupied(old(self).keys@, x as int),
            old(self).links@[x as int].parent is Some,
        ensures
            final(self).wf(),
            old(self).links@[x as int].parent == Some(p),
            final(self).keys@ == old(self).keys@,
            final(self).rank@ == old(self).rank@,
            final(self).height@ == old(self).height@,
            final(self).id == old(self).id,
            final(self).links@.len() == old(self).links@.len(),
            final(self).links@[x as int].parent is None,
            !final(self).links@[x as int].mark,
            forall|j: int|
                0 <= j < old(self).links@.len() && j != x ==> (#[trigger] final(self).links@[j]).parent
                    == old(self).links@[j].parent && final(self).links@[j].mark == old(self).links@[j].mark,
    {
        proof {
            assert(self.min is Some);
        }
        let p = self.detach_from_parent(x);
        self.add_root(x);
        p
    }

    /// The cascading cut above a node that has just lost a child: a root
    /// is left alone, an unmarked child gets marked, and a marked child is
    /// cut and the walk goes on from its former parent.
    ///
    /// Only marked nodes change parent, and each of them becomes a root.
    fn cascading_cut(&mut self, y0: usize)
        requires
            old(self).wf(),
            occupied(old(self).keys@, y0 as int),
        ensures
            final(self).wf(),
            final(self).keys@ == old(self).keys@,
            final(self).id == old(self).id,
            final(self).links@.len() == old(self).links@.len(),
            old(self).links@[y0 as int].parent is None ==> final(self).links@ == old(self).links@,
            old(self).links@[y0 as int].parent is Some && !old(self).links@[y0 as int].mark
                ==> final(self).links@ == old(self).links@.update(
                y0 as int,
                Link { mark: true, ..old(self).links@[y0 as int] },
            ),
            old(self).links@[y0 as int].parent is Some && old(self).links@[y0 as int].mark
                ==> final(self).links@[y0 as int].parent is None && !final(self).links@[y0 as int].mark,
            forall|j: int|
                0 <= j < old(self).links@.len() && (#[trigger] final(self).links@[j]).parent
                    != old(self).links@[j].parent ==> old(self).links@[j].mark && final(self).links@[j].parent
                    is None,
            forall|j: int|
                0 <= j < old(self).links@.len() && (#[trigger] old(self).links@[j]).parent is None
                    ==> final(self).links@[j].parent is None,
    {
        let ghost old_links = self.links@;
        let mut y = y0;
        let mut going = true;
        while going
            invariant
                self.wf(),
                occupied(self.keys@, y as int),
                self.keys@ == old(self).keys@,
                self.id == old(self).id,
                self.rank@ == old(self).rank@,
                self.links@.len() == old_links.len(),
                old_links == old(self).links@,
                occupied(old(self).keys@, y0 as int),
                y == y0 ==> (going ==> self.links@ == old_links) && (!going ==> (old_links[y0 as int].parent is None
                    && self.links@ == old_links) || (old_links[y0 as int].parent is Some && !old_links[y0 as int].mark
                    && self.links@ == old_links.update(y0 as int, Link { mark: true, ..old_links[y0 as int] }))),
                y != y0 ==> old_links[y0 as int].parent is Some && old_links[y0 as int].mark
                    && self.links@[y0 as int].parent is None && !self.links@[y0 as int].mark && self.rank@[y as int]
                    > self.rank@[y0 as int],
                forall|j: int|
                    0 <= j < old_links.len() && (#[trigger] self.links@[j]).parent != old_links[j].parent
                        ==> old_links[j].mark && self.links@[j].parent is None,
                going ==> forall|j: int|
                    0 <= j < old_links.len() && (#[trigger] self.links@[j]).mark != old_links[j].mark
                        ==> self.links@[j].parent != old_links[j].parent,
            decreases self.height@ - self.rank@[y as int], if going { 1int } else { 0int },
        {
            match self.links[y].parent {
                None => {
                    going = false;
                },
                Some(z) => {
                    proof {
                        lemma_unfold(self.keys@, self.links@, self.kids@, self.rank@, self.height@, y as int);
                        assert(node_ok(self.keys@, self.links@, self.kids@, self.rank@, self.height@, z as int));
                        lemma_unfold(self.keys@, self.links@, self.kids@, self.rank@, self.height@, z as int);
                        assert(self.links@[y as int].parent == old_links[y as int].parent);
                        assert(self.links@[y as int].mark == old_links[y as int].mark);
                    }
                    if !self.links[y].mark {
                        let ghost before = *self;
                        let mut l = self.links[y];
                        l.mark = true;
                        self.links.set(y, l);
                        proof {
                            Self::lemma_mark_ok(&before, self, y);
                            assert forall|j: int|
                                0 <= j < old_links.len() && (#[trigger] self.links@[j]).parent != old_links[j].parent
                                    implies old_links[j].mark && self.links@[j].parent is None by {
                                assert(self.links@[j].parent == before.links@[j].parent);
                            }
                            if y == y0 {
                                assert(self.links@ =~= old_links.update(y0 as int, Link { mark: true, ..old_links[y0 as int] }));
                            } else {
                                assert(self.links@[y0 as int] == before.links@[y0 as int]);
                            }
                        }
                        going = false;
                    } else {
                        let ghost before = *self;
                        self.cut(y);
                        proof {
                            assert forall|j: int|
                                0 <= j < old_links.len() && (#[trigger] self.links@[j]).parent != old_links[j].parent
                                    implies old_links[j].mark && self.links@[j].parent is None by {
                                if j != y as int {
                                    assert(self.links@[j].parent == before.links@[j].parent);
                                }
                            }
                            assert forall|j: int|
                                0 <= j < old_links.len() && (#[trigger] self.links@[j]).mark != old_links[j].mark
                                    implies self.links@[j].parent != old_links[j].parent by {
                                if j != y as int {
                                    assert(self.links@[j].mark == before.links@[j].mark);
                                    assert(self.links@[j].parent == before.links@[j].parent);
                                }
                            }
                            assert(self.rank@[z as int] > self.rank@[y as int]);
                            if y != y0 {
                                assert(self.links@[y0 as int] .parent == before.links@[y0 as int].parent);
                            }
                        }
                        y = z;
                    }
                },
            }
        }
    }

    proof fn lemma_mark_ok(old: &Self, new: &Self, y: usize)
        requires
            old.wf(),
            occupied(old.keys@, y as int),
            old.links@[y as int].parent is Some,
            new.links@ == old.links@.update(y as int, Link { mark: true, ..old.links@[y as int] }),
            new.keys@ == old.keys@,
            new.kids@ == old.kids@,
            new.rank@ == old.rank@,
            new.height@ == old.height@,
            new.roots@ == old.roots@,
            new.min == old.min,
            new.n == old.n,
        ensures
            new.wf(),
    {
        assert forall|j: int| 0 <= j < old.links@.len() implies #[trigger] new.kids@[j] == old.kids@[j]
            && new.rank@[j] == old.rank@[j] && same_but_siblings(new.links@[j], old.links@[j]) || j == y as int by {}
        assert forall|j: int| occupied(new.keys@, j) implies #[trigger] node_ok(
            new.keys@, new.links@, new.kids@, new.rank@, new.height@, j) by {
            assert(node_ok(old.keys@, old.links@, old.kids@, old.rank@, old.height@, j));
            lemma_unfold(old.keys@, old.links@, old.kids@, old.rank@, old.height@, j);
            assert forall|c: usize| #[trigger] old.kids@[j].contains(c) implies occupied(new.keys@, c as int)
                && new.links@[c as int].left == old.links@[c as int].left && new.links@[c as int].right
                == old.links@[c as int].right && new.links@[c as int].parent == old.links@[c as int].parent by {}
            Self::lemma_node_frame(old, new, j);
        }
        assert forall|r: usize| #[trigger] old.roots@.contains(r) implies new.links@[r as int].left == old.links@[r as int].left
            && new.links@[r as int].right == old.links@[r as int].right by {}
        lemma_ring_frame(old.links@, new.links@, old.roots@);
        assert forall|r: usize| #[trigger] new.roots@.contains(r) implies occupied(new.keys@, r as int) && new.links@[r as int].parent is None
            && !new.links@[r as int].mark by {
            assert(old.links@[r as int].parent is None);
        }
        assert(new.wf_roots());
    }
}


impl<T: Ord> FibonacciHeap<T> {
    proof fn lemma_set_key_ok(old: &Self, new: &Self, x: usize, k: T)
        requires
            obeys_cmp::<T>(),
            old.wf(),
            occupied(old.keys@, x as int),
            key_lt(k, key_of(old.keys@, x as int)),
            old.links@[x as int].parent matches Some(p) ==> key_le(key_of(old.keys@, p as int), k),
            old.min is Some,
            new.keys@ == old.keys@.update(x as int, Some(k)),
            new.links@ == old.links@,
            new.kids@ == old.kids@,
            new.rank@ == old.rank@,
            new.height@ == old.height@,
            new.roots@ == old.roots@,
            new.n == old.n,
            new.min == if key_lt(k, key_of(old.keys@, old.min->Some_0 as int)) {
                Some(x)
            } else {
                old.min
            },
        ensures
            new.wf(),
    {
        lemma_key_order::<T>();
        lemma_live_keys_update(old.keys@, x as int, Some(k));
        assert forall|j: int| #[trigger] occupied(new.keys@, j) == occupied(old.keys@, j) by {}
        assert forall|j: int| #[trigger] occupied(new.keys@, j) implies node_ok(
            new.keys@, new.links@, new.kids@, new.rank@, new.height@, j) by {
            assert(node_ok(old.keys@, old.links@, old.kids@, old.rank@, old.height@, j));
            lemma_unfold(old.keys@, old.links@, old.kids@, old.rank@, old.height@, j);
            if let Some(p) = old.links@[j].parent {
                if p == x && j != x as int {
                    assert(key_le(key_of(old.keys@, x as int), key_of(old.keys@, j)));
                }
            }
            lemma_fold(new.keys@, new.links@, new.kids@, new.rank@, new.height@, j);
        }
        assert(new.wf_forest());
        assert(new.wf_roots());
        let m = old.min->Some_0;
        if key_lt(k, key_of(old.keys@, m as int)) {
            assert(old.links@[x as int].parent is None) by {
                if let Some(p) = old.links@[x as int].parent {
                    assert(node_ok(old.keys@, old.links@, old.kids@, old.rank@, old.height@, x as int));
                    lemma_unfold(old.keys@, old.links@, old.kids@, old.rank@, old.height@, x as int);
                    assert(key_le(key_of(old.keys@, m as int), key_of(old.keys@, p as int)));
                }
            }
            assert forall|j: int| #[trigger] occupied(new.keys@, j) implies key_le(key_of(new.keys@, x as int), key_of(new.keys@, j)) by {
                if j != x as int {
                    assert(key_le(key_of(old.keys@, m as int), key_of(old.keys@, j)));
                }
            }
        } else {
            assert forall|j: int| #[trigger] occupied(new.keys@, j) implies key_le(key_of(new.keys@, m as int), key_of(new.keys@, j)) by {
                if j == x as int {
                } else if m == x {
                    assert(key_le(key_of(old.keys@, m as int), key_of(old.keys@, j)));
                } else {
                    assert(key_le(key_of(old.keys@, m as int), key_of(old.keys@, j)));
                }
            }
            if m == x {
                assert(key_lt(k, key_of(old.keys@, m as int)));
            }
        }
        assert(new.wf_min());
    }

    /// Lowers the key of the element that `elem` names to `new_key`.
    ///
    /// Nothing happens when that element has left the heap, when `elem`
    /// carries another identity than this heap's, or when `new_key` is not
    /// smaller than the element's key.
    pub fn decrease_key(&mut self, elem: &NodePtr, new_key: T)
        requires
            old(self).wf(),
            obeys_cmp::<T>(),
        ensures
            final(self).wf(),
            final(self).id() == old(self).id(),
            final(self)@ == if old(self).holds(*elem) && key_lt(new_key, old(self)@[elem.index()]->Some_0) {
                old(self)@.update(elem.index(), Some(new_key))
            } else {
                old(self)@
            },
    {
        if elem.heap != self.id || elem.slot >= self.keys.len() {
            return;
        }
        let x = elem.slot;
        let lower = match self.keys[x].as_ref() {
            None => false,
            Some(cur) => key_less(&new_key, cur),
        };
        if !lower {
            return;
        }
        if let Some(p) = self.links[x].parent {
            proof {
                assert(occupied(self.keys@, x as int));
                lemma_unfold(self.keys@, self.links@, self.kids@, self.rank@, self.height@, x as int);
            }
            if key_less(&new_key, self.key_at(p)) {
                proof {
                    assert(occupied(self.keys@, x as int));
                }
                self.cut(x);
                self.cascading_cut(p);
            }
        }
        let ghost before = *self;
        proof {
            lemma_key_order::<T>();
            assert(self.min is Some) by {
                assert(occupied(self.keys@, x as int));
            }
            assert(occupied(self.keys@, x as int));
            if let Some(p) = self.links@[x as int].parent {
                lemma_unfold(self.keys@, self.links@, self.kids@, self.rank@, self.height@, x as int);
            }
        }
        let m = self.min.unwrap();
        let less = key_less(&new_key, self.key_at(m));
        self.keys.set(x, Some(new_key));
        if less {
            self.min = Some(x);
        }
        proof {
            Self::lemma_set_key_ok(&before, self, x, new_key);
        }
    }

    /// Removes the element that `elem` names from the heap and returns its
    /// key.
    ///
    /// Returns `None`, and changes nothing, when that element has already
    /// left the heap or `elem` carries another identity than this heap's.
    /// Otherwise the remaining roots are consolidated, and no two of them
    /// share a degree.
    pub fn delete(&mut self, elem: NodePtr) -> (r: Option<T>)
        requires
            old(self).wf(),
            obeys_cmp::<T>(),
        ensures
            final(self).wf(),
            final(self).id() == old(self).id(),
            if old(self).holds(elem) {
                &&& r == old(self)@[elem.index()]
                &&& final(self)@ == old(self)@.update(elem.index(), None)
                &&& live_keys(final(self)@) == live_keys(old(self)@).remove(r->Some_0)
                &&& final(self).roots_distinct_degrees()
            } else {
                &&& r is None
                &&& final(self)@ == old(self)@
            },
    {
        if elem.heap != self.id || elem.slot >= self.keys.len() {
            return None;
        }
        let x = elem.slot;
        if self.keys[x].is_none() {
            return None;
        }
        let ghost old_keys = self.keys@;
        if let Some(p) = self.links[x].parent {
            proof {
                assert(occupied(self.keys@, x as int));
                lemma_unfold(self.keys@, self.links@, self.kids@, self.rank@, self.height@, x as int);
            }
            self.cut(x);
            self.cascading_cut(p);
        }
        proof {
            assert(occupied(self.keys@, x as int));
            assert(self.roots@.contains(x));
            lemma_live_keys_update(old_keys, x as int, None);
        }
        let k = self.extract_root(x);
        Some(k)
    }
}


/// The keys of `s` in non-decreasing order.
pub open spec fn sorted_keys<T: Ord>(s: Seq<T>) -> bool {
    forall|i: int, j: int| 0 <= i < j < s.len() ==> key_le(s[i], s[j])
}

impl<T: Ord> FibonacciHeap<T> {
    /// Melds two heaps into one; both are consumed.
    ///
    /// When the first is empty the second is returned as it is, and when
    /// the second is empty the first. Otherwise the second heap's arena is
    /// placed after the first's, with every index shifted, and the two root
    /// lists are joined: the trees of both heaps stay as they were, and
    /// handles issued by the first heap keep naming their elements.
    ///
    /// Copying the second arena takes time in proportion to its length, dead
    /// slots included, not the constant time of joining two pointer-linked
    /// lists; slots are never reused. Running time is not verified.
    pub fn from_meld(heap1: FibonacciHeap<T>, heap2: FibonacciHeap<T>) -> (r: FibonacciHeap<T>)
        requires
            heap1.wf(),
            heap2.wf(),
            obeys_cmp::<T>(),
            heap1@.len() + heap2@.len() <= usize::MAX,
        ensures
            r.wf(),
            live_keys(r@) == live_keys(heap1@).add(live_keys(heap2@)),
            live_keys(heap1@).len() == 0 ==> r@ == heap2@ && r.id() == heap2.id(),
            live_keys(heap1@).len() != 0 && live_keys(heap2@).len() == 0 ==> r@ == heap1@ && r.id()
                == heap1.id(),
            live_keys(heap1@).len() != 0 && live_keys(heap2@).len() != 0 ==> r@ == heap1@ + heap2@
                && r.id() == heap1.id(),
    {
        if heap1.is_empty() {
            proof {
                lemma_live_keys_empty(heap1@);
                assert(live_keys(heap1@).add(live_keys(heap2@)) =~= live_keys(heap2@));
            }
            return heap2;
        }
        if heap2.is_empty() {
            proof {
                assert(live_keys(heap1@).add(live_keys(heap2@)) =~= live_keys(heap1@));
            }
            return heap1;
        }
        let mut heap = heap1;
        let mut other = heap2;
        let ghost a = heap;
        let ghost b = other;
        let off = heap.keys.len();
        let mut i: usize = 0;
        while i < other.links.len()
            invariant
                a.wf(),
                b.wf(),
                other == b,
                off == a.keys@.len(),
                off + b.links@.len() <= usize::MAX,
                heap.keys == a.keys,
                heap.kids == a.kids,
                heap.rank == a.rank,
                heap.height == a.height,
                heap.roots == a.roots,
                heap.min == a.min,
                heap.n == a.n,
                heap.id == a.id,
                0 <= i <= b.links@.len(),
                heap.links@.len() == off + i,
                forall|q: int| 0 <= q < off ==> #[trigger] heap.links@[q] == a.links@[q],
                forall|q: int|
                    0 <= q < i ==> #[trigger] heap.links@[off + q] == if occupied(b.keys@, q) {
                        shift_link(b.links@[q], off as int)
                    } else {
                        spare_link(off + q)
                    },
            decreases b.links@.len() - i,
        {
            let l = other.links[i];
            let nl = if other.keys[i].is_some() {
                proof {
                    Self::lemma_live_bounds(&b, i as int);
                }
                Link {
                    left: l.left + off,
                    right: l.right + off,
                    parent: match l.parent {
                        Some(p) => Some(p + off),
                        None => None,
                    },
                    child: match l.child {
                        Some(c) => Some(c + off),
                        None => None,
                    },
                    degree: l.degree,
                    mark: l.mark,
                }
            } else {
                Link { left: off + i, right: off + i, parent: None, child: None, degree: 0, mark: false }
            };
            heap.links.push(nl);
            proof {
                assert forall|q: int| 0 <= q < i + 1 implies #[trigger] heap.links@[off + q] == if occupied(b.keys@, q) {
                    shift_link(b.links@[q], off as int)
                } else {
                    spare_link(off + q)
                } by {
                    if q < i {
                        assert(heap.links@[off + q] == heap.links@.drop_last()[off + q]);
                    }
                }
            }
            i = i + 1;
        }
        heap.keys.append(&mut other.keys);
        heap.kids = Ghost(a.kids@ + b.kids@.map_values(|ks: Seq<usize>| shift_seq(ks, off as int)));
        heap.rank = Ghost(a.rank@ + b.rank@);
        heap.height = Ghost(if a.height@ > b.height@ { a.height@ } else { b.height@ });
        proof {
            lemma_live_keys_len_bound(a.keys@);
            lemma_live_keys_len_bound(b.keys@);
            lemma_live_keys_append(a.keys@, b.keys@);
            lemma_live_keys_empty(a.keys@);
            lemma_live_keys_empty(b.keys@);
        }
        heap.n = heap.n + other.n;
        proof {
            Self::lemma_meld_forest(&a, &b, &heap, off as int);
        }
        let ghost h1 = heap;
        let ma = heap.min.unwrap();
        let mb = other.min.unwrap();
        let ghost ra = lemma_rotate_to_end(a.links@, a.roots@, ma);
        let ghost rb = lemma_rotate_to_front(b.links@, b.roots@, mb);
        proof {
            lemma_ring_basics(a.links@, ra);
            lemma_ring_frame(a.links@, heap.links@, ra);
            assert forall|x: usize| #[trigger] rb.contains(x) implies heap.links@[x + off].left == b.links@[x as int].left
                + off && heap.links@[x + off].right == b.links@[x as int].right + off by {
                assert(b.roots@.contains(x));
                Self::lemma_live_bounds(&b, x as int);
                assert(heap.links@[off + x] == shift_link(b.links@[x as int], off as int));
            }
            lemma_ring_shift(b.links@, heap.links@, rb, off as int);
            assert(b.roots@.contains(mb));
            Self::lemma_live_bounds(&b, mb as int);
            assert forall|y: usize| ra.contains(y) implies !shift_seq(rb, off as int).contains(y) by {
                let q = choose|q: int| 0 <= q < ra.len() && ra[q] == y;
            }
            assert(shift_seq(rb, off as int)[0] == mb + off);
        }
        ring_concat(&mut heap.links, ma, mb + off, Ghost(ra), Ghost(shift_seq(rb, off as int)));
        heap.roots = Ghost(ra + shift_seq(rb, off as int));
        proof {
            assert(heap.keys@[off + mb] == b.keys@[mb as int]);
            assert(a.roots@.contains(ma));
        }
        if heap.less_at(mb + off, ma) {
            heap.min = Some(mb + off);
        }
        proof {
            assert(heap.keys@[ma as int] == a.keys@[ma as int]);
            Self::lemma_meld_roots(&a, &b, &h1, &heap, off as int, ma, mb, ra, rb);
        }
        heap
    }

    /// Builds a heap holding the items of `v`.
    pub fn from_vec(v: Vec<T>) -> (r: FibonacciHeap<T>)
        requires
            obeys_cmp::<T>(),
        ensures
            r.wf(),
            live_keys(r@) == v@.to_multiset(),
    {
        let mut heap = FibonacciHeap::new();
        let mut v = v;
        let ghost orig = v@;
        let total = v.len();
        proof {
            lemma_multiset_empty_len(live_keys(heap@));
            assert(live_keys(heap@).add(v@.to_multiset()) =~= orig.to_multiset());
        }
        while v.len() > 0
            invariant
                obeys_cmp::<T>(),
                heap.wf(),
                heap@.len() + v@.len() == orig.len(),
                orig.len() == total,
                live_keys(heap@).add(v@.to_multiset()) == orig.to_multiset(),
            decreases v.len(),
        {
            let ghost before = v@;
            let x = v.pop().unwrap();
            proof {
                assert(before =~= v@.push(x));
                v@.to_multiset_ensures();
                lemma_live_keys_push(heap@, Some(x));
                assert(live_keys(heap@).insert(x).add(v@.to_multiset()) =~= live_keys(heap@).add(v@.to_multiset().insert(x)));
            }
            heap.push(x);
        }
        proof {
            lemma_multiset_empty_len(v@.to_multiset());
            v@.to_multiset_ensures();
            assert(live_keys(heap@).add(v@.to_multiset()) =~= live_keys(heap@));
        }
        heap
    }

    /// Empties the heap into a vector, smallest key first.
    pub fn into_sorted_vec(self) -> (r: Vec<T>)
        requires
            self.wf(),
            obeys_cmp::<T>(),
        ensures
            sorted_keys(r@),
            r@.to_multiset() == live_keys(self@),
    {
        let mut heap = self;
        let mut out: Vec<T> = Vec::new();
        proof {
            out@.to_multiset_ensures();
            lemma_multiset_empty_len(out@.to_multiset());
            assert(out@.to_multiset().add(live_keys(heap@)) =~= live_keys(heap@));
        }
        let mut done = false;
        while !done
            invariant
                obeys_cmp::<T>(),
                heap.wf(),
                sorted_keys(out@),
                out@.to_multiset().add(live_keys(heap@)) == live_keys(self@),
                out@.len() > 0 ==> forall|j: int| occupied(heap@, j) ==> key_le(out@.last(), #[trigger] heap@[j]->Some_0),
                !done ==> live_keys(heap@).len() <= live_keys(self@).len() - out@.len(),
                done ==> live_keys(heap@).len() == 0,
            decreases live_keys(heap@).len(), if done { 0int } else { 1int },
        {
            let ghost before = heap@;
            match heap.pop() {
                None => {
                    done = true;
                },
                Some(k) => {
                    proof {
                        lemma_key_order::<T>();
                        let i = choose|i: int| {
                            &&& occupied(before, i)
                            &&& before[i] == Some(k)
                            &&& heap@ == before.update(i, None)
                            &&& forall|j: int| occupied(before, j) ==> key_le(k, #[trigger] before[j]->Some_0)
                        };
                        lemma_live_keys_update(before, i, None);
                        assert forall|j: int| occupied(heap@, j) implies key_le(k, #[trigger] heap@[j]->Some_0) by {
                            assert(heap@[j] == before[j]);
                            assert(occupied(before, j));
                            assert(key_le(k, before[j]->Some_0));
                        }
                        if out@.len() > 0 {
                            assert(key_le(out@.last(), before[i]->Some_0));
                        }
                        out@.to_multiset_ensures();
                        assert(out@.push(k).to_multiset() == out@.to_multiset().insert(k));
                        assert(out@.to_multiset().insert(k).add(live_keys(before).remove(k)) =~= out@.to_multiset().add(
                            live_keys(before)));
                    }
                    let ghost old_out = out@;
                    out.push(k);
                    proof {
                        assert forall|a: int, b: int| 0 <= a < b < out@.len() implies key_le(out@[a], out@[b]) by {
                            if b < out@.len() - 1 {
                                assert(out@[a] == old_out[a] && out@[b] == old_out[b]);
                            } else if a < b {
                                assert(out@[a] == old_out[a]);
                                assert(key_le(old_out[a], old_out.last()));
                            }
                        }
                    }
                },
            }
        }
        proof {
            lemma_multiset_empty_len(live_keys(heap@));
            assert(out@.to_multiset().add(live_keys(heap@)) =~= out@.to_multiset());
        }
        out
    }
}

impl<T: Ord> Default for FibonacciHeap<T> {
    /// An empty heap.
    fn default() -> (r: FibonacciHeap<T>)
        ensures
            r.wf(),
            r@ == Seq::<Option<T>>::empty(),
    {
        FibonacciHeap::new()
    }
}


/// The link left in an arena slot whose element has gone.
spec fn spare_link(i: int) -> Link {
    Link { left: i as usize, right: i as usize, parent: None, child: None, degree: 0, mark: false }
}

impl<T: Ord> FibonacciHeap<T> {
    /// Every index that a live node holds is in the arena.
    proof fn lemma_live_bounds(h: &Self, x: int)
        requires
            h.wf(),
            occupied(h.keys@, x),
        ensures
            (h.links@[x].left as int) < h.links@.len(),
            (h.links@[x].right as int) < h.links@.len(),
            h.links@[x].parent matches Some(p) ==> (p as int) < h.links@.len(),
            h.links@[x].child matches Some(c) ==> (c as int) < h.links@.len(),
    {
        lemma_unfold(h.keys@, h.links@, h.kids@, h.rank@, h.height@, x);
        match h.links@[x].parent {
            None => {
                assert(h.roots@.contains(x as usize));
                lemma_ring_neighbors(h.links@, h.roots@, x as usize);
                lemma_ring_neighbors(h.links@, h.roots@, h.links@[x].left);
                lemma_ring_neighbors(h.links@, h.roots@, h.links@[x].right);
            },
            Some(p) => {
                lemma_unfold(h.keys@, h.links@, h.kids@, h.rank@, h.height@, p as int);
                lemma_ring_neighbors(h.links@, h.kids@[p as int], x as usize);
                lemma_ring_neighbors(h.links@, h.kids@[p as int], h.links@[x].left);
                lemma_ring_neighbors(h.links@, h.kids@[p as int], h.links@[x].right);
            },
        }
        if let Some(c) = h.links@[x].child {
            lemma_ring_neighbors(h.links@, h.kids@[x], c);
        }
    }

    /// A node of the second heap sits well at its new place `jb + off`.
    proof fn lemma_meld_b_node(b: &Self, h: &Self, off: int, jb: int)
        requires
            b.wf(),
            occupied(b.keys@, jb),
            0 <= off,
            off + b.links@.len() <= usize::MAX,
            h.keys@.len() == off + b.keys@.len(),
            forall|q: int| 0 <= q < b.keys@.len() ==> #[trigger] h.keys@[off + q] == b.keys@[q],
            h.links@.len() == off + b.links@.len(),
            forall|q: int|
                0 <= q < b.links@.len() ==> #[trigger] h.links@[off + q] == if occupied(b.keys@, q) {
                    shift_link(b.links@[q], off)
                } else {
                    spare_link(off + q)
                },
            forall|q: int| 0 <= q < b.kids@.len() ==> #[trigger] h.kids@[off + q] == shift_seq(b.kids@[q], off),
            forall|q: int| 0 <= q < b.rank@.len() ==> #[trigger] h.rank@[off + q] == b.rank@[q],
            h.height@ >= b.height@,
        ensures
            node_ok(h.keys@, h.links@, h.kids@, h.rank@, h.height@, off + jb),
    {
        let j = off + jb;
        lemma_unfold(b.keys@, b.links@, b.kids@, b.rank@, b.height@, jb);
        Self::lemma_live_bounds(b, jb);
        let ks = b.kids@[jb];
        assert(h.kids@[j] == shift_seq(ks, off));
        assert forall|x: usize| #[trigger] ks.contains(x) implies h.links@[x + off].left == b.links@[x as int].left + off
            && h.links@[x + off].right == b.links@[x as int].right + off by {
            assert(occupied(b.keys@, x as int));
            Self::lemma_live_bounds(b, x as int);
            assert(h.links@[off + x] == shift_link(b.links@[x as int], off));
        }
        lemma_ring_shift(b.links@, h.links@, ks, off);
        assert(h.links@[j] == shift_link(b.links@[jb], off));
        assert(occupied(h.keys@, j)) by {
            assert(h.keys@[off + jb] == b.keys@[jb]);
        }
        assert forall|c: usize| #[trigger] h.kids@[j].contains(c) implies occupied(h.keys@, c as int)
            && h.links@[c as int].parent == Some(j as usize) by {
            let cb = (c - off) as usize;
            assert(ks.contains(cb));
            assert(occupied(b.keys@, cb as int));
            assert(h.keys@[off + cb] == b.keys@[cb as int]);
            assert(h.links@[off + cb] == shift_link(b.links@[cb as int], off));
        }
        if let Some(c) = b.links@[jb].child {
            assert(shift_seq(ks, off).contains((c + off) as usize));
        }
        if let Some(p) = b.links@[jb].parent {
            assert(occupied(b.keys@, p as int));
            assert(h.keys@[off + p] == b.keys@[p as int]);
            assert(h.kids@[off + p] == shift_seq(b.kids@[p as int], off));
            lemma_unfold(b.keys@, b.links@, b.kids@, b.rank@, b.height@, p as int);
            lemma_ring_basics(b.links@, b.kids@[p as int]);
            lemma_shift_seq(b.kids@[p as int], off, b.links@.len() as int);
            assert(shift_seq(b.kids@[p as int], off).contains(j as usize));
            assert(key_of(h.keys@, off + p) == key_of(b.keys@, p as int));
            assert(key_of(h.keys@, j) == key_of(b.keys@, jb));
            assert(h.rank@[off + p] == b.rank@[p as int]);
        }
        assert(h.rank@[j] == b.rank@[jb]);
        lemma_fold(h.keys@, h.links@, h.kids@, h.rank@, h.height@, j);
    }
}


impl<T: Ord> FibonacciHeap<T> {
    /// After the second heap's arena is placed behind the first's, the
    /// forest is sound.
    proof fn lemma_meld_forest(a: &Self, b: &Self, h: &Self, off: int)
        requires
            a.wf(),
            b.wf(),
            off == a.keys@.len(),
            off + b.links@.len() <= usize::MAX,
            h.keys@ == a.keys@ + b.keys@,
            h.links@.len() == off + b.links@.len(),
            forall|q: int| 0 <= q < off ==> #[trigger] h.links@[q] == a.links@[q],
            forall|q: int|
                0 <= q < b.links@.len() ==> #[trigger] h.links@[off + q] == if occupied(b.keys@, q) {
                    shift_link(b.links@[q], off)
                } else {
                    spare_link(off + q)
                },
            h.kids@ == a.kids@ + b.kids@.map_values(|ks: Seq<usize>| shift_seq(ks, off)),
            h.rank@ == a.rank@ + b.rank@,
            h.height@ >= a.height@,
            h.height@ >= b.height@,
        ensures
            h.wf_forest(),
    {
        assert forall|q: int| 0 <= q < b.keys@.len() implies #[trigger] h.keys@[off + q] == b.keys@[q] by {}
        assert forall|q: int| 0 <= q < b.kids@.len() implies #[trigger] h.kids@[off + q] == shift_seq(b.kids@[q], off) by {}
        assert forall|q: int| 0 <= q < b.rank@.len() implies #[trigger] h.rank@[off + q] == b.rank@[q] by {}
        assert forall|j: int| #[trigger] occupied(h.keys@, j) implies node_ok(h.keys@, h.links@, h.kids@, h.rank@, h.height@, j) by {
            if j < off {
                assert(h.keys@[j] == a.keys@[j]);
                assert(occupied(a.keys@, j));
                assert(node_ok(a.keys@, a.links@, a.kids@, a.rank@, a.height@, j));
                lemma_unfold(a.keys@, a.links@, a.kids@, a.rank@, a.height@, j);
                assert forall|c: usize| #[trigger] a.kids@[j].contains(c) implies occupied(h.keys@, c as int)
                    && h.links@[c as int].left == a.links@[c as int].left && h.links@[c as int].right
                    == a.links@[c as int].right && h.links@[c as int].parent == a.links@[c as int].parent by {
                    assert(h.keys@[c as int] == a.keys@[c as int]);
                }
                if let Some(p) = a.links@[j].parent {
                    assert(h.keys@[p as int] == a.keys@[p as int]);
                    assert(h.kids@[p as int] == a.kids@[p as int]);
                }
                assert(h.kids@[j] == a.kids@[j]);
                Self::lemma_node_frame(a, h, j);
            } else {
                let jb = j - off;
                assert(h.keys@[off + jb] == b.keys@[jb]);
                Self::lemma_meld_b_node(b, h, off, jb);
            }
        }
    }
}


impl<T: Ord> FibonacciHeap<T> {
    /// Joining the two root lists, and taking the smaller of the two minima,
    /// makes the melded heap well formed.
    #[verifier::rlimit(100)]
    #[verifier::spinoff_prover]
    proof fn lemma_meld_roots(
        a: &Self,
        b: &Self,
        h1: &Self,
        h: &Self,
        off: int,
        ma: usize,
        mb: usize,
        ra: Seq<usize>,
        rb: Seq<usize>,
    )
        requires
            obeys_cmp::<T>(),
            a.wf(),
            b.wf(),
            a.min == Some(ma),
            b.min == Some(mb),
            off == a.keys@.len(),
            off + b.links@.len() <= usize::MAX,
            h1.wf_forest(),
            h1.keys@ == a.keys@ + b.keys@,
            h1.links@.len() == off + b.links@.len(),
            forall|q: int| 0 <= q < off ==> #[trigger] h1.links@[q] == a.links@[q],
            forall|q: int|
                0 <= q < b.links@.len() ==> #[trigger] h1.links@[off + q] == if occupied(b.keys@, q) {
                    shift_link(b.links@[q], off)
                } else {
                    spare_link(off + q)
                },
            ra.len() > 0,
            ra.last() == ma,
            forall|y: usize| #[trigger] ra.contains(y) <==> a.roots@.contains(y),
            rb.len() > 0,
            rb[0] == mb,
            forall|y: usize| #[trigger] rb.contains(y) <==> b.roots@.contains(y),
            forall|y: usize| #[trigger] shift_seq(rb, off).contains(y) <==> (y >= off && rb.contains((y - off) as usize)),
            ring(h.links@, ra + shift_seq(rb, off)),
            h.links@.len() == h1.links@.len(),
            forall|j: int|
                0 <= j < h1.links@.len() ==> same_but_siblings(#[trigger] h.links@[j], h1.links@[j]),
            forall|j: int|
                0 <= j < h1.links@.len() && j != ma && j != mb + off && j != ra[0] && j != shift_seq(rb, off).last()
                    ==> #[trigger] h.links@[j] == h1.links@[j],
            h.keys@ == h1.keys@,
            h.kids@ == h1.kids@,
            h.rank@ == h1.rank@,
            h.height@ == h1.height@,
            h.roots@ == ra + shift_seq(rb, off),
            h.min == if key_lt(key_of(b.keys@, mb as int), key_of(a.keys@, ma as int)) {
                Some((mb + off) as usize)
            } else {
                Some(ma)
            },
            h.n == live_keys(h.keys@).len(),
        ensures
            h.wf(),
    {
        lemma_key_order::<T>();
        let sr = shift_seq(rb, off);
        let nr = ra + sr;
        assert forall|q: int| 0 <= q < b.keys@.len() implies #[trigger] h.keys@[off + q] == b.keys@[q] by {}
        assert forall|q: int| 0 <= q < off implies #[trigger] h.keys@[q] == a.keys@[q] by {}
        // the nodes whose links changed are all roots
        assert(ra.contains(ra[0]));
        assert(rb.contains(rb.last()));
        assert(sr.last() as int == rb.last() as int + off) by {
            assert(sr.contains(sr.last()));
            lemma_ring_basics(h.links@, nr);
            assert(nr[nr.len() - 1] == sr.last());
            assert(sr[sr.len() - 1] == ((rb[rb.len() - 1] + off) as usize));
        }
        assert forall|j: int| occupied(h1.keys@, j) && h1.links@[j].parent is Some implies #[trigger] h.links@[j]
            == h1.links@[j] by {
            if j < off {
                assert(h1.keys@[j] == a.keys@[j]);
                assert(!a.roots@.contains(j as usize));
                assert(!ra.contains(j as usize));
                assert(a.roots@.contains(ma));
            } else {
                let jb = j - off;
                assert(h1.keys@[off + jb] == b.keys@[jb]);
                assert(h1.links@[off + jb] == shift_link(b.links@[jb], off));
                assert(!b.roots@.contains(jb as usize));
                assert(b.roots@.contains(mb));
                assert(b.roots@.contains(rb.last()));
            }
        }
        assert forall|j: int| 0 <= j < h1.links@.len() implies #[trigger] h.kids@[j] == h1.kids@[j]
            && h.rank@[j] == h1.rank@[j] && same_but_siblings(h.links@[j], h1.links@[j]) by {}
        Self::lemma_roots_only_frame(h1, h);
        // the root list
        assert forall|r: usize| #[trigger] nr.contains(r) implies occupied(h.keys@, r as int)
            && h.links@[r as int].parent is None && !h.links@[r as int].mark by {
            let q = choose|q: int| 0 <= q < nr.len() && nr[q] == r;
            if q < ra.len() {
                assert(ra[q] == r);
                assert(ra.contains(r));
                assert(a.roots@.contains(r));
                assert(h.keys@[r as int] == a.keys@[r as int]);
                assert(h1.links@[r as int] == a.links@[r as int]);
            } else {
                assert(sr[q - ra.len()] == r);
                assert(sr.contains(r));
                let rb0 = (r - off) as usize;
                assert(rb.contains(rb0));
                assert(b.roots@.contains(rb0));
                assert(h.keys@[off + rb0] == b.keys@[rb0 as int]);
                assert(h1.links@[off + rb0] == shift_link(b.links@[rb0 as int], off));
            }
            assert(same_but_siblings(h.links@[r as int], h1.links@[r as int]));
        }
        assert forall|j: int| #[trigger] occupied(h.keys@, j) && h.links@[j].parent is None implies nr.contains(
            j as usize,
        ) by {
            assert(same_but_siblings(h.links@[j], h1.links@[j]));
            if j < off {
                assert(h.keys@[j] == a.keys@[j]);
                assert(h1.links@[j] == a.links@[j]);
                assert(occupied(a.keys@, j));
                assert(a.roots@.contains(j as usize));
                assert(ra.contains(j as usize));
                let q = choose|q: int| 0 <= q < ra.len() && ra[q] == j as usize;
                assert(nr[q] == j as usize);
            } else {
                let jb = j - off;
                assert(h.keys@[off + jb] == b.keys@[jb]);
                assert(h1.links@[off + jb] == shift_link(b.links@[jb], off));
                assert(b.roots@.contains(jb as usize));
                assert(rb.contains(jb as usize));
                assert(sr.contains(j as usize));
                let q = choose|q: int| 0 <= q < sr.len() && sr[q] == j as usize;
                assert(nr[ra.len() + q] == j as usize);
            }
        }
        assert(h.wf_roots());
        // the minimum
        let mm = h.min->Some_0;
        assert(nr.contains(mm)) by {
            if mm == ma {
                assert(nr[ra.len() - 1] == ma);
            } else {
                assert(rb.contains(mb));
                assert(sr.contains((mb + off) as usize));
                let q = choose|q: int| 0 <= q < sr.len() && sr[q] == (mb + off) as usize;
                assert(nr[ra.len() + q] == mm);
            }
        }
        assert(a.roots@.contains(ma) && b.roots@.contains(mb));
        assert(h.keys@[ma as int] == a.keys@[ma as int]);
        assert(h.keys@[off + mb] == b.keys@[mb as int]);
        assert forall|j: int| #[trigger] occupied(h.keys@, j) implies key_le(key_of(h.keys@, mm as int), key_of(h.keys@, j)) by {
            if j < off {
                assert(h.keys@[j] == a.keys@[j]);
                assert(occupied(a.keys@, j));
                assert(key_le(key_of(a.keys@, ma as int), key_of(a.keys@, j)));
            } else {
                let jb = j - off;
                assert(h.keys@[off + jb] == b.keys@[jb]);
                assert(occupied(b.keys@, jb));
                assert(key_le(key_of(b.keys@, mb as int), key_of(b.keys@, jb)));
            }
        }
        assert(h.wf_min());
    }
}

} // verus!
