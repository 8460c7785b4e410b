use super::linkage::{
    lemma_linked_empty, lemma_linked_insert, lemma_linked_refl, lemma_push_to_set, linked,
};
use vstd::prelude::*;
use vstd::set_lib::set_int_range;

verus! {

/// Disjoint set
pub struct DisjointSet {
    capacity: usize,
    size: usize,
    parent: Vec<usize>,
    rank: Option<Vec<usize>>,
    /// A height for every element that strictly grows from child to parent.
    height: Ghost<Seq<nat>>,
    /// Every pair handed to `unite` so far, oldest first.
    history: Ghost<Seq<(usize, usize)>>,
}

impl DisjointSet {
    /// The number of elements.
    pub closed spec fn capacity_spec(&self) -> usize {
        self.capacity
    }

    /// Whether union by rank is in use.
    pub closed spec fn rank_enabled(&self) -> bool {
        self.rank is Some
    }

    /// The rank stored for `i`, zero where ranks are not kept.
    pub closed spec fn rank_of(&self, i: usize) -> nat {
        match self.rank {
            Some(rk) => rk@[i as int] as nat,
            None => 0,
        }
    }

    /// The parent pointer of `i`.
    pub closed spec fn parent_of(&self, i: usize) -> usize {
        self.parent@[i as int]
    }

    /// Every pair handed to `unite` so far, oldest first.
    pub closed spec fn history(&self) -> Seq<(usize, usize)> {
        self.history@
    }

    /// A bound on the number of parent pointers between `i` and its root.
    pub closed spec fn climb(&self, i: usize) -> int {
        self.capacity - self.size - self.height@[i as int]
    }

    /// The parent pointers form a forest: the bound shrinks along every
    /// pointer.
    pub closed spec fn forest(&self) -> bool {
        &&& self.size <= self.capacity
        &&& self.parent@.len() == self.capacity
        &&& self.height@.len() == self.capacity
        &&& forall|i: usize|
            #![trigger self.climb(i)]
            #![trigger self.parent@[i as int]]
            i < self.capacity ==> {
                &&& self.parent@[i as int] < self.capacity
                &&& self.climb(i) >= 0
                &&& self.parent@[i as int] != i ==> self.climb(self.parent@[i as int])
                    < self.climb(i)
            }
    }

    /// The root that the parent pointers lead to from `i`.
    pub closed spec fn representative(&self, i: usize) -> usize
        decreases self.climb(i),
        when self.forest() && i < self.capacity_spec()
    {
        if self.parent@[i as int] == i {
            i
        } else {
            self.representative(self.parent@[i as int])
        }
    }

    /// `x` lies on the way from `i` to its root, both ends included.
    pub closed spec fn on_path(&self, i: usize, x: usize) -> bool
        decreases self.climb(i),
        when self.forest() && i < self.capacity_spec()
    {
        x == i || (self.parent@[i as int] != i && self.on_path(self.parent@[i as int], x))
    }

    /// The elements that represent a set.
    pub open spec fn roots(&self) -> Set<int> {
        Set::new(
            |i: int| 0 <= i < self.capacity_spec() && self.representative(i as usize) == i,
        )
    }

    /// The number of disjoint sets.
    pub open spec fn set_count(&self) -> nat {
        self.roots().len()
    }

    /// `a` and `b` are connected by a chain of pairs that were united.
    pub open spec fn same_set(&self, a: usize, b: usize) -> bool {
        linked(self.history().to_set(), a, b)
    }

    spec fn own_roots(&self) -> Set<int> {
        set_int_range(0, self.capacity as int).filter(|i: int| self.parent@[i] == i)
    }

    /// The structure is consistent with the calls that built it.
    pub closed spec fn wf(&self) -> bool {
        &&& self.forest()
        &&& match self.rank {
            Some(rk) => rk@.len() == self.capacity && forall|i: int|
                0 <= i < self.capacity ==> #[trigger] rk@[i] <= self.capacity - self.size,
            None => true,
        }
        &&& self.size == self.own_roots().len()
        &&& forall|k: int|
            0 <= k < self.history@.len() ==> (#[trigger] self.history@[k]).0 < self.capacity
                && self.history@[k].1 < self.capacity
        &&& forall|i: usize, j: usize|
            i < self.capacity && j < self.capacity ==> (self.representative(i)
                == self.representative(j) <==> #[trigger] linked(self.history@.to_set(), i, j))
    }

    proof fn lemma_representative(&self, i: usize)
        requires
            self.forest(),
            i < self.capacity,
        ensures
            self.representative(i) < self.capacity,
            self.parent@[self.representative(i) as int] == self.representative(i),
            self.climb(self.representative(i)) <= self.climb(i),
            self.parent@[i as int] != i ==> self.representative(i) != i,
            self.on_path(i, self.representative(i)),
            self.on_path(i, i),
            self.representative(self.representative(i)) == self.representative(i),
            self.representative(self.parent@[i as int]) == self.representative(i),
        decreases self.climb(i),
    {
        let p = self.parent@[i as int];
        assert(p < self.capacity);
        if p != i {
            self.lemma_representative(p);
        }
    }

    proof fn lemma_own_roots(&self)
        requires
            self.forest(),
        ensures
            self.own_roots() =~= self.roots(),
            self.own_roots().finite(),
    {
        vstd::set_lib::lemma_int_range(0, self.capacity as int);
        assert forall|i: int| self.own_roots().contains(i) <==> self.roots().contains(i) by {
            if 0 <= i < self.capacity {
                self.lemma_representative(i as usize);
            }
        }
    }

    /// Two elements have one representative exactly when a chain of united
    /// pairs connects them; the representative belongs to the set it stands
    /// for and represents itself.
    pub proof fn lemma_representative_linked(&self, a: usize, b: usize)
        requires
            self.wf(),
            a < self.capacity_spec(),
            b < self.capacity_spec(),
        ensures
            self.representative(a) == self.representative(b) <==> self.same_set(a, b),
            self.representative(a) < self.capacity_spec(),
            self.same_set(a, self.representative(a)),
            self.representative(self.representative(a)) == self.representative(a),
            self.parent_of(self.representative(a)) == self.representative(a),
            self.on_path(a, a),
            self.on_path(a, self.representative(a)),
    {
        self.lemma_representative(a);
        assert(linked(self.history@.to_set(), a, b) <==> self.representative(a)
            == self.representative(b));
        assert(linked(self.history@.to_set(), a, self.representative(a)));
    }

    /// The sets are counted by their representatives, of which there are at
    /// most as many as elements.
    pub proof fn lemma_set_count_bounds(&self)
        requires
            self.wf(),
        ensures
            self.roots().finite(),
            self.set_count() <= self.capacity_spec(),
            self.capacity_spec() > 0 ==> self.set_count() >= 1,
    {
        self.lemma_own_roots();
        if self.capacity > 0 {
            self.lemma_representative(0);
            let r = self.representative(0) as int;
            assert(self.roots().contains(r));
            if self.roots().len() == 0 {
                assert(self.roots() =~= Set::empty());
            }
        }
    }

    /// With one set left, every two elements are connected.
    pub proof fn lemma_one_set(&self, a: usize, b: usize)
        requires
            self.wf(),
            self.set_count() == 1,
            a < self.capacity_spec(),
            b < self.capacity_spec(),
        ensures
            self.same_set(a, b),
    {
        self.lemma_own_roots();
        self.lemma_representative(a);
        self.lemma_representative(b);
        let ra = self.representative(a) as int;
        let rb = self.representative(b) as int;
        assert(self.roots().contains(ra));
        assert(self.roots().contains(rb));
        if ra != rb {
            let rest = self.roots().remove(ra);
            assert(rest.contains(rb));
            assert(rest.len() == 0);
            assert(rest =~= Set::empty());
        }
        self.lemma_representative_linked(a, b);
    }

    /// With more than one set left, two elements exist that no chain connects.
    pub proof fn lemma_many_sets(&self) -> (pair: (usize, usize))
        requires
            self.wf(),
            self.set_count() >= 2,
        ensures
            pair.0 < self.capacity_spec(),
            pair.1 < self.capacity_spec(),
            !self.same_set(pair.0, pair.1),
    {
        self.lemma_own_roots();
        let ra = self.roots().choose();
        let rest = self.roots().remove(ra);
        assert(rest.len() >= 1);
        let rb = rest.choose();
        assert(rest.contains(rb));
        self.lemma_representative_linked(ra as usize, rb as usize);
        (ra as usize, rb as usize)
    }

    /// Create a disjoint set with `capacity` elements, each a set of its own.
    /// Union by rank if `enable_rank` is true.
    pub fn new(capacity: usize, enable_rank: bool) -> (s: Self)
        ensures
            s.wf(),
            s.capacity_spec() == capacity,
            s.rank_enabled() == enable_rank,
            s.history() == Seq::<(usize, usize)>::empty(),
            s.set_count() == capacity,
            forall|i: usize|
                i < capacity ==> #[trigger] s.representative(i) == i && s.parent_of(i) == i
                    && s.rank_of(i) == 0,
    {
        let mut parent: Vec<usize> = Vec::with_capacity(capacity);
        let mut i: usize = 0;
        while i < capacity
            invariant
                i <= capacity,
                parent@.len() == i,
                forall|k: int| 0 <= k < i ==> parent@[k] == k,
            decreases capacity - i,
        {
            parent.push(i);
            i += 1;
        }
        let rank = if enable_rank {
            let mut rk: Vec<usize> = Vec::with_capacity(capacity);
            let mut j: usize = 0;
            while j < capacity
                invariant
                    j <= capacity,
                    rk@.len() == j,
                    forall|k: int| 0 <= k < j ==> rk@[k] == 0,
                decreases capacity - j,
            {
                rk.push(0);
                j += 1;
            }
            Some(rk)
        } else {
            None
        };
        let s = DisjointSet {
            capacity,
            size: capacity,
            parent,
            rank,
            height: Ghost(Seq::new(capacity as nat, |k: int| 0nat)),
            history: Ghost(Seq::empty()),
        };
        proof {
            assert(s.forest());
            vstd::set_lib::lemma_int_range(0, capacity as int);
            assert(s.own_roots() =~= set_int_range(0, capacity as int));
            s.lemma_own_roots();
            assert(s.history@.to_set() =~= Set::empty());
            assert forall|a: usize, b: usize| a < capacity && b < capacity implies (
            s.representative(a) == s.representative(b) <==> #[trigger] linked(
                s.history@.to_set(),
                a,
                b,
            )) by {
                if a == b {
                    lemma_linked_refl(s.history@.to_set(), a);
                }
                if linked(s.history@.to_set(), a, b) {
                    lemma_linked_empty(a, b);
                }
            }
        }
        s
    }

    /// Get the number of disjoint sets.
    pub fn len(&self) -> (n: usize)
        requires
            self.wf(),
        ensures
            n == self.set_count(),
    {
        proof {
            self.lemma_own_roots();
        }
        self.size
    }

    /// Get the number of elements.
    pub fn capacity(&self) -> (n: usize)
        ensures
            n == self.capacity_spec(),
    {
        self.capacity
    }

    /// Returns true if the set contains no elements.
    pub fn is_empty(&self) -> (b: bool)
        ensures
            b == (self.capacity_spec() == 0),
    {
        self.capacity == 0
    }

    /// Returns true if all elements are in one set.
    pub fn is_one(&self) -> (b: bool)
        requires
            self.wf(),
        ensures
            b == (self.set_count() == 1),
    {
        proof {
            self.lemma_own_roots();
        }
        self.size == 1
    }

    /// What every state reached from another by `find` keeps.
    pub open spec fn same_sets_as(&self, before: &Self) -> bool {
        &&& self.capacity_spec() == before.capacity_spec()
        &&& self.rank_enabled() == before.rank_enabled()
        &&& self.history() == before.history()
        &&& self.set_count() == before.set_count()
        &&& forall|x: usize|
            x < self.capacity_spec() ==> #[trigger] self.representative(x)
                == before.representative(x)
        &&& forall|x: usize|
            #![trigger self.rank_of(x)]
            #![trigger before.rank_of(x)]
            self.rank_of(x) == before.rank_of(x)
    }

    proof fn lemma_compressed(&self, before: &Self, id: usize, root: usize, x: usize)
        requires
            before.forest(),
            self.forest(),
            id < before.capacity,
            x < before.capacity,
            root == before.representative(id),
            before.parent@[id as int] != id,
            self.capacity == before.capacity,
            forall|y: usize| y < self.capacity ==> self.climb(y) == before.climb(y),
            self.parent@ == before.parent@.update(id as int, root),
        ensures
            self.representative(x) == before.representative(x),
        decreases before.climb(x),
    {
        before.lemma_representative(id);
        before.lemma_representative(x);
        let p = before.parent@[x as int];
        if x == id {
            self.lemma_compressed(before, id, root, root);
        } else if p != x {
            self.lemma_compressed(before, id, root, p);
        }
    }

    /// Get the representation element of `id`'s set. Every element on the way
    /// from `id` to it is attached to it directly.
    pub fn find(&mut self, id: usize) -> (r: usize)
        requires
            old(self).wf(),
            id < old(self).capacity_spec(),
        ensures
            final(self).wf(),
            final(self).same_sets_as(old(self)),
            r == old(self).representative(id),
            r < old(self).capacity_spec(),
            forall|x: usize|
                x < old(self).capacity_spec() ==> final(self).climb(x) == old(self).climb(x),
            forall|x: usize|
                x < old(self).capacity_spec() ==> #[trigger] final(self).parent_of(x) == (if old(
                    self,
                ).on_path(id, x) {
                    r
                } else {
                    old(self).parent_of(x)
                }),
        decreases old(self).climb(id),
    {
        proof {
            self.lemma_representative(id);
        }
        let p = self.parent[id];
        if p == id {
            assert(self.roots() =~= old(self).roots());
            id
        } else {
            let ghost before = *self;
            let root = self.find(p);
            let ghost mid = *self;
            self.parent.set(id, root);
            proof {
                before.lemma_representative(id);
                before.lemma_representative(p);
                mid.lemma_representative(p);
                mid.lemma_representative(id);
                mid.lemma_own_roots();
                assert(mid.representative(p) == root);
                assert(mid.climb(root) <= mid.climb(p));
                assert(before.climb(p) < before.climb(id));
                assert(mid.parent@[id as int] == mid.parent_of(id));
                assert(mid.parent_of(id) != id);
                assert(self.parent@ == mid.parent@.update(id as int, root));
                assert forall|i: usize| i < self.capacity implies {
                    &&& self.parent@[i as int] < self.capacity
                    &&& #[trigger] self.climb(i) >= 0
                    &&& self.parent@[i as int] != i ==> self.climb(self.parent@[i as int])
                        < self.climb(i)
                } by {
                    assert(self.climb(i) == mid.climb(i));
                    assert(mid.climb(i) >= 0);
                    if i != id {
                        assert(self.parent@[i as int] == mid.parent@[i as int]);
                        assert(self.climb(mid.parent@[i as int]) == mid.climb(
                            mid.parent@[i as int],
                        ));
                    } else {
                        assert(self.climb(root) == mid.climb(root));
                    }
                }
                assert(self.forest());
                assert(self.own_roots() =~= mid.own_roots());
                self.lemma_own_roots();
                assert forall|x: usize| x < self.capacity implies #[trigger] self.representative(
                    x,
                ) == before.representative(x) by {
                    self.lemma_compressed(&mid, id, root, x);
                }
                assert(self.roots() =~= before.roots());
                assert forall|x: usize| x < self.capacity implies #[trigger] self.parent_of(x) == (
                if before.on_path(id, x) {
                    root
                } else {
                    before.parent_of(x)
                }) by {
                    assert(mid.parent_of(x) == (if before.on_path(p, x) {
                        root
                    } else {
                        before.parent_of(x)
                    }));
                }
            }
            root
        }
    }

    /// Return whether the two element is in the same set.
    pub fn in_same(&mut self, a: usize, b: usize) -> (r: bool)
        requires
            old(self).wf(),
            a < old(self).capacity_spec(),
            b < old(self).capacity_spec(),
        ensures
            final(self).wf(),
            final(self).same_sets_as(old(self)),
            r == old(self).same_set(a, b),
            r == (old(self).representative(a) == old(self).representative(b)),
    {
        let ra = self.find(a);
        let rb = self.find(b);
        proof {
            old(self).lemma_representative_linked(a, b);
        }
        ra == rb
    }

    /// The representative that stays one when the sets of `a` and `b` are
    /// united: that of `b` where ranks are kept and it has the larger rank,
    /// else that of `a`.
    pub open spec fn winner(&self, a: usize, b: usize) -> usize {
        let (ra, rb) = (self.representative(a), self.representative(b));
        if self.rank_enabled() && self.rank_of(ra) < self.rank_of(rb) {
            rb
        } else {
            ra
        }
    }

    /// The representative that is attached below the other one.
    pub open spec fn loser(&self, a: usize, b: usize) -> usize {
        let (ra, rb) = (self.representative(a), self.representative(b));
        if self.rank_enabled() && self.rank_of(ra) < self.rank_of(rb) {
            ra
        } else {
            rb
        }
    }

    /// The representative of `x` once the sets of `a` and `b` are united.
    pub open spec fn representative_after(&self, a: usize, b: usize, x: usize) -> usize {
        if self.representative(x) == self.loser(a, b) {
            self.winner(a, b)
        } else {
            self.representative(x)
        }
    }

    /// The rank of `x` once the sets of `a` and `b` are united: one more for
    /// the new representative of two distinct sets of equal rank.
    pub open spec fn rank_after(&self, a: usize, b: usize, x: usize) -> nat {
        let (ra, rb) = (self.representative(a), self.representative(b));
        if self.rank_enabled() && ra != rb && x == self.winner(a, b) && self.rank_of(ra)
            == self.rank_of(rb) {
            self.rank_of(x) + 1
        } else {
            self.rank_of(x)
        }
    }

    proof fn lemma_attached(&self, before: &Self, top: usize, low: usize, x: usize)
        requires
            before.forest(),
            self.forest(),
            top < before.capacity,
            low < before.capacity,
            x < before.capacity,
            top != low,
            before.parent@[top as int] == top,
            before.parent@[low as int] == low,
            self.capacity == before.capacity,
            self.parent@ == before.parent@.update(low as int, top),
        ensures
            self.representative(x) == (if before.representative(x) == low {
                top
            } else {
                before.representative(x)
            }),
        decreases before.climb(x),
    {
        before.lemma_representative(x);
        let p = before.parent@[x as int];
        if x == low {
            assert(self.parent@[top as int] == top);
            assert(self.representative(top) == top);
        } else if p != x {
            self.lemma_attached(before, top, low, p);
        }
    }

    /// The representatives after one more pair agree exactly on the elements
    /// that the longer history links.
    proof fn lemma_links_after(&self, a: usize, b: usize, i: usize, j: usize)
        requires
            self.wf(),
            a < self.capacity,
            b < self.capacity,
            i < self.capacity,
            j < self.capacity,
        ensures
            linked(self.history@.to_set().insert((a, b)), i, j) <==> self.representative_after(
                a,
                b,
                i,
            ) == self.representative_after(a, b, j),
    {
        lemma_linked_insert(self.history@.to_set(), a, b, i, j);
        self.lemma_representative_linked(i, j);
        self.lemma_representative_linked(i, a);
        self.lemma_representative_linked(i, b);
        self.lemma_representative_linked(a, j);
        self.lemma_representative_linked(b, j);
        self.lemma_representative_linked(a, b);
    }

    /// The state after a call that found `a` and `b` in one set already.
    proof fn lemma_reunited(&self, before: &Self, a: usize, b: usize)
        requires
            before.wf(),
            a < before.capacity,
            b < before.capacity,
            before.representative(a) == before.representative(b),
            self.capacity == before.capacity,
            self.size == before.size,
            self.parent == before.parent,
            self.rank == before.rank,
            self.height@ == before.height@,
            self.history@ == before.history@.push((a, b)),
        ensures
            self.wf(),
            self.roots() == before.roots(),
            forall|x: usize|
                x < self.capacity ==> #[trigger] self.representative(x) == before.representative(
                    x,
                ),
    {
        lemma_push_to_set(before.history@, (a, b));
        assert forall|i: usize| i < self.capacity implies {
            &&& self.parent@[i as int] < self.capacity
            &&& #[trigger] self.climb(i) >= 0
            &&& self.parent@[i as int] != i ==> self.climb(self.parent@[i as int]) < self.climb(i)
        } by {
            assert(before.climb(i) >= 0);
            assert(self.climb(before.parent@[i as int]) == before.climb(before.parent@[i as int]));
        }
        assert(self.forest());
        assert(self.own_roots() =~= before.own_roots());
        assert forall|x: usize| x < self.capacity implies #[trigger] self.representative(x)
            == before.representative(x) by {
            self.lemma_same_pointers(before, x);
        }
        assert(self.roots() =~= before.roots());
        assert forall|i: usize, j: usize| i < self.capacity && j < self.capacity implies (
        self.representative(i) == self.representative(j) <==> #[trigger] linked(
            self.history@.to_set(),
            i,
            j,
        )) by {
            before.lemma_links_after(a, b, i, j);
        }
    }

    proof fn lemma_same_pointers(&self, before: &Self, x: usize)
        requires
            before.forest(),
            self.forest(),
            x < before.capacity,
            self.capacity == before.capacity,
            self.parent@ == before.parent@,
        ensures
            self.representative(x) == before.representative(x),
        decreases before.climb(x),
    {
        before.lemma_representative(x);
        let p = before.parent@[x as int];
        if p != x {
            self.lemma_same_pointers(before, p);
        }
    }

    /// The state after the root `low` was attached below the root `top`.
    proof fn lemma_united(&self, before: &Self, a: usize, b: usize, top: usize, low: usize)
        requires
            before.wf(),
            a < before.capacity,
            b < before.capacity,
            top == before.winner(a, b),
            low == before.loser(a, b),
            top != low,
            self.capacity == before.capacity,
            self.size == before.size - 1,
            self.parent@ == before.parent@.update(low as int, top),
            self.height@ == before.height@.update(
                top as int,
                if before.height@[top as int] > before.height@[low as int] {
                    before.height@[top as int]
                } else {
                    before.height@[low as int] + 1
                },
            ),
            self.history@ == before.history@.push((a, b)),
            match self.rank {
                Some(rk) => rk@.len() == self.capacity && forall|i: int|
                    0 <= i < self.capacity ==> #[trigger] rk@[i] <= self.capacity - self.size,
                None => true,
            },
        ensures
            self.wf(),
            self.roots() == before.roots().remove(low as int),
            before.roots().contains(low as int),
            before.roots().finite(),
            forall|x: usize|
                x < self.capacity ==> #[trigger] self.representative(x)
                    == before.representative_after(a, b, x),
    {
        lemma_push_to_set(before.history@, (a, b));
        before.lemma_representative(a);
        before.lemma_representative(b);
        before.lemma_own_roots();
        assert forall|i: usize| i < self.capacity implies {
            &&& self.parent@[i as int] < self.capacity
            &&& #[trigger] self.climb(i) >= 0
            &&& self.parent@[i as int] != i ==> self.climb(self.parent@[i as int]) < self.climb(i)
        } by {
            assert(before.climb(i) >= 0);
            assert(before.climb(top) >= 0);
            assert(before.climb(low) >= 0);
            let p = before.parent@[i as int];
            assert(before.climb(p) >= 0);
            if i != top {
                assert(self.climb(i) == before.climb(i) + 1);
            }
            if p != top {
                assert(self.climb(p) == before.climb(p) + 1);
            }
        }
        assert(self.forest());
        assert(self.own_roots() =~= before.own_roots().remove(low as int));
        self.lemma_own_roots();
        assert forall|x: usize| x < self.capacity implies #[trigger] self.representative(x)
            == before.representative_after(a, b, x) by {
            self.lemma_attached(before, top, low, x);
        }
        assert forall|i: usize, j: usize| i < self.capacity && j < self.capacity implies (
        self.representative(i) == self.representative(j) <==> #[trigger] linked(
            self.history@.to_set(),
            i,
            j,
        )) by {
            before.lemma_links_after(a, b, i, j);
        }
    }

    /// Unite `a`'s set and `b`'s set.
    pub fn unite(&mut self, a: usize, b: usize)
        requires
            old(self).wf(),
            a < old(self).capacity_spec(),
            b < old(self).capacity_spec(),
        ensures
            final(self).wf(),
            final(self).capacity_spec() == old(self).capacity_spec(),
            final(self).rank_enabled() == old(self).rank_enabled(),
            final(self).history() == old(self).history().push((a, b)),
            final(self).set_count() == old(self).set_count() - (if old(self).same_set(a, b) {
                0nat
            } else {
                1nat
            }),
            forall|x: usize|
                x < old(self).capacity_spec() ==> #[trigger] final(self).representative(x) == old(
                    self,
                ).representative_after(a, b, x),
            forall|x: usize|
                x < old(self).capacity_spec() ==> #[trigger] final(self).rank_of(x) == old(
                    self,
                ).rank_after(a, b, x),
    {
        let mut top = self.find(a);
        let mut low = self.find(b);
        let ghost before = *self;
        let ghost more = before.history@.push((a, b));
        proof {
            old(self).lemma_representative_linked(a, b);
            before.lemma_representative(a);
            before.lemma_representative(b);
            before.lemma_own_roots();
            old(self).lemma_own_roots();
            assert(before.roots() =~= old(self).roots());
        }
        if top == low {
            self.history = Ghost(more);
            proof {
                self.lemma_reunited(&before, a, b);
            }
            return ;
        }
        assert(before.own_roots().contains(low as int));
        match &mut self.rank {
            Some(rk) => {
                if rk[top] < rk[low] {
                    let t = top;
                    top = low;
                    low = t;
                }
                if rk[top] == rk[low] {
                    let v = rk[top];
                    rk.set(top, v + 1);
                }
            },
            None => {},
        }
        self.parent.set(low, top);
        self.size -= 1;
        self.history = Ghost(more);
        proof {
            let h = before.height@;
            let lifted = if h[top as int] > h[low as int] {
                h[top as int]
            } else {
                h[low as int] + 1
            };
            self.height@ = h.update(top as int, lifted);
            self.lemma_united(&before, a, b, top, low);
        }
    }

} // impl

} // verus!
