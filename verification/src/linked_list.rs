use vstd::prelude::*;

verus! {

/// One node of a [`LinkedList`]: the value it carries and the handles of its
/// two neighbours, each `None` at an end of the list.
#[derive(Debug)]
pub struct LinkedListNode<T> {
    pub value: T,
    pub prev: Option<usize>,
    pub next: Option<usize>,
}

/// A doubly linked sequence of nodes, all of them stored in one arena.
///
/// A node is addressed by a handle, the index of its slot in the arena. The
/// handle is handed out by [`LinkedList::push`] and stays the same while the
/// node is moved around; it is valid until the node leaves the list. The slot
/// of a node that has left is used again for a later one, so a handle must
/// not be kept beyond its node.
///
/// With a handle, a node is moved to the back, read or given a new value
/// without a walk along the list.
pub struct LinkedList<T> {
    nodes: Vec<Option<LinkedListNode<T>>>,
    free: Vec<usize>,
    head: Option<usize>,
    tail: Option<usize>,
    order: Ghost<Seq<usize>>,
}

impl<T> View for LinkedList<T> {
    type V = Seq<T>;

    /// The values of the list, from the front to the back.
    open spec fn view(&self) -> Seq<T> {
        Seq::new(self.handles().len(), |i: int| self.value_of(self.handles()[i]))
    }
}

/// The sequence `s` after the item at place `i` has been taken out and put at
/// the end. The items around it keep their order.
pub open spec fn moved_to_back<A>(s: Seq<A>, i: int) -> Seq<A> {
    s.remove(i).push(s[i])
}

/// Moving an item to the back keeps the items of a sequence.
pub proof fn lemma_moved_to_back_keeps_items<A>(s: Seq<A>, i: int, x: A)
    requires
        0 <= i < s.len(),
    ensures
        moved_to_back(s, i).contains(x) <==> s.contains(x),
{
    let t = moved_to_back(s, i);
    if s.contains(x) {
        let j = s.index_of(x);
        if j < i {
            assert(t[j] == x);
        } else if j == i {
            assert(t[s.len() - 1] == x);
        } else {
            assert(t[j - 1] == x);
        }
    }
    if t.contains(x) {
        let j = t.index_of(x);
        if j < i {
            assert(s[j] == x);
        } else if j == s.len() - 1 {
            assert(s[i] == x);
        } else {
            assert(s[j + 1] == x);
        }
    }
}

/// The item at place `i` of `s`, or `None` where `s` has no such place.
pub open spec fn neighbour(s: Seq<usize>, i: int) -> Option<usize> {
    if 0 <= i < s.len() {
        Some(s[i])
    } else {
        None
    }
}

impl<T> LinkedList<T> {
    /// The handles of the nodes in the list, from the front to the back.
    pub closed spec fn handles(&self) -> Seq<usize> {
        self.order@
    }

    /// The value carried by the node behind handle `h`.
    pub closed spec fn value_of(&self, h: usize) -> T {
        self.nodes@[h as int]->0.value
    }

    spec fn occupied(&self, s: usize) -> bool {
        s < self.nodes@.len() && self.nodes@[s as int] is Some
    }

    spec fn prev_of(&self, s: usize) -> Option<usize> {
        self.nodes@[s as int]->0.prev
    }

    spec fn next_of(&self, s: usize) -> Option<usize> {
        self.nodes@[s as int]->0.next
    }

    /// The node at place `i` of the sequence sits in the arena, and its links
    /// name its two neighbours in the sequence.
    spec fn linked_at(&self, i: int) -> bool {
        let order = self.order@;
        &&& self.occupied(order[i])
        &&& self.prev_of(order[i]) == neighbour(order, i - 1)
        &&& self.next_of(order[i]) == neighbour(order, i + 1)
    }

    /// The links of the nodes and the two ends of the list describe exactly
    /// the sequence `order`, in which no handle occurs twice.
    spec fn chained(&self) -> bool {
        let order = self.order@;
        &&& order.no_duplicates()
        &&& forall|i: int| 0 <= i < order.len() ==> #[trigger] self.linked_at(i)
        &&& self.head == if order.len() == 0 {
            None
        } else {
            Some(order.first())
        }
        &&& self.tail == if order.len() == 0 {
            None
        } else {
            Some(order.last())
        }
    }

    /// Every slot on the free stack is empty, and no slot is on it twice.
    spec fn free_slots_empty(&self) -> bool {
        &&& self.free@.no_duplicates()
        &&& forall|j: int|
            0 <= j < self.free@.len() ==> (#[trigger] self.free@[j]) < self.nodes@.len()
                && self.nodes@[self.free@[j] as int] is None
    }

    /// The list is well formed but for the node `extra`, if there is one: that
    /// node sits in the arena with both links cleared and is not part of the
    /// sequence.
    spec fn wf_apart_from(&self, extra: Option<usize>) -> bool {
        &&& self.chained()
        &&& self.free_slots_empty()
        &&& forall|s: usize| #[trigger]
            self.occupied(s) ==> self.order@.contains(s) || extra == Some(s)
        &&& extra matches Some(x) ==> {
            &&& self.occupied(x)
            &&& !self.order@.contains(x)
            &&& self.prev_of(x) is None
            &&& self.next_of(x) is None
        }
    }

    /// The invariant of the list: the links, the two ends and the arena agree
    /// on one sequence of distinct handles, and every occupied slot of the
    /// arena belongs to it.
    pub closed spec fn wf(&self) -> bool {
        self.wf_apart_from(None)
    }

    /// `self` is `before` but for the links of the node in slot `s`.
    spec fn relinked(&self, before: Self, s: usize) -> bool {
        &&& self.nodes@.len() == before.nodes@.len()
        &&& forall|t: int|
            0 <= t < self.nodes@.len() && t != s ==> #[trigger] self.nodes@[t] == before.nodes@[t]
        &&& self.occupied(s)
        &&& self.value_of(s) == before.value_of(s)
        &&& self.free == before.free
        &&& self.head == before.head
        &&& self.tail == before.tail
        &&& self.order == before.order
    }

    /// `self` has the arena slots of `before` occupied, each with the value it
    /// had there.
    spec fn same_values(&self, before: Self) -> bool {
        &&& self.nodes@.len() == before.nodes@.len()
        &&& forall|s: usize| #[trigger] self.occupied(s) == before.occupied(s)
        &&& forall|s: usize| #[trigger]
            self.occupied(s) ==> self.value_of(s) == before.value_of(s)
    }

    /// A handle of the sequence names an occupied slot.
    proof fn lemma_listed_is_occupied(&self, g: usize)
        requires
            self.chained(),
            self.order@.contains(g),
        ensures
            self.occupied(g),
    {
        let i = self.order@.index_of(g);
        assert(self.linked_at(i));
    }

    /// The handles of a well-formed list are distinct.
    pub proof fn lemma_handles_distinct(&self)
        requires
            self.wf(),
        ensures
            self.handles().no_duplicates(),
    {
    }

    /// An empty list.
    pub fn new() -> (list: Self)
        ensures
            list.wf(),
            list.handles() == Seq::<usize>::empty(),
            list@ == Seq::<T>::empty(),
    {
        LinkedList {
            nodes: Vec::new(),
            free: Vec::new(),
            head: None,
            tail: None,
            order: Ghost(Seq::empty()),
        }
    }

    /// The two links of the node in slot `s`: backward, then forward.
    fn links(&self, s: usize) -> (r: (Option<usize>, Option<usize>))
        requires
            self.occupied(s),
        ensures
            r.0 == self.prev_of(s),
            r.1 == self.next_of(s),
    {
        match &self.nodes[s] {
            Some(node) => (node.prev, node.next),
            None => (None, None),
        }
    }

    /// Replaces the backward link of the node in slot `s`.
    fn set_prev(&mut self, s: usize, prev: Option<usize>)
        requires
            old(self).occupied(s),
        ensures
            final(self).relinked(*old(self), s),
            final(self).prev_of(s) == prev,
            final(self).next_of(s) == old(self).next_of(s),
    {
        match &mut self.nodes[s] {
            Some(node) => {
                node.prev = prev;
            },
            None => {},
        }
    }

    /// Replaces the forward link of the node in slot `s`.
    fn set_next(&mut self, s: usize, next: Option<usize>)
        requires
            old(self).occupied(s),
        ensures
            final(self).relinked(*old(self), s),
            final(self).prev_of(s) == old(self).prev_of(s),
            final(self).next_of(s) == next,
    {
        match &mut self.nodes[s] {
            Some(node) => {
                node.next = next;
            },
            None => {},
        }
    }

    /// Links the detached node `h` behind the last node of the list and makes
    /// it the new back; in an empty list it becomes the front as well.
    fn set_last_node(&mut self, h: usize)
        requires
            old(self).wf_apart_from(Some(h)),
        ensures
            final(self).wf(),
            final(self).order@ == old(self).order@.push(h),
            final(self).same_values(*old(self)),
            final(self).free == old(self).free,
    {
        let ghost before = self.order@;
        match self.tail {
            Some(t) => {
                proof {
                    assert(self.linked_at(before.len() - 1));
                }
                self.set_prev(h, Some(t));
                self.set_next(t, Some(h));
            },
            None => {
                if self.head.is_none() {
                    self.head = Some(h);
                }
            },
        }
        self.tail = Some(h);
        proof {
            self.order = Ghost(before.push(h));
            let n = before.len() as int;
            assert forall|i: int| 0 <= i <= n implies #[trigger] self.linked_at(i) by {
                if i < n {
                    assert(old(self).linked_at(i));
                    assert(before[i] != h);
                }
            }
            assert forall|s: usize| #[trigger] self.occupied(s) implies self.order@.contains(s) by {
                if s == h {
                    assert(self.order@[n] == s);
                } else {
                    assert(old(self).occupied(s));
                    let i = before.index_of(s);
                    assert(self.order@[i] == s);
                }
            }
        }
    }

    /// Puts a detached node that carries `value` into an empty slot of the
    /// arena, a recycled one if there is any, and returns the slot.
    fn allocate(&mut self, value: T) -> (h: usize)
        requires
            old(self).wf(),
        ensures
            final(self).wf_apart_from(Some(h)),
            final(self).order == old(self).order,
            final(self).value_of(h) == value,
            !old(self).occupied(h),
            forall|s: usize| #[trigger]
                old(self).occupied(s)
                    ==> final(self).occupied(s) && final(self).value_of(s) == old(self).value_of(s),
    {
        let node = LinkedListNode { value, prev: None, next: None };
        let h = match self.free.pop() {
            Some(s) => {
                proof {
                    let top = old(self).free@.len() - 1;
                    assert(old(self).free@[top] == s);
                    assert forall|j: int| 0 <= j < top implies self.free@[j] != s by {
                        assert(self.free@[j] == old(self).free@[j]);
                    }
                }
                self.nodes[s] = Some(node);
                s
            },
            None => {
                self.nodes.push(Some(node));
                self.nodes.len() - 1
            },
        };
        proof {
            assert forall|i: int| 0 <= i < self.order@.len() implies #[trigger]
                self.linked_at(i) by {
                assert(old(self).linked_at(i));
            }
            assert(!self.order@.contains(h)) by {
                if self.order@.contains(h) {
                    old(self).lemma_listed_is_occupied(h);
                }
            }
            assert forall|s: usize| #[trigger] self.occupied(s) implies self.order@.contains(s)
                || s == h by {
                if s != h {
                    assert(old(self).occupied(s));
                }
            }
            assert forall|j: int| 0 <= j < self.free@.len() implies (#[trigger] self.free@[j])
                < self.nodes@.len() && self.nodes@[self.free@[j] as int] is None by {
                assert(self.free@[j] == old(self).free@[j]);
            }
        }
        h
    }

    /// Appends a node that carries `value` at the back of the list and returns
    /// its handle. The handle is none of those in use; every other node keeps
    /// its handle, its value and its place.
    pub fn push(&mut self, value: T) -> (h: usize)
        requires
            old(self).wf(),
        ensures
            final(self).wf(),
            !old(self).handles().contains(h),
            final(self).handles() == old(self).handles().push(h),
            final(self).value_of(h) == value,
            forall|g: usize|
                old(self).handles().contains(g)
                    ==> final(self).value_of(g) == old(self).value_of(g),
            final(self)@ == old(self)@.push(value),
    {
        let h = self.allocate(value);
        let ghost detached = *self;
        self.set_last_node(h);
        proof {
            assert(!old(self).handles().contains(h)) by {
                if old(self).handles().contains(h) {
                    old(self).lemma_listed_is_occupied(h);
                }
            }
            assert(detached.occupied(h) && self.occupied(h));
            assert forall|g: usize| old(self).handles().contains(g) implies self.value_of(g)
                == old(self).value_of(g) by {
                old(self).lemma_listed_is_occupied(g);
                assert(detached.occupied(g) && self.occupied(g));
            }
            assert forall|i: int| 0 <= i < old(self)@.len() implies self@[i] == old(self)@[i] by {
                assert(old(self).handles().contains(old(self).handles()[i]));
            }
        }
        h
    }

    /// Takes the node `h` out of the chain: its neighbours are linked to each
    /// other, the front or the back of the list moves to its neighbour where
    /// `h` was that end, and its own links are cleared. The node stays in the
    /// arena.
    fn unlink(&mut self, h: usize)
        requires
            old(self).wf(),
            old(self).order@.contains(h),
        ensures
            final(self).wf_apart_from(Some(h)),
            final(self).order@ == old(self).order@.remove(old(self).order@.index_of(h)),
            final(self).same_values(*old(self)),
            final(self).free == old(self).free,
    {
        let ghost o = self.order@;
        let ghost i = o.index_of(h);
        proof {
            assert(self.linked_at(i));
            if i > 0 {
                assert(self.linked_at(i - 1));
            }
            if i < o.len() - 1 {
                assert(self.linked_at(i + 1));
            }
        }
        let (prev, next) = self.links(h);
        match prev {
            Some(p) => {
                self.set_next(p, next);
            },
            None => {
                self.head = next;
            },
        }
        match next {
            Some(n) => {
                self.set_prev(n, prev);
            },
            None => {
                self.tail = prev;
            },
        }
        self.set_prev(h, None);
        self.set_next(h, None);
        proof {
            let rest = o.remove(i);
            self.order = Ghost(rest);
            assert forall|j: int| 0 <= j < rest.len() implies #[trigger] self.linked_at(j) by {
                let k = if j < i { j } else { j + 1 };
                assert(rest[j] == o[k]);
                assert(old(self).linked_at(k));
            }
            assert forall|s: usize| #[trigger] self.occupied(s) implies rest.contains(s)
                || s == h by {
                assert(old(self).occupied(s));
                if s != h {
                    let k = o.index_of(s);
                    assert(rest[if k < i { k } else { k - 1 }] == s);
                }
            }
        }
    }

    /// Moves the node `h` to the back of the list. The other nodes keep their
    /// order, and every node keeps its handle and its value. A node that is
    /// at the back already stays where it is.
    pub fn move_to_back(&mut self, h: usize)
        requires
            old(self).wf(),
            old(self).handles().contains(h),
        ensures
            final(self).wf(),
            final(self).handles() == moved_to_back(
                old(self).handles(),
                old(self).handles().index_of(h),
            ),
            forall|g: usize|
                old(self).handles().contains(g)
                    ==> final(self).value_of(g) == old(self).value_of(g),
            final(self)@ == moved_to_back(old(self)@, old(self).handles().index_of(h)),
    {
        let ghost o = self.order@;
        let ghost i = o.index_of(h);
        proof {
            assert(self.linked_at(i));
        }
        let (_, next) = self.links(h);
        if next.is_some() {
            self.unlink(h);
            let ghost detached = *self;
            self.set_last_node(h);
            proof {
                let before = *old(self);
                assert forall|g: usize| o.contains(g) implies self.value_of(g)
                    == before.value_of(g) by {
                    before.lemma_listed_is_occupied(g);
                    assert(detached.occupied(g) && self.occupied(g));
                }
            }
        }
        proof {
            assert(self.order@ =~= moved_to_back(o, i));
            let moved = moved_to_back(old(self)@, i);
            assert forall|j: int| 0 <= j < o.len() implies self@[j] == moved[j] by {
                assert(o.contains(self.order@[j]));
            }
        }
    }

    /// Takes the detached node `h` out of the arena and puts its slot on the
    /// free stack.
    fn release(&mut self, h: usize) -> (value: T)
        requires
            old(self).wf_apart_from(Some(h)),
        ensures
            final(self).wf(),
            final(self).order == old(self).order,
            value == old(self).value_of(h),
            forall|s: usize|
                s != h ==> #[trigger] final(self).occupied(s) == old(self).occupied(s),
            forall|s: usize| #[trigger]
                final(self).occupied(s) ==> final(self).value_of(s) == old(self).value_of(s),
    {
        let node = self.nodes[h].take();
        self.free.push(h);
        proof {
            assert forall|i: int| 0 <= i < self.order@.len() implies #[trigger]
                self.linked_at(i) by {
                assert(old(self).linked_at(i));
            }
            assert forall|s: usize| #[trigger] self.occupied(s) implies self.order@.contains(s) by {
                assert(old(self).occupied(s));
            }
            let top = old(self).free@.len() as int;
            assert forall|j: int| 0 <= j < top implies (#[trigger] self.free@[j]) != h
                && self.nodes@[self.free@[j] as int] is None by {
                assert(self.free@[j] == old(self).free@[j]);
            }
        }
        node.unwrap().value
    }

    /// Takes the node at the front out of the list and returns its handle and
    /// its value, or `None` where the list is empty. The handle is no longer
    /// valid afterwards. The other nodes keep their handles, values and order.
    pub fn remove_front(&mut self) -> (r: Option<(usize, T)>)
        requires
            old(self).wf(),
        ensures
            final(self).wf(),
            r is None <==> old(self).handles().len() == 0,
            r is None ==> final(self).handles() == old(self).handles(),
            r is None ==> final(self)@ == old(self)@,
            r matches Some((h, value)) ==> h == old(self).handles().first(),
            r matches Some((h, value)) ==> value == old(self).value_of(h),
            r is Some ==> final(self).handles() == old(self).handles().drop_first(),
            r is Some ==> final(self)@ == old(self)@.drop_first(),
            forall|g: usize|
                final(self).handles().contains(g)
                    ==> final(self).value_of(g) == old(self).value_of(g),
    {
        match self.head {
            None => None,
            Some(h) => {
                let ghost o = self.order@;
                proof {
                    assert(o[0] == h);
                }
                self.unlink(h);
                let ghost detached = *self;
                let value = self.release(h);
                proof {
                    assert(self.order@ =~= o.drop_first());
                    assert(old(self).occupied(h) && detached.occupied(h));
                    assert forall|g: usize| self.order@.contains(g) implies self.value_of(g)
                        == old(self).value_of(g) by {
                        self.lemma_listed_is_occupied(g);
                        assert(detached.occupied(g));
                    }
                    let rest = old(self)@.drop_first();
                    assert forall|j: int| 0 <= j < self.order@.len() implies self@[j] == rest[j] by {
                        assert(self.order@.contains(self.order@[j]));
                    }
                }
                Some((h, value))
            },
        }
    }

    /// The node behind handle `h`: its value, and as its links the handles of
    /// the nodes before and after it in the list.
    pub fn node(&self, h: usize) -> (node: &LinkedListNode<T>)
        requires
            self.wf(),
            self.handles().contains(h),
        ensures
            node.value == self.value_of(h),
            node.prev == neighbour(self.handles(), self.handles().index_of(h) - 1),
            node.next == neighbour(self.handles(), self.handles().index_of(h) + 1),
    {
        proof {
            self.lemma_listed_is_occupied(h);
            assert(self.linked_at(self.order@.index_of(h)));
        }
        self.nodes[h].as_ref().unwrap()
    }

    /// Replaces the value carried by the node `h`. The node keeps its handle
    /// and its place, and every other node stays as it is.
    pub fn set_value(&mut self, h: usize, value: T)
        requires
            old(self).wf(),
            old(self).handles().contains(h),
        ensures
            final(self).wf(),
            final(self).handles() == old(self).handles(),
            final(self).value_of(h) == value,
            forall|g: usize|
                old(self).handles().contains(g) && g != h
                    ==> final(self).value_of(g) == old(self).value_of(g),
            final(self)@ == old(self)@.update(old(self).handles().index_of(h), value),
    {
        proof {
            self.lemma_listed_is_occupied(h);
        }
        match &mut self.nodes[h] {
            Some(node) => {
                node.value = value;
            },
            None => {},
        }
        proof {
            assert forall|i: int| 0 <= i < self.order@.len() implies #[trigger]
                self.linked_at(i) by {
                assert(old(self).linked_at(i));
            }
            assert forall|s: usize| #[trigger] self.occupied(s) implies self.order@.contains(s) by {
                assert(old(self).occupied(s));
            }
            assert forall|j: int| 0 <= j < self.free@.len() implies (#[trigger] self.free@[j])
                < self.nodes@.len() && self.nodes@[self.free@[j] as int] is None by {
                assert(self.free@[j] == old(self).free@[j]);
            }
            assert forall|g: usize| self.order@.contains(g) && g != h implies self.value_of(g)
                == old(self).value_of(g) by {
                old(self).lemma_listed_is_occupied(g);
            }
            let updated = old(self)@.update(self.order@.index_of(h), value);
            assert forall|j: int| 0 <= j < self.order@.len() implies self@[j] == updated[j] by {
                assert(self.order@.contains(self.order@[j]));
            }
        }
    }
}

} // verus!
