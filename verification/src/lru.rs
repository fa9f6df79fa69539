use crate::linked_list::{lemma_moved_to_back_keeps_items, LinkedList};
use crate::model::{
    distinct_keys, entry_size, evicted_to_fit, has_key, lemma_position_unique,
    lemma_total_size_drop_first, lemma_total_size_push, lemma_total_size_remove, lookup,
    over_budget, position, total_size, touched, written, Entries,
};
use vstd::hash_map::StringHashMap;
use vstd::prelude::*;

verus! {

/// A key and the value stored under it.
#[derive(Debug)]
pub struct Entry {
    key: String,
    val: String,
}

impl View for Entry {
    type V = (Seq<char>, Seq<char>);

    /// The key and the value, as texts.
    closed spec fn view(&self) -> (Seq<char>, Seq<char>) {
        (self.key@, self.val@)
    }
}

impl Entry {
    /// The entry that stores `value` under `key`.
    pub fn new(key: String, value: String) -> (entry: Self)
        ensures
            entry@ == (key@, value@),
    {
        Self { key: key, val: value }
    }

    /// The size of the entry in bytes: those of its key plus those of its
    /// value.
    pub fn size(&self) -> (n: u64)
        requires
            entry_size(self@) <= u64::MAX,
        ensures
            n == entry_size(self@),
    {
        let key_bytes: usize = self.key.as_str().as_bytes().len();
        let val_bytes: usize = self.val.as_str().as_bytes().len();
        key_bytes as u64 + val_bytes as u64
    }
}

/// A cache of texts under text keys that holds at most `max_bytes` bytes of
/// keys and values together and, when a write takes it over that budget,
/// evicts the entries that were used least recently. A budget of 0 is no
/// limit.
///
/// The entries stand in a [`LinkedList`] in the order of their last use, and
/// an index by key leads to the node of each. The callback, if there is one,
/// is called with the key and the value of every entry that is evicted.
pub struct LRUCache<F> {
    max_bytes: u64,
    cur_bytes: u64,
    list: LinkedList<Entry>,
    map: StringHashMap<usize>,
    on_evicted: Option<F>,
}

impl<F> View for LRUCache<F> {
    type V = Entries;

    /// The entries of the cache, from the least recently used to the most
    /// recently used.
    closed spec fn view(&self) -> Entries {
        Seq::new(self.list@.len(), |i: int| self.list@[i]@)
    }
}

impl<F: Fn(String, String)> LRUCache<F> {
    /// The budget of the cache in bytes; 0 is no limit.
    pub closed spec fn max_bytes(&self) -> u64 {
        self.max_bytes
    }

    /// The callback that is told of evictions.
    pub closed spec fn callback(&self) -> Option<F> {
        self.on_evicted
    }

    /// The keys that the index holds.
    pub closed spec fn index_keys(&self) -> Set<Seq<char>> {
        self.map@.dom()
    }

    /// The index leads from the key `k`, if it holds it, to a node of the
    /// list whose entry has that key.
    spec fn index_leads_to_node(&self, k: Seq<char>) -> bool {
        self.map@.contains_key(k) ==> {
            &&& self.list.handles().contains(self.map@[k])
            &&& self.list.value_of(self.map@[k])@.0 == k
        }
    }

    /// The index holds the key of the entry at place `i` of the list and
    /// leads from it to the node of that entry.
    spec fn node_is_indexed(&self, i: int) -> bool {
        let h = self.list.handles()[i];
        let k = self.list.value_of(h)@.0;
        self.map@.contains_key(k) && self.map@[k] == h
    }

    /// The invariant of the cache: the index and the list hold the same keys
    /// and the index leads to the node of each, the byte count is the sum of
    /// the sizes of the entries, and the callback takes any key and value.
    pub closed spec fn wf(&self) -> bool {
        &&& self.list.wf()
        &&& forall|k: Seq<char>| #[trigger] self.index_leads_to_node(k)
        &&& forall|i: int| 0 <= i < self.list.handles().len() ==> #[trigger] self.node_is_indexed(i)
        &&& self.cur_bytes == total_size(self@)
        &&& self.on_evicted matches Some(f) ==> forall|k: String, v: String|
            call_requires(f, (k, v))
    }

    /// The cache is within its budget.
    pub open spec fn within_budget(&self) -> bool {
        self.max_bytes() != 0 ==> total_size(self@) <= self.max_bytes()
    }

    /// The callback, if there is one, has been called with the key `key` and
    /// the value `val`, and has returned.
    pub open spec fn notified(&self, key: Seq<char>, val: Seq<char>) -> bool {
        self.callback() matches Some(f) ==> exists|k: String, v: String|
            k@ == key && v@ == val && #[trigger] call_ensures(f, (k, v), ())
    }

    /// An empty cache with the budget `max_bytes`, where 0 is no limit, that
    /// tells `on_evicted` of every eviction.
    pub fn new(max_bytes: u64, on_evicted: Option<F>) -> (cache: Self)
        requires
            on_evicted matches Some(f) ==> forall|k: String, v: String| call_requires(f, (k, v)),
        ensures
            cache.wf(),
            cache@ == Entries::empty(),
            cache.max_bytes() == max_bytes,
            cache.callback() == on_evicted,
    {
        Self {
            max_bytes: max_bytes,
            cur_bytes: 0,
            list: LinkedList::new(),
            map: StringHashMap::new(),
            on_evicted: on_evicted,
        }
    }

    /// The number of bytes that the cache holds: the sum of the sizes of its
    /// entries.
    pub fn cur_bytes(&self) -> (n: u64)
        requires
            self.wf(),
        ensures
            n == total_size(self@),
    {
        self.cur_bytes
    }

    /// The view lists the entries of the nodes in the order of the list.
    proof fn lemma_view(&self)
        ensures
            self@.len() == self.list.handles().len(),
            forall|i: int|
                0 <= i < self@.len() ==> #[trigger] self@[i] == self.list.value_of(
                    self.list.handles()[i],
                )@,
    {
    }

    /// No key stands twice in a well-formed cache.
    pub proof fn lemma_keys_distinct(&self)
        requires
            self.wf(),
        ensures
            distinct_keys(self@),
    {
        self.lemma_view();
        self.list.lemma_handles_distinct();
        assert forall|i: int, j: int| 0 <= i < j < self@.len() implies (#[trigger] self@[i]).0 != (
        #[trigger] self@[j]).0 by {
            assert(self.node_is_indexed(i));
            assert(self.node_is_indexed(j));
        }
    }

    /// Index and list agree: the keys that the index holds are the keys of
    /// the entries in the list.
    pub proof fn lemma_index_matches_list(&self)
        requires
            self.wf(),
        ensures
            forall|k: Seq<char>| self.index_keys().contains(k) <==> has_key(self@, k),
    {
        assert forall|k: Seq<char>| self.index_keys().contains(k) <==> has_key(self@, k) by {
            if self.map@.contains_key(k) {
                self.lemma_indexed_key(k);
            } else {
                self.lemma_missing_key(k);
            }
        }
    }

    /// A key of the index stands in the list, at the place of the node that
    /// the index leads to.
    proof fn lemma_indexed_key(&self, k: Seq<char>)
        requires
            self.wf(),
            self.map@.contains_key(k),
        ensures
            self.list.handles().contains(self.map@[k]),
            has_key(self@, k),
            position(self@, k) == self.list.handles().index_of(self.map@[k]),
            0 <= position(self@, k) < self@.len(),
    {
        self.lemma_view();
        self.lemma_keys_distinct();
        assert(self.index_leads_to_node(k));
        let i = self.list.handles().index_of(self.map@[k]);
        assert(self@[i].0 == k);
        lemma_position_unique(self@, i);
    }

    /// A key that the index does not hold stands nowhere in the list.
    proof fn lemma_missing_key(&self, k: Seq<char>)
        requires
            self.wf(),
            !self.map@.contains_key(k),
        ensures
            !has_key(self@, k),
    {
        self.lemma_view();
        if has_key(self@, k) {
            let i = position(self@, k);
            assert(self.node_is_indexed(i));
        }
    }

    /// The index of `before` fits the list of `self` as well, where that list
    /// has the same nodes, each with the key it had, in whatever order.
    proof fn lemma_index_carries_over(&self, before: Self)
        requires
            before.wf(),
            self.list.wf(),
            self.map@ == before.map@,
            forall|g: usize| #[trigger]
                self.list.handles().contains(g) <==> before.list.handles().contains(g),
            forall|g: usize| #[trigger]
                before.list.handles().contains(g) ==> self.list.value_of(g)@.0
                    == before.list.value_of(g)@.0,
        ensures
            forall|k: Seq<char>| #[trigger] self.index_leads_to_node(k),
            forall|i: int|
                0 <= i < self.list.handles().len() ==> #[trigger] self.node_is_indexed(i),
    {
        assert forall|k: Seq<char>| #[trigger] self.index_leads_to_node(k) by {
            assert(before.index_leads_to_node(k));
        }
        assert forall|i: int| 0 <= i < self.list.handles().len() implies #[trigger]
            self.node_is_indexed(i) by {
            let h = self.list.handles()[i];
            assert(self.list.handles().contains(h));
            assert(before.node_is_indexed(before.list.handles().index_of(h)));
        }
    }

    /// Looks up `key`. On a hit the entry becomes the most recently used one
    /// and a copy of its value is returned; on a miss nothing changes.
    pub fn get(&mut self, key: String) -> (r: Option<String>)
        requires
            old(self).wf(),
        ensures
            final(self).wf(),
            final(self).max_bytes() == old(self).max_bytes(),
            final(self).callback() == old(self).callback(),
            r matches Some(v) ==> lookup(old(self)@, key@) == Some(v@),
            r is None ==> lookup(old(self)@, key@) is None,
            final(self)@ == touched(old(self)@, key@),
            total_size(final(self)@) == total_size(old(self)@),
    {
        let found = match self.map.get(key.as_str()) {
            Some(h) => Some(*h),
            None => None,
        };
        match found {
            Some(h) => {
                let ghost i = self.list.handles().index_of(h);
                proof {
                    self.lemma_indexed_key(key@);
                    self.lemma_view();
                }
                self.list.move_to_back(h);
                proof {
                    let before = *old(self);
                    assert(self.list.handles().contains(h)) by {
                        lemma_moved_to_back_keeps_items(before.list.handles(), i, h);
                    }
                    assert forall|g: usize| #[trigger]
                        self.list.handles().contains(g) <==> before.list.handles().contains(g) by {
                        lemma_moved_to_back_keeps_items(before.list.handles(), i, g);
                    }
                    self.lemma_index_carries_over(before);
                    assert(self@ =~= touched(before@, key@));
                    lemma_total_size_remove(before@, i);
                    lemma_total_size_push(before@.remove(i), before@[i]);
                }
                let value = self.list.node(h).value.val.clone();
                Some(value)
            },
            None => {
                proof {
                    self.lemma_missing_key(key@);
                }
                None
            },
        }
    }

    /// Evicts the least recently used entry: it leaves the list and the
    /// index, its size leaves the byte count, and the callback, if there is
    /// one, is called with its key and its value. An empty cache stays as it
    /// is.
    pub fn remove(&mut self)
        requires
            old(self).wf(),
        ensures
            final(self).wf(),
            final(self).max_bytes() == old(self).max_bytes(),
            final(self).callback() == old(self).callback(),
            old(self)@.len() == 0 ==> final(self)@ == old(self)@,
            old(self)@.len() > 0 ==> final(self)@ == old(self)@.drop_first(),
            old(self)@.len() > 0 ==> final(self).notified(old(self)@[0].0, old(self)@[0].1),
            total_size(final(self)@) <= total_size(old(self)@),
    {
        proof {
            self.lemma_view();
            self.lemma_keys_distinct();
        }
        match self.list.remove_front() {
            Some((_, entry)) => {
                let ghost before = *old(self);
                proof {
                    assert(entry@ == before@[0]);
                    lemma_total_size_drop_first(before@);
                }
                let size = entry.size();
                self.cur_bytes = self.cur_bytes - size;
                self.map.remove(entry.key.as_str());
                proof {
                    self.lemma_view();
                    assert(self@ =~= before@.drop_first());
                    assert forall|k: Seq<char>| #[trigger] self.index_leads_to_node(k) by {
                        assert(before.index_leads_to_node(k));
                        if self.map@.contains_key(k) {
                            let j = before.list.handles().index_of(self.map@[k]);
                            assert(self.list.handles()[j - 1] == self.map@[k]);
                        }
                    }
                    assert forall|i: int| 0 <= i < self.list.handles().len() implies #[trigger]
                        self.node_is_indexed(i) by {
                        assert(before.node_is_indexed(i + 1));
                        assert(self.list.handles().contains(self.list.handles()[i]));
                        assert(before@[0].0 != before@[i + 1].0);
                    }
                }
                match &self.on_evicted {
                    Some(f) => {
                        f(entry.key, entry.val);
                    },
                    None => {},
                }
            },
            None => {
                proof {
                    assert forall|k: Seq<char>| #[trigger] self.index_leads_to_node(k) by {
                        assert(old(self).index_leads_to_node(k));
                    }
                }
            },
        }
    }

    /// Writes `value` over the value of the entry behind `h`, which is the
    /// one with the key `key`, and makes it the most recently used entry.
    fn update(&mut self, h: usize, key: String, value: String)
        requires
            old(self).wf(),
            old(self).map@.contains_key(key@),
            old(self).map@[key@] == h,
            total_size(written(old(self)@, key@, value@)) <= u64::MAX,
        ensures
            final(self).wf(),
            final(self).max_bytes == old(self).max_bytes,
            final(self).on_evicted == old(self).on_evicted,
            final(self)@ == written(old(self)@, key@, value@),
    {
        let ghost before = *old(self);
        let ghost i = before.list.handles().index_of(h);
        let ghost n = before@.len() as int;
        proof {
            before.lemma_indexed_key(key@);
            before.lemma_view();
            lemma_total_size_remove(before@, i);
            lemma_total_size_push(before@.remove(i), before@[i]);
            lemma_total_size_push(before@.remove(i), (key@, value@));
        }
        self.list.move_to_back(h);
        proof {
            lemma_moved_to_back_keeps_items(before.list.handles(), i, h);
            self.list.lemma_handles_distinct();
            assert(self.list.handles()[n - 1] == h);
        }
        let old_size = self.list.node(h).value.size();
        self.cur_bytes = self.cur_bytes - old_size;
        let ghost moved = *self;
        self.list.set_value(h, Entry::new(key, value));
        proof {
            self.lemma_view();
            moved.lemma_view();
            assert(self@ =~= written(before@, key@, value@));
        }
        let new_size = self.list.node(h).value.size();
        self.cur_bytes = self.cur_bytes + new_size;
        proof {
            assert forall|g: usize| #[trigger]
                self.list.handles().contains(g) <==> before.list.handles().contains(g) by {
                lemma_moved_to_back_keeps_items(before.list.handles(), i, g);
            }
            assert forall|g: usize| #[trigger]
                before.list.handles().contains(g) implies self.list.value_of(g)@.0
                == before.list.value_of(g)@.0 by {
                lemma_moved_to_back_keeps_items(before.list.handles(), i, g);
                assert(moved.list.handles().contains(g));
            }
            self.lemma_index_carries_over(before);
        }
    }

    /// Appends an entry that stores `value` under `key`, a key that the cache
    /// does not hold, as the most recently used entry.
    fn insert(&mut self, key: String, value: String)
        requires
            old(self).wf(),
            !old(self).map@.contains_key(key@),
            total_size(written(old(self)@, key@, value@)) <= u64::MAX,
        ensures
            final(self).wf(),
            final(self).max_bytes == old(self).max_bytes,
            final(self).on_evicted == old(self).on_evicted,
            final(self)@ == written(old(self)@, key@, value@),
    {
        let ghost before = *old(self);
        proof {
            before.lemma_missing_key(key@);
            before.lemma_view();
            lemma_total_size_push(before@, (key@, value@));
        }
        let entry = Entry::new(key.clone(), value);
        let size = entry.size();
        let h = self.list.push(entry);
        self.cur_bytes = self.cur_bytes + size;
        self.map.insert(key, h);
        proof {
            self.lemma_view();
            assert(self@ =~= before@.push((key@, value@)));
            let n = before@.len() as int;
            assert(self.list.handles()[n] == h);
            assert forall|k: Seq<char>| #[trigger] self.index_leads_to_node(k) by {
                assert(before.index_leads_to_node(k));
                if self.map@.contains_key(k) && k != key@ {
                    let j = before.list.handles().index_of(self.map@[k]);
                    assert(self.list.handles()[j] == self.map@[k]);
                }
            }
            assert forall|j: int| 0 <= j < n implies #[trigger] self.node_is_indexed(j) by {
                assert(before.node_is_indexed(j));
                assert(before.list.handles().contains(before.list.handles()[j]));
            }
        }
    }

    /// Stores `value` under `key`, as the most recently used entry: a new
    /// entry, or a new value for the entry that the cache has for `key`.
    /// Then, while the cache is over its budget, the least recently used
    /// entry is evicted, and the callback is told of each.
    ///
    /// An entry that alone is over the budget is evicted as well, after all
    /// the others: such a write leaves the cache empty.
    ///
    /// The sum of the sizes after the write, before anything is evicted, has
    /// to fit the byte count, a `u64`.
    pub fn set(&mut self, key: String, value: String)
        requires
            old(self).wf(),
            total_size(written(old(self)@, key@, value@)) <= u64::MAX,
        ensures
            final(self).wf(),
            final(self).max_bytes() == old(self).max_bytes(),
            final(self).callback() == old(self).callback(),
            final(self)@ == evicted_to_fit(
                written(old(self)@, key@, value@),
                old(self).max_bytes(),
            ),
            final(self).within_budget(),
            forall|j: int|
                0 <= j < written(old(self)@, key@, value@).len() - final(self)@.len()
                    ==> final(self).notified(
                    (#[trigger] written(old(self)@, key@, value@)[j]).0,
                    written(old(self)@, key@, value@)[j].1,
                ),
    {
        let found = match self.map.get(key.as_str()) {
            Some(h) => Some(*h),
            None => None,
        };
        let ghost w = written(self@, key@, value@);
        match found {
            Some(h) => {
                self.update(h, key, value);
            },
            None => {
                self.insert(key, value);
            },
        }
        let ghost max = self.max_bytes;
        let ghost callback = self.on_evicted;
        while self.max_bytes != 0 && self.max_bytes < self.cur_bytes
            invariant
                self.wf(),
                self.max_bytes == max,
                self.on_evicted == callback,
                self@.len() <= w.len(),
                self@ == w.skip(w.len() - self@.len()),
                evicted_to_fit(self@, max) == evicted_to_fit(w, max),
                forall|j: int|
                    0 <= j < w.len() - self@.len() ==> self.notified((#[trigger] w[j]).0, w[j].1),
            decreases self@.len(),
        {
            let ghost full = *self;
            self.remove();
            proof {
                let k = w.len() - full@.len();
                assert(over_budget(full@, max) && full@[0] == w[k]);
                assert(self@ =~= w.skip(k + 1));
                assert forall|j: int| 0 <= j <= k implies self.notified((#[trigger] w[j]).0, w[j].1) by {
                    if j < k {
                        assert(full.notified(w[j].0, w[j].1));
                    }
                }
            }
        }
    }
}

} // verus!
