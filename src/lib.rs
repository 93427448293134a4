//! A generational slot map: values are stored in reusable slots and reached
//! through handles that carry the slot's index and its generation, so that a
//! handle to a removed value never reaches a later occupant of its slot.
use vstd::prelude::*;

verus! {

/// A handle to a stored value: the slot that holds it and the generation the
/// slot had when the value was inserted.
#[derive(Clone, Copy, Debug, PartialEq, Eq, Structural)]
pub struct Key {
    pub index: usize,
    pub generation: u32,
}

/// What one slot looks like from outside: its generation, and the value it
/// holds, if it is occupied.
pub struct SlotView<T> {
    pub generation: u32,
    pub value: Option<T>,
}

enum Entry<T> {
    Free { next_free: usize },
    Occupied { value: T },
}

struct GenEntry<T> {
    entry: Entry<T>,
    generation: u32,
}

/// The store. Free slots form a singly linked list threaded through the
/// storage itself, starting at `free_head`; `free_head == data.len()` means
/// that the list is empty and the next insert appends a slot.
pub struct GenVec<T> {
    data: Vec<GenEntry<T>>,
    free_head: usize,
    len: usize,
    /// The free slots in list order, starting at `free_head`.
    free_order: Ghost<Seq<int>>,
}

impl<T> GenEntry<T> {
    spec fn view_slot(self) -> SlotView<T> {
        SlotView {
            generation: self.generation,
            value: match self.entry {
                Entry::Occupied { value } => Some(value),
                Entry::Free { .. } => None,
            },
        }
    }
}

impl<T> View for GenVec<T> {
    type V = Seq<SlotView<T>>;

    /// The slots, by index.
    closed spec fn view(&self) -> Seq<SlotView<T>> {
        self.data@.map_values(|e: GenEntry<T>| e.view_slot())
    }
}

impl<T> GenVec<T> {
    /// The free slots, in the order in which inserts will reuse them.
    pub closed spec fn free_list(self) -> Seq<int> {
        self.free_order@
    }

    /// The value that `key` reaches, if it is live.
    pub open spec fn lookup(self, key: Key) -> Option<T> {
        if key.index < self@.len() && self@[key.index as int].generation == key.generation {
            self@[key.index as int].value
        } else {
            None
        }
    }

    /// `key` reaches a stored value.
    pub open spec fn contains(self, key: Key) -> bool {
        self.lookup(key) is Some
    }

    /// All live handles.
    pub open spec fn live_keys(self) -> Set<Key> {
        Set::new(|key: Key| self.contains(key))
    }

    /// The handle that the next insert returns: the head of the free list,
    /// or a new slot at the end.
    pub open spec fn next_key(self) -> Key {
        if self.free_list().len() > 0 {
            let i = self.free_list()[0];
            Key { index: i as usize, generation: self@[i].generation }
        } else {
            Key { index: self@.len() as usize, generation: 0 }
        }
    }

    /// What an insert of `value` does: it returns `next_key()`, fills that
    /// slot with `value` and keeps its generation, taking the slot off the
    /// free list or appending it.
    pub open spec fn insert_step(self, value: T, next: Self, key: Key) -> bool {
        &&& key == self.next_key()
        &&& if self.free_list().len() > 0 {
            let i = self.free_list()[0];
            &&& next@ == self@.update(
                i,
                SlotView { generation: self@[i].generation, value: Some(value) },
            )
            &&& next.free_list() == self.free_list().drop_first()
        } else {
            &&& next@ == self@.push(SlotView { generation: 0, value: Some(value) })
            &&& next.free_list() == self.free_list()
        }
    }

    /// What a removal of `key` does: when `key` is live, its slot is freed,
    /// its generation goes up by one, and it becomes the head of the free
    /// list; otherwise nothing changes.
    pub open spec fn remove_step(self, key: Key, next: Self) -> bool {
        if self.contains(key) {
            &&& next@ == self@.update(
                key.index as int,
                SlotView { generation: (key.generation + 1) as u32, value: None },
            )
            &&& next.free_list() == seq![key.index as int] + self.free_list()
        } else {
            &&& next@ == self@
            &&& next.free_list() == self.free_list()
        }
    }

    spec fn entry_links(self, j: int) -> bool {
        let i = self.free_order@[j];
        let next = if j + 1 < self.free_order@.len() {
            self.free_order@[j + 1]
        } else {
            self.data@.len() as int
        };
        self.data@[i].entry == Entry::<T>::Free { next_free: next as usize }
    }

    /// The store's invariant: the free list runs through exactly the free
    /// slots, each once, and `len` counts the live handles.
    pub closed spec fn wf(self) -> bool {
        let order = self.free_order@;
        let n = self.data@.len();
        &&& self.free_head == (if order.len() > 0 { order[0] } else { n as int })
        &&& order.no_duplicates()
        &&& forall|j: int| 0 <= j < order.len() ==> 0 <= #[trigger] order[j] < n
        &&& forall|j: int| 0 <= j < order.len() ==> #[trigger] self.entry_links(j)
        &&& forall|i: int|
            0 <= i < n && (#[trigger] self.data@[i]).entry is Free ==> order.contains(i)
        &&& self.len + order.len() == n
        &&& self.live_keys().finite()
        &&& self.len == self.live_keys().len()
    }

    /// An empty store.
    pub fn new() -> (r: Self)
        ensures
            r.wf(),
            r@ == Seq::<SlotView<T>>::empty(),
            r.free_list() == Seq::<int>::empty(),
            r.live_keys() == Set::<Key>::empty(),
    {
        let r = GenVec { data: Vec::new(), free_head: 0, len: 0, free_order: Ghost(Seq::empty()) };
        assert(r.live_keys() =~= Set::empty());
        r
    }

    /// Stores `value` in the slot at the head of the free list (the one freed
    /// last), or in a new slot at the end when none is free, and returns the
    /// handle that reaches it. A reused slot keeps its generation.
    pub fn insert(&mut self, value: T) -> (key: Key)
        requires
            old(self).wf(),
            old(self).free_list().len() == 0 ==> old(self)@.len() < usize::MAX,
        ensures
            final(self).wf(),
            old(self).insert_step(value, *final(self), key),
    {
        let key = if self.free_head < self.data.len() {
            let index = self.free_head;
            let generation = self.data[index].generation;
            proof {
                assert(old(self).entry_links(0));
            }
            // the invariant rules out an occupied slot at the head of the free list
            let next_free = match &self.data[index].entry {
                Entry::Free { next_free } => *next_free,
                Entry::Occupied { .. } => vstd::pervasive::unreached(),
            };
            self.data.set(index, GenEntry { entry: Entry::Occupied { value }, generation });
            self.free_head = next_free;
            self.free_order = Ghost(self.free_order@.drop_first());
            Key { index, generation }
        } else {
            let index = self.data.len();
            self.data.push(GenEntry { entry: Entry::Occupied { value }, generation: 0 });
            self.free_head = index + 1;
            Key { index, generation: 0 }
        };
        self.len = self.len + 1;
        proof {
            let pre = *old(self);
            let order = self.free_order@;
            assert(self@ =~= pre@.update(key.index as int, SlotView { generation: key.generation, value: Some(value) })
                || self@ =~= pre@.push(SlotView { generation: 0, value: Some(value) }));
            assert forall|j: int| 0 <= j < order.len() implies #[trigger] self.entry_links(j) by {
                assert(pre.entry_links(j + 1));
            }
            assert forall|i: int|
                0 <= i < self.data@.len() && (#[trigger] self.data@[i]).entry is Free implies order.contains(i) by {
                let k = choose|k: int| 0 <= k < pre.free_order@.len() && pre.free_order@[k] == i;
                assert(order[k - 1] == i);
            }
            assert(!pre.live_keys().contains(key));
            assert(self.live_keys() =~= pre.live_keys().insert(key));
        }
        key
    }

    /// The value that `key` reaches, or `None` when its slot is free or has
    /// moved on to a later generation. `key` must name a slot of this store.
    pub fn get(&self, key: &Key) -> (r: Option<&T>)
        requires
            key.index < self@.len(),
        ensures
            r == (if self.contains(*key) { Some(&self.lookup(*key).unwrap()) } else { None }),
    {
        let slot = &self.data[key.index];
        if let Entry::Occupied { value } = &slot.entry {
            if slot.generation == key.generation {
                return Some(value);
            }
        }
        None
    }

    /// Removes the value that `key` reaches, freeing its slot for reuse;
    /// does nothing when `key` is not live. `key` must name a slot of this
    /// store, and a live key's generation must have room to grow.
    pub fn remove(&mut self, key: &Key)
        requires
            old(self).wf(),
            key.index < old(self)@.len(),
            old(self).contains(*key) ==> key.generation < u32::MAX,
        ensures
            final(self).wf(),
            old(self).remove_step(*key, *final(self)),
    {
        let index = key.index;
        let generation = self.data[index].generation;
        let occupied = matches!(self.data[index].entry, Entry::Occupied { .. });
        if occupied && generation == key.generation {
            proof {
                let pre = *old(self);
                assert(pre.live_keys().contains(*key));
                assert(pre.live_keys().remove(*key).len() + 1 == pre.live_keys().len());
            }
            let next_free = self.free_head;
            self.data.set(
                index,
                GenEntry { entry: Entry::Free { next_free }, generation: generation + 1 },
            );
            self.free_head = index;
            self.free_order = Ghost(seq![index as int] + self.free_order@);
            self.len = self.len - 1;
            proof {
                let pre = *old(self);
                let order = self.free_order@;
                assert(self@ =~= pre@.update(
                    index as int,
                    SlotView { generation: (key.generation + 1) as u32, value: None },
                ));
                assert forall|j: int| 0 <= j < pre.free_order@.len() implies
                    #[trigger] pre.free_order@[j] != index by {
                    assert(pre.entry_links(j));
                }
                assert forall|j: int| 0 <= j < order.len() implies #[trigger] self.entry_links(j) by {
                    if j > 0 {
                        assert(pre.entry_links(j - 1));
                    }
                }
                assert forall|i: int|
                    0 <= i < self.data@.len() && (#[trigger] self.data@[i]).entry is Free implies order.contains(i) by {
                    if i != index {
                        let k = choose|k: int| 0 <= k < pre.free_order@.len() && pre.free_order@[k] == i;
                        assert(order[k + 1] == i);
                    } else {
                        assert(order[0] == i);
                    }
                }
                assert(self.live_keys() =~= pre.live_keys().remove(*key));
            }
        }
    }

    /// The number of live handles.
    pub fn len(&self) -> (r: usize)
        requires
            self.wf(),
        ensures
            r == self.live_keys().len(),
    {
        self.len
    }

    /// Round trip: the handle that an insert returns reaches the inserted
    /// value.
    pub proof fn lemma_get_after_insert(pre: Self, value: T, post: Self, key: Key)
        requires
            pre.wf(),
            pre.insert_step(value, post, key),
        ensures
            post.contains(key),
            post.lookup(key) == Some(value),
    {
    }

    /// After a removal, the removed handle reaches nothing.
    pub proof fn lemma_get_after_remove(pre: Self, key: Key, post: Self)
        requires
            pre.remove_step(key, post),
        ensures
            post.lookup(key) is None,
    {
    }

    /// Removing a handle a second time changes nothing.
    pub proof fn lemma_remove_twice(pre: Self, key: Key, mid: Self, post: Self)
        requires
            pre.remove_step(key, mid),
            mid.remove_step(key, post),
        ensures
            post@ == mid@,
            post.free_list() == mid.free_list(),
            post.live_keys() == mid.live_keys(),
    {
        assert(!mid.contains(key));
    }

    /// Insert, remove, insert: the second insert reuses the slot of the
    /// first under a new generation, so the first handle reaches nothing and
    /// the second reaches the second value. (A removal needs room for the
    /// generation to grow, as `remove` requires.)
    pub proof fn lemma_slot_reuse(
        s0: Self,
        a: T,
        s1: Self,
        h1: Key,
        s2: Self,
        b: T,
        s3: Self,
        h2: Key,
    )
        requires
            s0.wf(),
            s0.insert_step(a, s1, h1),
            h1.generation < u32::MAX,
            s1.remove_step(h1, s2),
            s2.insert_step(b, s3, h2),
        ensures
            h2.index == h1.index,
            h2.generation != h1.generation,
            s3.lookup(h1) is None,
            s3.lookup(h2) == Some(b),
    {
        Self::lemma_get_after_insert(s0, a, s1, h1);
        assert(s2.free_list()[0] == h1.index as int);
    }

    /// An insert adds its handle to the live handles, which did not hold it
    /// before; together with `len`, the count goes up by one.
    pub proof fn lemma_live_keys_after_insert(pre: Self, value: T, post: Self, key: Key)
        requires
            pre.wf(),
            pre.insert_step(value, post, key),
        ensures
            !pre.live_keys().contains(key),
            post.live_keys() == pre.live_keys().insert(key),
            post.live_keys().len() == pre.live_keys().len() + 1,
    {
        if pre.free_list().len() > 0 {
            assert(pre.entry_links(0));
        }
        assert(post.live_keys() =~= pre.live_keys().insert(key));
    }

    /// A removal takes exactly the removed handle out of the live handles;
    /// together with `len`, the count goes down by one when it was live.
    pub proof fn lemma_live_keys_after_remove(pre: Self, key: Key, post: Self)
        requires
            pre.wf(),
            pre.remove_step(key, post),
        ensures
            post.live_keys() == pre.live_keys().remove(key),
            post.live_keys().len() == (if pre.contains(key) {
                pre.live_keys().len() - 1
            } else {
                pre.live_keys().len() as int
            }),
    {
        assert(post.live_keys() =~= pre.live_keys().remove(key));
    }

    /// Removing one handle does not change what any other handle reaches.
    pub proof fn lemma_remove_keeps_others(pre: Self, key: Key, post: Self, other: Key)
        requires
            pre.remove_step(key, post),
            other != key,
        ensures
            post.lookup(other) == pre.lookup(other),
    {
    }
}

} // verus!
