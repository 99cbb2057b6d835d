//! The unidirectional compact map: dense ids of any incrementable type
//! mapped to caller-owned values.
//!
//! No reverse index is kept, so duplicate values are permitted and insertion
//! always allocates. Freed ids go to a recycle bin and are reused
//! most-recently-freed first, exactly as in the bidirectional map.

use crate::incr::Incrementable;
use crate::IdAllocError;
use vstd::prelude::*;

verus! {

/// A map from dense, reusable ids to values, over any id type supplying the
/// [`Incrementable`] capability.
pub struct CompactIdMap<I: Incrementable, K> {
    entries: Vec<(I, K)>,
    recycle_bin: Vec<I>,
    next_new_id: I,
}

/// A plain-value image of a unidirectional map's full state: the id/value
/// entries in no particular order, the freed ids in the order they were
/// freed, and the next fresh id. A hosting system persists this and hands
/// it back to [`CompactIdMap::restore`].
pub struct UniMapSnapshot<I, K> {
    /// The id/value entries, in no particular order.
    pub entries: Vec<(I, K)>,
    /// The freed ids, most recently freed last.
    pub recycle_bin: Vec<I>,
    /// The smallest id never yet allocated.
    pub next_new_id: I,
}

impl<I: Incrementable, K> UniMapSnapshot<I, K> {
    /// The map state this snapshot describes.
    pub closed spec fn as_map_state(self) -> CompactIdMap<I, K> {
        CompactIdMap {
            entries: self.entries,
            recycle_bin: self.recycle_bin,
            next_new_id: self.next_new_id,
        }
    }
}

impl<I: Incrementable, K> CompactIdMap<I, K> {
    /// Whether some stored entry's id stands for the value `v`.
    pub closed spec fn has_id(self, v: int) -> bool {
        exists|j: int|
            0 <= j < self.entries@.len() && (#[trigger] self.entries@[j].0.id_val()) == v
    }

    /// The index of the entry whose id stands for `v`.
    pub closed spec fn idx_of(self, v: int) -> int {
        choose|j: int|
            0 <= j < self.entries@.len() && (#[trigger] self.entries@[j].0.id_val()) == v
    }

    /// The id -> value associations the map holds, keyed by the ids'
    /// mathematical values.
    pub closed spec fn contents(self) -> Map<int, K> {
        Map::new(|v: int| self.has_id(v), |v: int| self.entries@[self.idx_of(v)].1)
    }

    /// The freed ids awaiting reuse, most recently freed last.
    pub closed spec fn bin(self) -> Seq<int> {
        self.recycle_bin@.map_values(|x: I| x.id_val())
    }

    /// The value of the smallest id never yet allocated.
    pub closed spec fn next_id(self) -> int {
        self.next_new_id.id_val()
    }

    /// Whether the next fresh id has a representable successor.
    pub closed spec fn next_has_successor(self) -> bool {
        self.next_new_id.has_next()
    }

    /// The map's internal consistency: stored ids are distinct, freed ids
    /// are distinct and not stored, and every id ever handed out lies below
    /// `next_id`.
    pub closed spec fn well_formed(self) -> bool {
        &&& self.distinct_ids()
        &&& (forall|a: int|
            0 <= a < self.entries@.len() ==> (#[trigger] self.entries@[a].0.id_val())
                < self.next_id())
        &&& (forall|a: int|
            0 <= a < self.recycle_bin@.len() ==> (#[trigger] self.recycle_bin@[a].id_val())
                < self.next_id())
        &&& (forall|a: int, b: int|
            0 <= a < b < self.recycle_bin@.len() ==> (#[trigger] self.recycle_bin@[a].id_val())
                != (#[trigger] self.recycle_bin@[b].id_val()))
        &&& (forall|a: int|
            0 <= a < self.recycle_bin@.len() ==> !self.has_id(
                #[trigger] self.recycle_bin@[a].id_val(),
            ))
    }

    /// Whether the two maps hold the same associations, freed ids and
    /// fresh-id counter.
    pub open spec fn same_state(self, other: Self) -> bool {
        &&& self.contents() == other.contents()
        &&& self.bin() == other.bin()
        &&& self.next_id() == other.next_id()
    }

    /// Whether an allocation can succeed: a freed id is waiting, or the next
    /// fresh id can still advance.
    pub open spec fn can_alloc(self) -> bool {
        self.bin().len() > 0 || self.next_has_successor()
    }

    /// The id value the allocator hands out next: the most recently freed id
    /// when one is waiting, else the next fresh one.
    pub open spec fn fresh_pick(self) -> int {
        if self.bin().len() > 0 {
            self.bin().last()
        } else {
            self.next_id()
        }
    }

    /// The empty association map.
    pub open spec fn empty_contents() -> Map<int, K> {
        Map::empty()
    }

    /// How a successful insertion of value `k` under the id standing for `v`
    /// changes the map.
    pub open spec fn inserted(self, post: Self, v: int, k: K) -> bool {
        &&& self.well_formed()
        &&& post.well_formed()
        &&& v == self.fresh_pick()
        &&& !self.contents().dom().contains(v)
        &&& post.contents() == self.contents().insert(v, k)
        &&& (if self.bin().len() > 0 {
            post.bin() == self.bin().drop_last() && post.next_id() == self.next_id()
        } else {
            post.bin() == self.bin() && post.next_id() == self.next_id() + 1
        })
    }

    /// How a successful removal of the id standing for `v` changes the map.
    pub open spec fn removed(self, post: Self, v: int) -> bool {
        &&& self.well_formed()
        &&& post.well_formed()
        &&& self.contents().dom().contains(v)
        &&& post.contents() == self.contents().remove(v)
        &&& post.bin() == self.bin().push(v)
        &&& post.next_id() == self.next_id()
    }

    /// An empty map whose first fresh id is the id type's zero.
    pub fn new() -> (r: Self)
        ensures
            r.well_formed(),
            r.contents() == Self::empty_contents(),
            r.bin() == Seq::<int>::empty(),
            r.next_id() == 0,
    {
        let r = CompactIdMap { entries: Vec::new(), recycle_bin: Vec::new(), next_new_id: I::zero() };
        proof {
            assert(r.contents() =~= Self::empty_contents());
            assert(r.bin() =~= Seq::<int>::empty());
        }
        r
    }

    /// The index holding the entry for `id`, or nothing when no entry's id
    /// stands for the same value.
    fn find_idx(&self, id: I) -> (r: Option<usize>)
        ensures
            r matches Some(j) ==> j < self.entries@.len() && self.entries@[j as int].0.id_val()
                == id.id_val(),
            r is None ==> !self.has_id(id.id_val()),
    {
        let mut j: usize = 0;
        while j < self.entries.len()
            invariant
                j <= self.entries@.len(),
                forall|t: int|
                    0 <= t < j ==> (#[trigger] self.entries@[t].0.id_val()) != id.id_val(),
            decreases self.entries@.len() - j,
        {
            if self.entries[j].0.id_eq(&id) {
                return Some(j);
            }
            j += 1;
        }
        None
    }

    /// An entry's index pins the association its id contributes to the
    /// map's contents.
    proof fn lemma_idx_determines_contents(self, j: int)
        requires
            self.well_formed(),
            0 <= j < self.entries@.len(),
        ensures
            self.has_id(self.entries@[j].0.id_val()),
            self.idx_of(self.entries@[j].0.id_val()) == j,
            self.contents().dom().contains(self.entries@[j].0.id_val()),
            self.contents()[self.entries@[j].0.id_val()] == self.entries@[j].1,
    {
        let v = self.entries@[j].0.id_val();
        assert(self.has_id(v));
        let idx = self.idx_of(v);
        assert(0 <= idx < self.entries@.len() && self.entries@[idx].0.id_val() == v);
        if idx != j {
            assert(self.entries@[idx].0.id_val() != self.entries@[j].0.id_val());
        }
    }

    /// Direct lookup by id: a reference to the stored value, or nothing when
    /// the id is not live. Never mutates.
    pub fn get(&self, id: I) -> (r: Option<&K>)
        requires
            self.well_formed(),
        ensures
            r matches Some(v) ==> self.contents().dom().contains(id.id_val()) && *v
                == self.contents()[id.id_val()],
            r is None ==> !self.contents().dom().contains(id.id_val()),
    {
        match self.find_idx(id) {
            Some(j) => {
                proof {
                    self.lemma_idx_determines_contents(j as int);
                }
                Some(&self.entries[j].1)
            },
            None => None,
        }
    }

    /// How the map relates to a later state reached through the mutable
    /// reference `get_mut` hands out: the entry for `v` now holds `x`, and
    /// everything else is as it was.
    pub closed spec fn value_slot_updated(self, post: Self, v: int, x: K) -> bool {
        &&& post.entries@ == self.entries@.update(
            self.idx_of(v),
            (self.entries@[self.idx_of(v)].0, x),
        )
        &&& post.recycle_bin@ == self.recycle_bin@
        &&& post.next_new_id == self.next_new_id
    }

    /// What a write through `get_mut`'s reference does to the model: the
    /// value under `v` is replaced and nothing else moves.
    pub proof fn lemma_value_slot_updated(pre: Self, post: Self, v: int, x: K)
        requires
            pre.well_formed(),
            pre.contents().dom().contains(v),
            pre.value_slot_updated(post, v, x),
        ensures
            post.well_formed(),
            post.contents() == pre.contents().insert(v, x),
            post.bin() == pre.bin(),
            post.next_id() == pre.next_id(),
    {
        let j = pre.idx_of(v);
        assert(pre.has_id(v));
        assert(0 <= j < pre.entries@.len() && pre.entries@[j].0.id_val() == v);
        assert forall|a: int| 0 <= a < post.entries@.len() implies (
        #[trigger] post.entries@[a].0) == pre.entries@[a].0 by {
            if a != j {
                assert(post.entries@[a] == pre.entries@[a]);
            }
        }
        assert forall|w: int| #[trigger] post.has_id(w) implies pre.has_id(w) by {
            let t = choose|i: int|
                0 <= i < post.entries@.len() && (#[trigger] post.entries@[i].0.id_val()) == w;
            assert(pre.entries@[t].0.id_val() == w);
        }
        assert forall|w: int| #[trigger] pre.has_id(w) implies post.has_id(w) by {
            let t = choose|i: int|
                0 <= i < pre.entries@.len() && (#[trigger] pre.entries@[i].0.id_val()) == w;
            assert(post.entries@[t].0.id_val() == w);
        }
        assert forall|w: int| #[trigger]
            post.has_id(w) implies post.contents()[w] == pre.contents().insert(v, x)[w] by {
            let t = post.idx_of(w);
            assert(0 <= t < post.entries@.len() && post.entries@[t].0.id_val() == w);
            let s = pre.idx_of(w);
            assert(pre.has_id(w));
            assert(0 <= s < pre.entries@.len() && pre.entries@[s].0.id_val() == w);
            if s != t {
                assert(pre.entries@[s].0.id_val() != pre.entries@[t].0.id_val());
            }
            if w == v {
                if t != j {
                    assert(pre.entries@[t].0.id_val() != pre.entries@[j].0.id_val());
                }
                assert(post.contents()[w] == x);
            } else {
                assert(t != j);
                assert(post.entries@[t] == pre.entries@[t]);
                assert(post.contents()[w] == pre.entries@[s].1);
            }
        }
        assert(post.contents() =~= pre.contents().insert(v, x));
        assert(post.bin() =~= pre.bin());
    }

    /// Direct mutable access by id: a mutable reference to the stored value,
    /// or nothing when the id is not live. A write through the reference
    /// replaces the stored value and nothing else, as
    /// [`Self::lemma_value_slot_updated`] states.
    pub fn get_mut(&mut self, id: I) -> (r: Option<&mut K>)
        requires
            old(self).well_formed(),
        ensures
            r is None ==> !old(self).contents().dom().contains(id.id_val()) && *final(self)
                == *old(self),
            r is Some ==> old(self).contents().dom().contains(id.id_val()) && *r.unwrap() == old(
                self,
            ).contents()[id.id_val()] && old(self).value_slot_updated(
                *final(self),
                id.id_val(),
                *final(r.unwrap()),
            ),
    {
        match self.find_idx(id) {
            Some(j) => {
                proof {
                    self.lemma_idx_determines_contents(j as int);
                }
                Some(&mut self.entries[j].1)
            },
            None => None,
        }
    }

    /// Pops the most recently freed id, or mints a fresh one and advances
    /// the counter; fails only when no freed id waits and the counter cannot
    /// advance.
    fn fresh_id(&mut self) -> (r: Result<I, IdAllocError>)
        requires
            old(self).well_formed(),
        ensures
            final(self).well_formed(),
            final(self).entries@ == old(self).entries@,
            old(self).can_alloc() ==> (r matches Ok(id) && id.id_val() == old(self).fresh_pick()),
            old(self).bin().len() > 0 ==> final(self).bin() == old(self).bin().drop_last()
                && final(self).next_id() == old(self).next_id(),
            old(self).bin().len() == 0 && old(self).next_has_successor() ==> final(self).bin()
                == old(self).bin() && final(self).next_id() == old(self).next_id() + 1,
            !old(self).can_alloc() ==> r == Err::<I, IdAllocError>(IdAllocError::Exhausted)
                && final(self).bin() == old(self).bin() && final(self).next_id() == old(
                self,
            ).next_id(),
            r matches Ok(id) ==> !old(self).has_id(id.id_val()) && !final(self).bin().contains(
                id.id_val(),
            ) && id.id_val() < final(self).next_id(),
    {
        match self.recycle_bin.pop() {
            Some(id) => {
                proof {
                    let pre = *old(self);
                    assert(pre.recycle_bin@[pre.recycle_bin@.len() - 1].id_val() == id.id_val());
                    assert(id.id_val() == pre.bin().last());
                    assert(!pre.has_id(id.id_val()));
                    assert(self.bin() =~= pre.bin().drop_last());
                    assert forall|t: int|
                        0 <= t < self.bin().len() implies self.bin()[t] != id.id_val() by {
                        assert(pre.recycle_bin@[t].id_val() != pre.recycle_bin@[pre.recycle_bin@.len()
                            - 1].id_val());
                    }
                }
                Ok(id)
            },
            None => {
                proof {
                    assert(self.bin() =~= old(self).bin());
                }
                match self.next_new_id.next() {
                    Some(n) => {
                        let id = self.next_new_id;
                        self.next_new_id = n;
                        proof {
                            let pre = *old(self);
                            assert(self.bin() =~= pre.bin());
                            assert forall|t: int|
                                0 <= t < self.bin().len() implies self.bin()[t] != id.id_val() by {
                                assert(pre.recycle_bin@[t].id_val() < pre.next_id());
                            }
                            assert(!pre.has_id(id.id_val())) by {
                                if pre.has_id(id.id_val()) {
                                    let w = choose|j: int|
                                        0 <= j < pre.entries@.len() && (#[trigger] pre.entries@[j].0.id_val())
                                            == id.id_val();
                                    assert(pre.entries@[w].0.id_val() < pre.next_id());
                                }
                            }
                        }
                        Ok(id)
                    },
                    None => Err(IdAllocError::Exhausted),
                }
            },
        }
    }

    /// Pushing one fresh entry extends the contents by exactly that
    /// association.
    proof fn lemma_push_entry_contents(pre: Self, post: Self, id: I, k: K)
        requires
            pre.distinct_ids(),
            !pre.has_id(id.id_val()),
            post.entries@ == pre.entries@.push((id, k)),
        ensures
            post.contents() == pre.contents().insert(id.id_val(), k),
    {
        let v = id.id_val();
        let n = pre.entries@.len();
        assert(post.entries@[n as int].0.id_val() == v);
        assert forall|w: int| #[trigger]
            post.has_id(w) implies pre.has_id(w) || w == v by {
            let t = choose|j: int|
                0 <= j < post.entries@.len() && (#[trigger] post.entries@[j].0.id_val()) == w;
            if t < n {
                assert(pre.entries@[t].0.id_val() == w);
            }
        }
        assert forall|w: int| pre.has_id(w) implies #[trigger] post.has_id(w) by {
            let t = choose|j: int|
                0 <= j < pre.entries@.len() && (#[trigger] pre.entries@[j].0.id_val()) == w;
            assert(post.entries@[t].0.id_val() == w);
        }
        assert(post.has_id(v));
        assert forall|w: int| #[trigger] post.has_id(w) implies post.contents()[w]
            == pre.contents().insert(v, k)[w] by {
            let t = post.idx_of(w);
            assert(0 <= t < post.entries@.len() && post.entries@[t].0.id_val() == w);
            if w == v {
                if t < n {
                    assert(pre.entries@[t].0.id_val() == v);
                    assert(pre.has_id(v));
                }
                assert(t == n);
                assert(post.contents()[w] == k);
            } else {
                assert(t < n);
                assert(pre.entries@[t].0.id_val() == w);
                assert(pre.has_id(w));
                let s = pre.idx_of(w);
                assert(0 <= s < pre.entries@.len() && pre.entries@[s].0.id_val() == w);
                if s != t {
                    assert(pre.entries@[s].0.id_val() != pre.entries@[t].0.id_val());
                }
                assert(post.contents()[w] == post.entries@[t].1);
                assert(post.entries@[t] == pre.entries@[t]);
                assert(pre.contents()[w] == pre.entries@[s].1);
            }
        }
        assert(post.contents() =~= pre.contents().insert(v, k));
    }

    /// Whether all stored ids are pairwise distinct.
    pub closed spec fn distinct_ids(self) -> bool {
        forall|a: int, b: int|
            0 <= a < b < self.entries@.len() ==> (#[trigger] self.entries@[a].0.id_val()) != (
            #[trigger] self.entries@[b].0.id_val())
    }

    /// Inserts a value under a freshly allocated id and returns the id;
    /// reports an exhausted id space as an explicit error, leaving the map
    /// unchanged.
    pub fn insert(&mut self, k: K) -> (r: Result<I, IdAllocError>)
        requires
            old(self).well_formed(),
        ensures
            final(self).well_formed(),
            old(self).can_alloc() ==> (r matches Ok(id) && id.id_val() == old(self).fresh_pick()
                && old(self).inserted(*final(self), id.id_val(), k)),
            !old(self).can_alloc() ==> r == Err::<I, IdAllocError>(IdAllocError::Exhausted) && old(
                self,
            ).same_state(*final(self)),
    {
        let id = match self.fresh_id() {
            Ok(id) => id,
            Err(e) => {
                proof {
                    assert(self.contents() =~= old(self).contents());
                }
                return Err(e);
            },
        };
        let ghost mid = *self;
        self.entries.push((id, k));
        proof {
            Self::lemma_push_entry_contents(mid, *self, id, k);
            assert(mid.contents() =~= old(self).contents());
            assert(!old(self).contents().dom().contains(id.id_val()));
            assert forall|a: int, b: int|
                0 <= a < b < self.entries@.len() implies (#[trigger] self.entries@[a].0.id_val())
                != (#[trigger] self.entries@[b].0.id_val()) by {
                if b == self.entries@.len() - 1 {
                    assert(self.entries@[a] == mid.entries@[a]);
                    if mid.entries@[a].0.id_val() == id.id_val() {
                        assert(mid.has_id(id.id_val()));
                    }
                }
            }
            assert forall|a: int|
                0 <= a < self.recycle_bin@.len() implies !self.has_id(
                #[trigger] self.recycle_bin@[a].id_val(),
            ) by {
                if self.has_id(self.recycle_bin@[a].id_val()) {
                    let w = self.recycle_bin@[a].id_val();
                    let t = choose|j: int|
                        0 <= j < self.entries@.len() && (#[trigger] self.entries@[j].0.id_val())
                            == w;
                    if t < self.entries@.len() - 1 {
                        assert(mid.entries@[t].0.id_val() == w);
                        assert(mid.has_id(w));
                        assert(mid.bin()[a] == w);
                    } else {
                        assert(mid.bin()[a] == w);
                        assert(mid.bin().contains(w));
                    }
                }
            }
        }
        Ok(id)
    }

    /// Removing the entry at one index removes exactly its association from
    /// the contents.
    proof fn lemma_swap_remove_contents(pre: Self, post: Self, j: int)
        requires
            pre.distinct_ids(),
            0 <= j < pre.entries@.len(),
            post.entries@ == pre.entries@.update(j, pre.entries@.last()).drop_last(),
        ensures
            post.contents() == pre.contents().remove(pre.entries@[j].0.id_val()),
            !post.has_id(pre.entries@[j].0.id_val()),
            forall|w: int| #[trigger] post.has_id(w) ==> pre.has_id(w),
    {
        let v = pre.entries@[j].0.id_val();
        let n = pre.entries@.len();
        assert forall|w: int| #[trigger]
            post.has_id(w) implies pre.has_id(w) && w != v by {
            let t = choose|i: int|
                0 <= i < post.entries@.len() && (#[trigger] post.entries@[i].0.id_val()) == w;
            if t == j {
                assert(post.entries@[t] == pre.entries@[n - 1]);
                assert(pre.entries@[n - 1].0.id_val() == w);
                if j < n - 1 {
                    assert(pre.entries@[j].0.id_val() != pre.entries@[n - 1].0.id_val());
                }
            } else {
                assert(post.entries@[t] == pre.entries@[t]);
                assert(pre.entries@[t].0.id_val() == w);
                if w == v && t != j {
                    assert(pre.entries@[t].0.id_val() != pre.entries@[j].0.id_val());
                }
            }
        }
        assert forall|w: int| pre.has_id(w) && w != v implies #[trigger] post.has_id(w) by {
            let t = choose|i: int|
                0 <= i < pre.entries@.len() && (#[trigger] pre.entries@[i].0.id_val()) == w;
            if t == n - 1 {
                if j < n - 1 {
                    assert(post.entries@[j].0.id_val() == w);
                }
            } else {
                if t == j {
                    assert(pre.entries@[j].0.id_val() == v);
                } else {
                    assert(post.entries@[t].0.id_val() == w);
                }
            }
        }
        assert forall|w: int| #[trigger] post.has_id(w) implies post.contents()[w]
            == pre.contents()[w] by {
            let t = post.idx_of(w);
            assert(0 <= t < post.entries@.len() && post.entries@[t].0.id_val() == w);
            let s = pre.idx_of(w);
            assert(pre.has_id(w));
            assert(0 <= s < pre.entries@.len() && pre.entries@[s].0.id_val() == w);
            if t == j {
                assert(post.entries@[t] == pre.entries@[n - 1]);
                assert(pre.entries@[n - 1].0.id_val() == w);
                if s != n - 1 {
                    assert(pre.entries@[s].0.id_val() != pre.entries@[n - 1].0.id_val());
                }
                assert(post.contents()[w] == pre.entries@[s].1);
            } else {
                assert(post.entries@[t] == pre.entries@[t]);
                if s != t {
                    assert(pre.entries@[s].0.id_val() != pre.entries@[t].0.id_val());
                }
                assert(post.contents()[w] == pre.entries@[s].1);
            }
        }
        assert(post.contents() =~= pre.contents().remove(v));
    }

    /// Removes a live id's entry, recycling the id and returning the stored
    /// value; returns nothing, without side effects, for an id that is not
    /// live.
    pub fn remove_id(&mut self, id: I) -> (r: Option<K>)
        requires
            old(self).well_formed(),
        ensures
            final(self).well_formed(),
            old(self).contents().dom().contains(id.id_val()) ==> (r matches Some(k) && k == old(
                self,
            ).contents()[id.id_val()] && old(self).removed(*final(self), id.id_val())),
            !old(self).contents().dom().contains(id.id_val()) ==> r == None::<K> && old(
                self,
            ).same_state(*final(self)),
    {
        match self.find_idx(id) {
            Some(j) => {
                proof {
                    self.lemma_idx_determines_contents(j as int);
                }
                let pair = self.entries.swap_remove(j);
                let ghost mid = *self;
                self.recycle_bin.push(id);
                proof {
                    Self::lemma_swap_remove_contents(*old(self), mid, j as int);
                    assert(self.entries@ == mid.entries@);
                    assert(self.contents() =~= mid.contents());
                    assert(self.bin() =~= old(self).bin().push(id.id_val()));
                    let pre = *old(self);
                    assert forall|a: int, b: int|
                        0 <= a < b < self.recycle_bin@.len() implies (
                    #[trigger] self.recycle_bin@[a].id_val()) != (
                    #[trigger] self.recycle_bin@[b].id_val()) by {
                        if b == self.recycle_bin@.len() - 1 {
                            assert(self.recycle_bin@[b].id_val() == id.id_val());
                            assert(pre.recycle_bin@[a].id_val() != id.id_val()) by {
                                if pre.recycle_bin@[a].id_val() == id.id_val() {
                                    assert(!pre.has_id(pre.recycle_bin@[a].id_val()));
                                    assert(pre.has_id(id.id_val()));
                                }
                            }
                        }
                    }
                    assert forall|a: int|
                        0 <= a < self.recycle_bin@.len() implies !self.has_id(
                        #[trigger] self.recycle_bin@[a].id_val(),
                    ) by {
                        if a < pre.recycle_bin@.len() {
                            assert(!pre.has_id(pre.recycle_bin@[a].id_val()));
                            if self.has_id(self.recycle_bin@[a].id_val()) {
                                assert(pre.has_id(self.recycle_bin@[a].id_val()));
                            }
                        } else {
                            assert(self.recycle_bin@[a].id_val() == id.id_val());
                            assert(!mid.has_id(pre.entries@[j as int].0.id_val()));
                        }
                    }
                    assert(pre.entries@[j as int].0.id_val() == id.id_val());
                }
                Some(pair.1)
            },
            None => {
                proof {
                    assert(!old(self).contents().dom().contains(id.id_val()));
                }
                None
            },
        }
    }

    /// Turns the map into a plain-value image of its full state, fit to
    /// persist: restoring it yields the very same map, as
    /// [`Self::lemma_snapshot_restore_round_trip`] states.
    pub fn into_snapshot(self) -> (s: UniMapSnapshot<I, K>)
        ensures
            s.as_map_state() == self,
            self.well_formed() ==> s.as_map_state().well_formed(),
    {
        let CompactIdMap { entries, recycle_bin, next_new_id } = self;
        UniMapSnapshot { entries, recycle_bin, next_new_id }
    }

    /// Rebuilds a map from a snapshot, checking that the snapshot describes
    /// a state a well-formed map can be in; a consistent snapshot is always
    /// accepted and reproduces the described state exactly.
    pub fn restore(s: UniMapSnapshot<I, K>) -> (r: Option<Self>)
        ensures
            r matches Some(m) ==> m == s.as_map_state() && m.well_formed(),
            s.as_map_state().well_formed() ==> r is Some,
    {
        let ghost target = s.as_map_state();
        let n = s.entries.len();
        let mut i: usize = 0;
        while i < n
            invariant
                n == s.entries@.len(),
                i <= n,
                target == s.as_map_state(),
                forall|a: int, b: int|
                    0 <= a < b < i ==> (#[trigger] s.entries@[a].0.id_val()) != (
                    #[trigger] s.entries@[b].0.id_val()),
                forall|a: int|
                    0 <= a < i ==> (#[trigger] s.entries@[a].0.id_val())
                        < s.next_new_id.id_val(),
            decreases n - i,
        {
            if !s.entries[i].0.id_lt(&s.next_new_id) {
                proof {
                    if target.well_formed() {
                        assert(target.entries@[i as int].0.id_val() < target.next_id());
                    }
                }
                return None;
            }
            let mut j: usize = 0;
            while j < i
                invariant
                    n == s.entries@.len(),
                    j <= i < n,
                    target == s.as_map_state(),
                    forall|t: int|
                        0 <= t < j ==> (#[trigger] s.entries@[t].0.id_val())
                            != s.entries@[i as int].0.id_val(),
                decreases i - j,
            {
                if s.entries[j].0.id_eq(&s.entries[i].0) {
                    proof {
                        if target.well_formed() {
                            assert(target.entries@[j as int].0.id_val()
                                != target.entries@[i as int].0.id_val());
                        }
                    }
                    return None;
                }
                j += 1;
            }
            i += 1;
        }
        let m = s.recycle_bin.len();
        let mut b: usize = 0;
        while b < m
            invariant
                n == s.entries@.len(),
                m == s.recycle_bin@.len(),
                b <= m,
                target == s.as_map_state(),
                forall|a: int, c: int|
                    0 <= a < c < n ==> (#[trigger] s.entries@[a].0.id_val()) != (
                    #[trigger] s.entries@[c].0.id_val()),
                forall|a: int|
                    0 <= a < n ==> (#[trigger] s.entries@[a].0.id_val())
                        < s.next_new_id.id_val(),
                forall|a: int, c: int|
                    0 <= a < c < b ==> (#[trigger] s.recycle_bin@[a].id_val()) != (
                    #[trigger] s.recycle_bin@[c].id_val()),
                forall|a: int|
                    0 <= a < b ==> (#[trigger] s.recycle_bin@[a].id_val())
                        < s.next_new_id.id_val(),
                forall|a: int, c: int|
                    0 <= a < b && 0 <= c < n ==> (#[trigger] s.recycle_bin@[a].id_val()) != (
                    #[trigger] s.entries@[c].0.id_val()),
            decreases m - b,
        {
            if !s.recycle_bin[b].id_lt(&s.next_new_id) {
                proof {
                    if target.well_formed() {
                        assert(target.recycle_bin@[b as int].id_val() < target.next_id());
                    }
                }
                return None;
            }
            let mut j: usize = 0;
            while j < b
                invariant
                    m == s.recycle_bin@.len(),
                    j <= b < m,
                    target == s.as_map_state(),
                    forall|t: int|
                        0 <= t < j ==> (#[trigger] s.recycle_bin@[t].id_val())
                            != s.recycle_bin@[b as int].id_val(),
                decreases b - j,
            {
                if s.recycle_bin[j].id_eq(&s.recycle_bin[b]) {
                    proof {
                        if target.well_formed() {
                            assert(target.recycle_bin@[j as int].id_val()
                                != target.recycle_bin@[b as int].id_val());
                        }
                    }
                    return None;
                }
                j += 1;
            }
            let mut t: usize = 0;
            while t < n
                invariant
                    n == s.entries@.len(),
                    m == s.recycle_bin@.len(),
                    t <= n,
                    b < m,
                    target == s.as_map_state(),
                    forall|u: int|
                        0 <= u < t ==> (#[trigger] s.entries@[u].0.id_val())
                            != s.recycle_bin@[b as int].id_val(),
                decreases n - t,
            {
                if s.entries[t].0.id_eq(&s.recycle_bin[b]) {
                    proof {
                        if target.well_formed() {
                            assert(!target.has_id(target.recycle_bin@[b as int].id_val()));
                            assert(target.entries@[t as int].0.id_val()
                                == target.recycle_bin@[b as int].id_val());
                            assert(target.has_id(target.recycle_bin@[b as int].id_val()));
                        }
                    }
                    return None;
                }
                t += 1;
            }
            b += 1;
        }
        let UniMapSnapshot { entries, recycle_bin, next_new_id } = s;
        let rebuilt = CompactIdMap { entries, recycle_bin, next_new_id };
        proof {
            assert(rebuilt == target);
            assert forall|a: int|
                0 <= a < rebuilt.recycle_bin@.len() implies !rebuilt.has_id(
                #[trigger] rebuilt.recycle_bin@[a].id_val(),
            ) by {
                if rebuilt.has_id(rebuilt.recycle_bin@[a].id_val()) {
                    let w = choose|w: int|
                        0 <= w < rebuilt.entries@.len() && (#[trigger] rebuilt.entries@[w].0.id_val())
                            == rebuilt.recycle_bin@[a].id_val();
                }
            }
            assert(rebuilt.well_formed());
        }
        Some(rebuilt)
    }

    /// Persistence round trip: a map restored from the snapshot it was
    /// turned into is that very map, so the same operations performed after
    /// the restore hand out the same ids as if nothing had happened.
    pub proof fn lemma_snapshot_restore_round_trip(m: Self, s: UniMapSnapshot<I, K>, m2: Self)
        requires
            m.well_formed(),
            s.as_map_state() == m,
            m2 == s.as_map_state(),
        ensures
            m2 == m,
            m2.same_state(m),
    {
    }

    /// A successful insertion hands out an id value that was not live
    /// before, and the live id values afterward are exactly the old ones
    /// plus it.
    pub proof fn lemma_inserted_fresh(pre: Self, post: Self, v: int, k: K)
        requires
            pre.inserted(post, v, k),
        ensures
            !pre.contents().dom().contains(v),
            post.contents().dom() == pre.contents().dom().insert(v),
    {
        assert(post.contents().dom() =~= pre.contents().dom().insert(v));
    }

    /// Across a removal-free run of insertions, an id value handed out
    /// earlier is still live in every later state.
    proof fn lemma_insert_chain_keeps_ids(
        states: Seq<Self>,
        vals: Seq<int>,
        ks: Seq<K>,
        i: int,
        j: int,
    )
        requires
            states.len() == vals.len() + 1,
            ks.len() == vals.len(),
            forall|t: int|
                0 <= t < vals.len() ==> #[trigger] states[t].inserted(
                    states[t + 1],
                    vals[t],
                    ks[t],
                ),
            0 <= i < j <= vals.len(),
        ensures
            states[j].contents().dom().contains(vals[i]),
        decreases j - i,
    {
        if j == i + 1 {
            Self::lemma_inserted_fresh(states[i], states[j], vals[i], ks[i]);
        } else {
            Self::lemma_insert_chain_keeps_ids(states, vals, ks, i, j - 1);
            assert(states[j - 1].inserted(states[j - 1 + 1], vals[j - 1], ks[j - 1]));
            Self::lemma_inserted_fresh(states[j - 1], states[j], vals[j - 1], ks[j - 1]);
        }
    }

    /// Uniqueness: for any run of insertions with no removals in between,
    /// the returned ids stand for pairwise distinct values.
    pub proof fn lemma_inserts_give_distinct_ids(states: Seq<Self>, vals: Seq<int>, ks: Seq<K>)
        requires
            states.len() == vals.len() + 1,
            ks.len() == vals.len(),
            forall|t: int|
                0 <= t < vals.len() ==> #[trigger] states[t].inserted(
                    states[t + 1],
                    vals[t],
                    ks[t],
                ),
        ensures
            forall|i: int, j: int| 0 <= i < j < vals.len() ==> vals[i] != vals[j],
    {
        assert forall|i: int, j: int| 0 <= i < j < vals.len() implies vals[i] != vals[j] by {
            Self::lemma_insert_chain_keeps_ids(states, vals, ks, i, j);
            Self::lemma_inserted_fresh(states[j], states[j + 1], vals[j], ks[j]);
        }
    }

    /// Round trip: immediately after inserting value `k`, looking the
    /// returned id up yields `k`.
    pub proof fn lemma_insert_round_trip(pre: Self, post: Self, v: int, k: K)
        requires
            pre.inserted(post, v, k),
        ensures
            post.contents().dom().contains(v),
            post.contents()[v] == k,
    {
    }

    /// Immediate LIFO reuse: the insertion performed right after a removal,
    /// with no other removal in between, hands the freed id out again.
    pub proof fn lemma_remove_then_insert_reuses_id(
        pre: Self,
        mid: Self,
        post: Self,
        v: int,
        v2: int,
        k: K,
    )
        requires
            pre.removed(mid, v),
            mid.inserted(post, v2, k),
        ensures
            v2 == v,
    {
        assert(mid.bin().last() == v);
    }
}

} // verus!
