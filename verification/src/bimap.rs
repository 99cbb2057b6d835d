//! The bidirectional compact map: owned string keys <-> dense `usize` ids.
//!
//! Both directions are kept as one consistent unit. Freed ids go to a
//! recycle bin and are reused most-recently-freed first, so the live id
//! space stays dense.

use crate::table::{
    id_str_get, id_str_insert, id_str_new, id_str_remove, str_id_get, str_id_insert, str_id_new,
    str_id_pairs, str_id_remove, IdStrTable, StrIdTable,
};
use crate::{IdAllocError, ID};
use vstd::prelude::*;

verus! {

/// A plain-value image of a bidirectional map's full state: the key/id
/// associations in no particular order, the freed ids in the order they
/// were freed, and the next fresh id. A hosting system persists this and
/// hands it back to [`CompactIdBiMap::restore`].
pub struct BiMapSnapshot {
    /// The key/id associations, in no particular order.
    pub pairs: Vec<(String, usize)>,
    /// The freed ids, most recently freed last.
    pub recycle_bin: Vec<usize>,
    /// The smallest id never yet allocated.
    pub next_new_id: usize,
}

/// The forward associations that a sequence of key/id pairs describes,
/// later pairs winning.
pub open spec fn pairs_as_map(pairs: Seq<(Seq<char>, usize)>) -> Map<Seq<char>, usize>
    decreases pairs.len(),
{
    if pairs.len() == 0 {
        Map::empty()
    } else {
        pairs_as_map(pairs.drop_last()).insert(pairs.last().0, pairs.last().1)
    }
}

/// A key is associated by `pairs_as_map` exactly when some pair holds it.
proof fn lemma_pairs_as_map_dom(pairs: Seq<(Seq<char>, usize)>)
    ensures
        forall|k: Seq<char>| #[trigger]
            pairs_as_map(pairs).dom().contains(k) ==> exists|i: int|
                0 <= i < pairs.len() && (#[trigger] pairs[i]).0 == k,
        forall|i: int|
            0 <= i < pairs.len() ==> pairs_as_map(pairs).dom().contains((#[trigger] pairs[i]).0),
    decreases pairs.len(),
{
    if pairs.len() > 0 {
        lemma_pairs_as_map_dom(pairs.drop_last());
        assert forall|k: Seq<char>| #[trigger]
            pairs_as_map(pairs).dom().contains(k) implies exists|i: int|
            0 <= i < pairs.len() && (#[trigger] pairs[i]).0 == k by {
            if k == pairs.last().0 {
                assert(pairs[pairs.len() - 1].0 == k);
            } else {
                assert(pairs_as_map(pairs.drop_last()).dom().contains(k));
                let i = choose|i: int|
                    0 <= i < pairs.drop_last().len() && (#[trigger] pairs.drop_last()[i]).0 == k;
                assert(pairs[i].0 == k);
            }
        }
        assert forall|i: int| 0 <= i < pairs.len() implies pairs_as_map(pairs).dom().contains(
            (#[trigger] pairs[i]).0,
        ) by {
            if i < pairs.len() - 1 {
                assert(pairs.drop_last()[i] == pairs[i]);
                assert(pairs_as_map(pairs.drop_last()).dom().contains(pairs.drop_last()[i].0));
            } else {
                assert(pairs[i] == pairs.last());
            }
        }
    }
}

/// With pairwise distinct keys, `pairs_as_map` associates each pair's key
/// with that pair's id.
proof fn lemma_pairs_as_map_value(pairs: Seq<(Seq<char>, usize)>, i: int)
    requires
        0 <= i < pairs.len(),
        forall|a: int, b: int|
            0 <= a < b < pairs.len() ==> (#[trigger] pairs[a]).0 != (#[trigger] pairs[b]).0,
    ensures
        pairs_as_map(pairs).dom().contains(pairs[i].0),
        pairs_as_map(pairs)[pairs[i].0] == pairs[i].1,
    decreases pairs.len(),
{
    if i == pairs.len() - 1 {
        assert(pairs.last() == pairs[i]);
    } else {
        lemma_pairs_as_map_value(pairs.drop_last(), i);
        assert(pairs.drop_last()[i] == pairs[i]);
        assert(pairs[i].0 != pairs[pairs.len() - 1].0);
    }
}

impl BiMapSnapshot {
    /// The key/id pairs, with keys as character sequences.
    pub open spec fn pairs_view(self) -> Seq<(Seq<char>, usize)> {
        self.pairs@.map_values(|p: (String, usize)| (p.0@, p.1))
    }

    /// Whether the snapshot describes a state a well-formed map can be in:
    /// keys and ids pairwise distinct, freed ids pairwise distinct and not
    /// associated, and every id below the next fresh one.
    pub open spec fn valid(self) -> bool {
        &&& (forall|i: int, j: int|
            0 <= i < j < self.pairs_view().len() ==> (#[trigger] self.pairs_view()[i]).0 != (
            #[trigger] self.pairs_view()[j]).0)
        &&& (forall|i: int, j: int|
            0 <= i < j < self.pairs_view().len() ==> (#[trigger] self.pairs_view()[i]).1 != (
            #[trigger] self.pairs_view()[j]).1)
        &&& (forall|i: int|
            0 <= i < self.pairs_view().len() ==> (#[trigger] self.pairs_view()[i]).1
                < self.next_new_id)
        &&& (forall|i: int|
            0 <= i < self.recycle_bin@.len() ==> (#[trigger] self.recycle_bin@[i])
                < self.next_new_id)
        &&& (forall|i: int, j: int|
            0 <= i < j < self.recycle_bin@.len() ==> (#[trigger] self.recycle_bin@[i]) != (
            #[trigger] self.recycle_bin@[j]))
        &&& (forall|i: int, j: int|
            0 <= i < self.recycle_bin@.len() && 0 <= j < self.pairs_view().len() ==> (
            #[trigger] self.recycle_bin@[i]) != (#[trigger] self.pairs_view()[j]).1)
    }
}

/// A bidirectional map between owned string keys and dense, reusable ids.
pub struct CompactIdBiMap {
    ids: StrIdTable,
    keys: IdStrTable,
    recycle_bin: Vec<ID>,
    next_new_id: ID,
}

impl CompactIdBiMap {
    /// The forward associations: key -> id.
    pub closed spec fn fwd(self) -> Map<Seq<char>, usize> {
        crate::table::str_id_entries(self.ids)
    }

    /// The backward associations: id -> key.
    pub closed spec fn bwd(self) -> Map<usize, Seq<char>> {
        crate::table::id_str_entries(self.keys)
    }

    /// The freed ids awaiting reuse, most recently freed last.
    pub closed spec fn bin(self) -> Seq<usize> {
        self.recycle_bin@
    }

    /// The smallest id never yet allocated.
    pub closed spec fn next_id(self) -> usize {
        self.next_new_id
    }

    /// The map's internal consistency: the two directions are exact
    /// inverses, freed ids are distinct and live nowhere else, and every id
    /// ever handed out lies below `next_id`.
    pub closed spec fn well_formed(self) -> bool {
        &&& self.fwd().dom().finite()
        &&& self.bwd().dom().finite()
        &&& (forall|k: Seq<char>| #[trigger]
            self.fwd().dom().contains(k) ==> self.bwd().dom().contains(self.fwd()[k])
                && self.bwd()[self.fwd()[k]] == k)
        &&& (forall|id: usize| #[trigger]
            self.bwd().dom().contains(id) ==> self.fwd().dom().contains(self.bwd()[id])
                && self.fwd()[self.bwd()[id]] == id)
        &&& (forall|id: usize| #[trigger] self.bwd().dom().contains(id) ==> id < self.next_id())
        &&& (forall|i: int|
            0 <= i < self.bin().len() ==> (#[trigger] self.bin()[i]) < self.next_id())
        &&& (forall|i: int|
            0 <= i < self.bin().len() ==> !self.bwd().dom().contains(#[trigger] self.bin()[i]))
        &&& (forall|i: int, j: int|
            0 <= i < j < self.bin().len() ==> #[trigger] self.bin()[i] != #[trigger] self.bin()[j])
    }

    /// Whether the two maps hold the same associations, freed ids and
    /// fresh-id counter.
    pub open spec fn same_state(self, other: Self) -> bool {
        &&& self.fwd() == other.fwd()
        &&& self.bwd() == other.bwd()
        &&& self.bin() == other.bin()
        &&& self.next_id() == other.next_id()
    }

    /// Whether an allocation can succeed: a freed id is waiting, or a fresh
    /// one is still representable.
    pub open spec fn can_alloc(self) -> bool {
        self.bin().len() > 0 || self.next_id() < usize::MAX
    }

    /// The id the allocator hands out next: the most recently freed id when
    /// one is waiting, else the next fresh one.
    pub open spec fn fresh_pick(self) -> usize {
        if self.bin().len() > 0 {
            self.bin().last()
        } else {
            self.next_id()
        }
    }

    /// How a successful insertion of key `k` under id `id` changes the map.
    pub open spec fn inserted(self, post: Self, k: Seq<char>, id: usize) -> bool {
        &&& self.well_formed()
        &&& post.well_formed()
        &&& !self.fwd().dom().contains(k)
        &&& id == self.fresh_pick()
        &&& post.fwd() == self.fwd().insert(k, id)
        &&& post.bwd() == self.bwd().insert(id, k)
        &&& (if self.bin().len() > 0 {
            post.bin() == self.bin().drop_last() && post.next_id() == self.next_id()
        } else {
            post.bin() == self.bin() && post.next_id() == self.next_id() + 1
        })
    }

    /// How a successful removal of key `k` with id `id` changes the map.
    pub open spec fn removed(self, post: Self, k: Seq<char>, id: usize) -> bool {
        &&& self.well_formed()
        &&& post.well_formed()
        &&& self.fwd().dom().contains(k)
        &&& id == self.fwd()[k]
        &&& post.fwd() == self.fwd().remove(k)
        &&& post.bwd() == self.bwd().remove(id)
        &&& post.bin() == self.bin().push(id)
        &&& post.next_id() == self.next_id()
    }

    /// How a get_or_insert call for key `k` that returned id `id` relates
    /// the map before and after: a hit leaves the map unchanged, a miss
    /// inserts under a fresh id.
    pub open spec fn got_or_inserted(self, post: Self, k: Seq<char>, id: usize) -> bool {
        if self.fwd().dom().contains(k) {
            &&& self.well_formed()
            &&& post.well_formed()
            &&& id == self.fwd()[k]
            &&& self.same_state(post)
        } else {
            self.inserted(post, k, id)
        }
    }

    /// An empty map whose first fresh id is zero.
    pub fn new() -> (r: Self)
        ensures
            r.well_formed(),
            r.fwd() == crate::table::str_id_empty(),
            r.bwd() == crate::table::id_str_empty(),
            r.bin() == Seq::<usize>::empty(),
            r.next_id() == 0,
    {
        let r = CompactIdBiMap {
            ids: str_id_new(),
            keys: id_str_new(),
            recycle_bin: Vec::new(),
            next_new_id: 0,
        };
        r
    }

    /// Looks a key up; returns its id, or nothing when the key is absent.
    /// Never mutates.
    pub fn get(&self, key: &str) -> (r: Option<ID>)
        ensures
            r == (if self.fwd().dom().contains(key@) {
                Some(self.fwd()[key@])
            } else {
                None::<usize>
            }),
    {
        str_id_get(&self.ids, key)
    }

    /// Reverse lookup: the key stored under an id, or nothing when the id is
    /// not live. Never mutates.
    pub fn get_key(&self, id: ID) -> (r: Option<&String>)
        ensures
            r matches Some(k) ==> self.bwd().dom().contains(id) && k@ == self.bwd()[id],
            r is None ==> !self.bwd().dom().contains(id),
    {
        id_str_get(&self.keys, id)
    }

    /// Pops the most recently freed id, or mints a fresh one; fails only
    /// when no freed id waits and the fresh counter cannot advance.
    fn get_fresh_id(&mut self) -> (r: Result<ID, IdAllocError>)
        requires
            old(self).well_formed(),
        ensures
            final(self).well_formed(),
            final(self).fwd() == old(self).fwd(),
            final(self).bwd() == old(self).bwd(),
            old(self).can_alloc() ==> r == Ok::<usize, IdAllocError>(old(self).fresh_pick()),
            old(self).bin().len() > 0 ==> final(self).bin() == old(self).bin().drop_last()
                && final(self).next_id() == old(self).next_id(),
            old(self).bin().len() == 0 && old(self).next_id() < usize::MAX ==> final(self).bin()
                == old(self).bin() && final(self).next_id() == old(self).next_id() + 1,
            !old(self).can_alloc() ==> r == Err::<usize, IdAllocError>(IdAllocError::Exhausted)
                && old(self).same_state(*final(self)),
            r matches Ok(id) ==> !final(self).bwd().dom().contains(id)
                && !final(self).bin().contains(id) && id < final(self).next_id(),
    {
        match self.recycle_bin.pop() {
            Some(id) => {
                proof {
                    let pre = *old(self);
                    assert(id == pre.bin().last());
                    assert(pre.bin()[pre.bin().len() - 1] == pre.bin().last());
                    assert(!pre.bwd().dom().contains(id));
                    assert forall|t: int|
                        0 <= t < self.recycle_bin@.len() implies self.recycle_bin@[t] != id by {
                        assert(pre.bin()[t] == self.recycle_bin@[t]);
                        assert(pre.bin()[t] != pre.bin()[pre.bin().len() - 1]);
                    }
                }
                Ok(id)
            },
            None => {
                if self.next_new_id == usize::MAX {
                    Err(IdAllocError::Exhausted)
                } else {
                    let id = self.next_new_id;
                    self.next_new_id = self.next_new_id + 1;
                    Ok(id)
                }
            },
        }
    }

    /// Inserts a key that must not already be present, under a freshly
    /// allocated id; reports a duplicate key or an exhausted id space as an
    /// explicit error, leaving the map unchanged.
    pub fn insert(&mut self, k: String) -> (r: Result<ID, IdAllocError>)
        requires
            old(self).well_formed(),
        ensures
            final(self).well_formed(),
            old(self).fwd().dom().contains(k@) ==> r == Err::<usize, IdAllocError>(
                IdAllocError::DuplicateKey,
            ) && old(self).same_state(*final(self)),
            !old(self).fwd().dom().contains(k@) && old(self).can_alloc() ==> r == Ok::<
                usize,
                IdAllocError,
            >(old(self).fresh_pick()) && old(self).inserted(
                *final(self),
                k@,
                old(self).fresh_pick(),
            ),
            !old(self).fwd().dom().contains(k@) && !old(self).can_alloc() ==> r == Err::<
                usize,
                IdAllocError,
            >(IdAllocError::Exhausted) && old(self).same_state(*final(self)),
    {
        if str_id_get(&self.ids, k.as_str()).is_some() {
            return Err(IdAllocError::DuplicateKey);
        }
        let id = match self.get_fresh_id() {
            Ok(id) => id,
            Err(e) => {
                return Err(e);
            },
        };
        let key_copy = k.clone();
        str_id_insert(&mut self.ids, k, id);
        id_str_insert(&mut self.keys, id, key_copy);
        proof {
            let pre = *old(self);
            let post = *self;
            assert(post.fwd() == pre.fwd().insert(k@, id));
            assert(post.bwd() == pre.bwd().insert(id, k@));
            assert(post.fwd().dom() =~= pre.fwd().dom().insert(k@));
            assert(post.bwd().dom() =~= pre.bwd().dom().insert(id));
            assert forall|k2: Seq<char>| #[trigger]
                post.fwd().dom().contains(k2) implies post.bwd().dom().contains(post.fwd()[k2])
                && post.bwd()[post.fwd()[k2]] == k2 by {
                if k2 == k@ {
                } else {
                    assert(pre.fwd().dom().contains(k2));
                    assert(pre.bwd().dom().contains(pre.fwd()[k2]));
                    assert(pre.fwd()[k2] != id);
                }
            }
            assert forall|id2: usize| #[trigger]
                post.bwd().dom().contains(id2) implies post.fwd().dom().contains(post.bwd()[id2])
                && post.fwd()[post.bwd()[id2]] == id2 by {
                if id2 == id {
                } else {
                    assert(pre.bwd().dom().contains(id2));
                    assert(pre.fwd().dom().contains(pre.bwd()[id2]));
                    assert(pre.bwd()[id2] != k@);
                }
            }
        }
        Ok(id)
    }

    /// Returns the existing id of a present key without mutating; otherwise
    /// inserts the key under a freshly allocated id. Fails only when an
    /// allocation was needed and the id space is exhausted.
    pub fn get_or_insert(&mut self, k: String) -> (r: Result<ID, IdAllocError>)
        requires
            old(self).well_formed(),
        ensures
            final(self).well_formed(),
            r matches Ok(id) ==> old(self).got_or_inserted(*final(self), k@, id),
            old(self).fwd().dom().contains(k@) ==> r == Ok::<usize, IdAllocError>(
                old(self).fwd()[k@],
            ),
            !old(self).fwd().dom().contains(k@) && old(self).can_alloc() ==> r == Ok::<
                usize,
                IdAllocError,
            >(old(self).fresh_pick()),
            !old(self).fwd().dom().contains(k@) && !old(self).can_alloc() ==> r == Err::<
                usize,
                IdAllocError,
            >(IdAllocError::Exhausted) && old(self).same_state(*final(self)),
    {
        match str_id_get(&self.ids, k.as_str()) {
            Some(id) => Ok(id),
            None => self.insert(k),
        }
    }

    /// Removes a present key from both directions, recycling its id and
    /// returning it; returns nothing, without side effects, for an absent
    /// key.
    pub fn remove(&mut self, key: &str) -> (r: Option<ID>)
        requires
            old(self).well_formed(),
        ensures
            final(self).well_formed(),
            old(self).fwd().dom().contains(key@) ==> r == Some(old(self).fwd()[key@]) && old(
                self,
            ).removed(*final(self), key@, old(self).fwd()[key@]),
            !old(self).fwd().dom().contains(key@) ==> r == None::<usize> && old(self).same_state(
                *final(self),
            ),
    {
        match str_id_remove(&mut self.ids, key) {
            Some(id) => {
                proof {
                    let pre = *old(self);
                    assert(pre.bwd().dom().contains(id));
                    assert(pre.bwd()[id] == key@);
                }
                self.recycle_bin.push(id);
                id_str_remove(&mut self.keys, id);
                proof {
                    self.lemma_removal_well_formed(*old(self), key@, id);
                    assert(self.well_formed());
                }
                Some(id)
            },
            None => {
                proof {
                    assert(self.fwd() =~= old(self).fwd());
                    assert(self.bin() == old(self).bin());
                    assert(self.well_formed());
                }
                None
            },
        }
    }

    /// Removes a live id from both directions, recycling it and returning
    /// its key; returns nothing, without side effects, for an id that is not
    /// live.
    pub fn remove_id(&mut self, id: ID) -> (r: Option<String>)
        requires
            old(self).well_formed(),
        ensures
            final(self).well_formed(),
            old(self).bwd().dom().contains(id) ==> (r matches Some(k) && k@ == old(self).bwd()[id]
                && old(self).removed(*final(self), old(self).bwd()[id], id)),
            !old(self).bwd().dom().contains(id) ==> r == None::<String> && old(self).same_state(
                *final(self),
            ),
    {
        match id_str_remove(&mut self.keys, id) {
            Some(k) => {
                proof {
                    let pre = *old(self);
                    assert(pre.fwd().dom().contains(k@));
                    assert(pre.fwd()[k@] == id);
                }
                self.recycle_bin.push(id);
                str_id_remove(&mut self.ids, k.as_str());
                proof {
                    self.lemma_removal_well_formed(*old(self), k@, id);
                    assert(self.well_formed());
                }
                Some(k)
            },
            None => {
                proof {
                    assert(self.bwd() =~= old(self).bwd());
                    assert(self.bin() == old(self).bin());
                    assert(self.well_formed());
                }
                None
            },
        }
    }

    /// A plain-value image of the map's full state, fit to persist:
    /// restoring it yields a map in the same state, as
    /// [`lemma_snapshot_restore_round_trip`] states.
    pub fn snapshot(&self) -> (s: BiMapSnapshot)
        ensures
            self.well_formed() ==> s.valid(),
            self.well_formed() ==> pairs_as_map(s.pairs_view()) == self.fwd(),
            s.recycle_bin@ == self.bin(),
            s.next_new_id == self.next_id(),
    {
        let pairs = str_id_pairs(&self.ids);
        let mut bin: Vec<usize> = Vec::new();
        let mut b: usize = 0;
        while b < self.recycle_bin.len()
            invariant
                b <= self.recycle_bin@.len(),
                bin@ == self.recycle_bin@.take(b as int),
            decreases self.recycle_bin@.len() - b,
        {
            bin.push(self.recycle_bin[b]);
            proof {
                assert(bin@ =~= self.recycle_bin@.take(b as int + 1));
            }
            b += 1;
        }
        proof {
            assert(bin@ =~= self.recycle_bin@);
        }
        let s = BiMapSnapshot { pairs, recycle_bin: bin, next_new_id: self.next_new_id };
        proof {
            if self.well_formed() {
                assert forall|k: Seq<char>| #[trigger]
                    self.fwd().dom().contains(k) implies exists|i: int|
                    0 <= i < s.pairs@.len() && (#[trigger] s.pairs@[i]).0@ == k by {
                    let i = choose|i: int| 0 <= i < pairs@.len() && (#[trigger] pairs@[i]).0@ == k;
                    assert(s.pairs@[i].0@ == k);
                }
                self.lemma_snapshot_describes(s);
            }
        }
        s
    }

    /// The pairs handed out for a well-formed map describe its forward
    /// direction exactly and form a consistent snapshot.
    proof fn lemma_snapshot_describes(self, s: BiMapSnapshot)
        requires
            self.well_formed(),
            forall|i: int|
                0 <= i < s.pairs@.len() ==> self.fwd().dom().contains((#[trigger] s.pairs@[i]).0@)
                    && self.fwd()[s.pairs@[i].0@] == s.pairs@[i].1,
            forall|k: Seq<char>| #[trigger]
                self.fwd().dom().contains(k) ==> exists|i: int|
                    0 <= i < s.pairs@.len() && (#[trigger] s.pairs@[i]).0@ == k,
            forall|i: int, j: int|
                0 <= i < j < s.pairs@.len() ==> (#[trigger] s.pairs@[i]).0@ != (
                #[trigger] s.pairs@[j]).0@,
            s.recycle_bin@ == self.bin(),
            s.next_new_id == self.next_id(),
        ensures
            s.valid(),
            pairs_as_map(s.pairs_view()) == self.fwd(),
    {
        {
            let pv = s.pairs_view();
            assert forall|i: int| 0 <= i < pv.len() implies self.fwd().dom().contains(
                (#[trigger] pv[i]).0,
            ) && self.fwd()[pv[i].0] == pv[i].1 && self.bwd().dom().contains(pv[i].1) by {
                assert(pv[i] == (s.pairs@[i].0@, s.pairs@[i].1));
                assert(self.fwd().dom().contains(s.pairs@[i].0@));
            }
            assert forall|i: int, j: int| 0 <= i < j < pv.len() implies (#[trigger] pv[i]).0 != (
            #[trigger] pv[j]).0 by {
                assert(s.pairs@[i].0@ != s.pairs@[j].0@);
            }
            assert forall|i: int, j: int| 0 <= i < j < pv.len() implies (#[trigger] pv[i]).1 != (
            #[trigger] pv[j]).1 by {
                if pv[i].1 == pv[j].1 {
                    assert(self.bwd()[self.fwd()[pv[i].0]] == pv[i].0);
                    assert(self.bwd()[self.fwd()[pv[j].0]] == pv[j].0);
                }
            }
            assert forall|i: int|
                0 <= i < s.recycle_bin@.len() implies (#[trigger] s.recycle_bin@[i])
                < s.next_new_id by {
                assert(self.bin()[i] < self.next_id());
            }
            assert forall|i: int, j: int|
                0 <= i < j < s.recycle_bin@.len() implies (#[trigger] s.recycle_bin@[i]) != (
            #[trigger] s.recycle_bin@[j]) by {
                assert(self.bin()[i] != self.bin()[j]);
            }
            assert forall|i: int, j: int|
                0 <= i < s.recycle_bin@.len() && 0 <= j < pv.len() implies (
            #[trigger] s.recycle_bin@[i]) != (#[trigger] pv[j]).1 by {
                assert(!self.bwd().dom().contains(self.bin()[i]));
                assert(self.bwd().dom().contains(pv[j].1));
            }
            lemma_pairs_as_map_dom(pv);
            assert forall|k: Seq<char>| #[trigger]
                self.fwd().dom().contains(k) implies pairs_as_map(pv).dom().contains(k)
                && pairs_as_map(pv)[k] == self.fwd()[k] by {
                let i = choose|i: int| 0 <= i < s.pairs@.len() && (#[trigger] s.pairs@[i]).0@ == k;
                assert(pv[i].0 == k);
                lemma_pairs_as_map_value(pv, i);
            }
            assert forall|k: Seq<char>| #[trigger]
                pairs_as_map(pv).dom().contains(k) implies self.fwd().dom().contains(k) by {
                let i = choose|i: int| 0 <= i < pv.len() && (#[trigger] pv[i]).0 == k;
            }
            assert(pairs_as_map(pv) =~= self.fwd());
        }
    }

    /// Rebuilds a map from a snapshot, checking that the snapshot describes
    /// a state a well-formed map can be in; a valid snapshot is always
    /// accepted, and whatever is accepted reproduces the snapshot's state
    /// exactly.
    pub fn restore(s: &BiMapSnapshot) -> (r: Option<CompactIdBiMap>)
        ensures
            r matches Some(m) ==> m.well_formed() && m.fwd() == pairs_as_map(s.pairs_view())
                && m.bin() == s.recycle_bin@ && m.next_id() == s.next_new_id,
            s.valid() ==> r is Some,
    {
        let ghost pv = s.pairs_view();
        let mut ids_t = str_id_new();
        let mut keys_t = id_str_new();
        let mut i: usize = 0;
        while i < s.pairs.len()
            invariant
                i <= s.pairs@.len(),
                pv == s.pairs_view(),
                crate::table::str_id_entries(ids_t) == pairs_as_map(pv.take(i as int)),
                crate::table::str_id_entries(ids_t).dom().finite(),
                crate::table::id_str_entries(keys_t).dom().finite(),
                forall|k: Seq<char>| #[trigger]
                    crate::table::str_id_entries(ids_t).dom().contains(k)
                        ==> crate::table::id_str_entries(keys_t).dom().contains(
                        crate::table::str_id_entries(ids_t)[k],
                    ) && crate::table::id_str_entries(keys_t)[crate::table::str_id_entries(
                        ids_t,
                    )[k]] == k,
                forall|id: usize| #[trigger]
                    crate::table::id_str_entries(keys_t).dom().contains(id)
                        ==> crate::table::str_id_entries(ids_t).dom().contains(
                        crate::table::id_str_entries(keys_t)[id],
                    ) && crate::table::str_id_entries(ids_t)[crate::table::id_str_entries(
                        keys_t,
                    )[id]] == id,
                forall|id: usize| #[trigger]
                    crate::table::id_str_entries(keys_t).dom().contains(id) ==> id
                        < s.next_new_id,
                forall|j: int|
                    0 <= j < i ==> crate::table::id_str_entries(keys_t).dom().contains(
                        (#[trigger] pv[j]).1,
                    ),
                forall|id: usize| #[trigger]
                    crate::table::id_str_entries(keys_t).dom().contains(id) ==> exists|j: int|
                        0 <= j < i && (#[trigger] pv[j]).1 == id,
            decreases s.pairs@.len() - i,
        {
            let key = &s.pairs[i].0;
            let id = s.pairs[i].1;
            proof {
                assert(pv[i as int] == (s.pairs@[i as int].0@, s.pairs@[i as int].1));
            }
            if id >= s.next_new_id {
                proof {
                    if s.valid() {
                        assert(pv[i as int].1 < s.next_new_id);
                    }
                }
                return None;
            }
            if str_id_get(&ids_t, key.as_str()).is_some() {
                proof {
                    lemma_pairs_as_map_dom(pv.take(i as int));
                    let j = choose|j: int|
                        0 <= j < pv.take(i as int).len() && (#[trigger] pv.take(i as int)[j]).0
                            == key@;
                    if s.valid() {
                        assert(pv[j].0 != pv[i as int].0);
                    }
                }
                return None;
            }
            if id_str_get(&keys_t, id).is_some() {
                proof {
                    let j = choose|j: int| 0 <= j < i && (#[trigger] pv[j]).1 == id;
                    if s.valid() {
                        assert(pv[j].1 != pv[i as int].1);
                    }
                }
                return None;
            }
            let ghost ids_pre = crate::table::str_id_entries(ids_t);
            let ghost keys_pre = crate::table::id_str_entries(keys_t);
            str_id_insert(&mut ids_t, key.clone(), id);
            id_str_insert(&mut keys_t, id, key.clone());
            proof {
                assert(pv.take(i as int + 1).drop_last() =~= pv.take(i as int));
                assert(pv.take(i as int + 1).last() == pv[i as int]);
                assert(crate::table::str_id_entries(ids_t) == pairs_as_map(
                    pv.take(i as int + 1),
                ));
                assert forall|k: Seq<char>| #[trigger]
                    crate::table::str_id_entries(ids_t).dom().contains(
                        k,
                    ) implies crate::table::id_str_entries(keys_t).dom().contains(
                    crate::table::str_id_entries(ids_t)[k],
                ) && crate::table::id_str_entries(keys_t)[crate::table::str_id_entries(ids_t)[k]]
                    == k by {
                    if k != key@ {
                        assert(ids_pre.dom().contains(k));
                        assert(ids_pre[k] != id);
                    }
                }
                assert forall|id2: usize| #[trigger]
                    crate::table::id_str_entries(keys_t).dom().contains(
                        id2,
                    ) implies crate::table::str_id_entries(ids_t).dom().contains(
                    crate::table::id_str_entries(keys_t)[id2],
                ) && crate::table::str_id_entries(ids_t)[crate::table::id_str_entries(
                    keys_t,
                )[id2]] == id2 by {
                    if id2 != id {
                        assert(keys_pre.dom().contains(id2));
                        assert(keys_pre[id2] != key@);
                    }
                }
                assert(crate::table::str_id_entries(ids_t).dom() =~= ids_pre.dom().insert(key@));
                assert(crate::table::id_str_entries(keys_t).dom() =~= keys_pre.dom().insert(id));
            }
            i += 1;
        }
        let mut bin: Vec<usize> = Vec::new();
        let mut seen = id_str_new();
        let mut b: usize = 0;
        while b < s.recycle_bin.len()
            invariant
                b <= s.recycle_bin@.len(),
                pv == s.pairs_view(),
                i == s.pairs@.len(),
                crate::table::str_id_entries(ids_t) == pairs_as_map(pv.take(i as int)),
                crate::table::str_id_entries(ids_t).dom().finite(),
                crate::table::id_str_entries(keys_t).dom().finite(),
                forall|k: Seq<char>| #[trigger]
                    crate::table::str_id_entries(ids_t).dom().contains(k)
                        ==> crate::table::id_str_entries(keys_t).dom().contains(
                        crate::table::str_id_entries(ids_t)[k],
                    ) && crate::table::id_str_entries(keys_t)[crate::table::str_id_entries(
                        ids_t,
                    )[k]] == k,
                forall|id: usize| #[trigger]
                    crate::table::id_str_entries(keys_t).dom().contains(id)
                        ==> crate::table::str_id_entries(ids_t).dom().contains(
                        crate::table::id_str_entries(keys_t)[id],
                    ) && crate::table::str_id_entries(ids_t)[crate::table::id_str_entries(
                        keys_t,
                    )[id]] == id,
                forall|id: usize| #[trigger]
                    crate::table::id_str_entries(keys_t).dom().contains(id) ==> id
                        < s.next_new_id,
                forall|j: int|
                    0 <= j < i ==> crate::table::id_str_entries(keys_t).dom().contains(
                        (#[trigger] pv[j]).1,
                    ),
                forall|id: usize| #[trigger]
                    crate::table::id_str_entries(keys_t).dom().contains(id) ==> exists|j: int|
                        0 <= j < i && (#[trigger] pv[j]).1 == id,
                bin@ == s.recycle_bin@.take(b as int),
                forall|t: int|
                    0 <= t < b ==> (#[trigger] s.recycle_bin@[t]) < s.next_new_id
                        && !crate::table::id_str_entries(keys_t).dom().contains(
                        s.recycle_bin@[t],
                    ),
                forall|t: int|
                    0 <= t < b ==> crate::table::id_str_entries(seen).dom().contains(
                        #[trigger] s.recycle_bin@[t],
                    ),
                forall|id: usize| #[trigger]
                    crate::table::id_str_entries(seen).dom().contains(id) ==> exists|t: int|
                        0 <= t < b && (#[trigger] s.recycle_bin@[t]) == id,
                forall|t1: int, t2: int|
                    0 <= t1 < t2 < b ==> (#[trigger] s.recycle_bin@[t1]) != (
                    #[trigger] s.recycle_bin@[t2]),
            decreases s.recycle_bin@.len() - b,
        {
            let id = s.recycle_bin[b];
            if id >= s.next_new_id {
                proof {
                    if s.valid() {
                        assert(s.recycle_bin@[b as int] < s.next_new_id);
                    }
                }
                return None;
            }
            if id_str_get(&keys_t, id).is_some() {
                proof {
                    if s.valid() {
                        let j = choose|j: int| 0 <= j < i && (#[trigger] pv[j]).1 == id;
                        assert(s.recycle_bin@[b as int] != pv[j].1);
                    }
                }
                return None;
            }
            if id_str_get(&seen, id).is_some() {
                proof {
                    if s.valid() {
                        let t = choose|t: int| 0 <= t < b && (#[trigger] s.recycle_bin@[t]) == id;
                        assert(s.recycle_bin@[t] != s.recycle_bin@[b as int]);
                    }
                }
                return None;
            }
            let ghost seen_pre = crate::table::id_str_entries(seen);
            id_str_insert(&mut seen, id, String::new());
            bin.push(id);
            proof {
                assert(bin@ =~= s.recycle_bin@.take(b as int + 1));
                assert(crate::table::id_str_entries(seen).dom() =~= seen_pre.dom().insert(id));
            }
            b += 1;
        }
        let m = CompactIdBiMap {
            ids: ids_t,
            keys: keys_t,
            recycle_bin: bin,
            next_new_id: s.next_new_id,
        };
        proof {
            assert(pv.take(i as int) =~= pv);
            assert(bin@ =~= s.recycle_bin@);
            assert(m.well_formed());
        }
        Some(m)
    }

    /// A removal of a present key/id pair leaves the map well formed and
    /// matches the `removed` transition.
    proof fn lemma_removal_well_formed(self, pre: Self, k: Seq<char>, id: usize)
        requires
            pre.well_formed(),
            pre.fwd().dom().contains(k),
            pre.fwd()[k] == id,
            self.fwd() == pre.fwd().remove(k),
            self.bwd() == pre.bwd().remove(id),
            self.bin() == pre.bin().push(id),
            self.next_id() == pre.next_id(),
        ensures
            self.well_formed(),
            pre.removed(self, k, id),
    {
        let post = self;
        assert(pre.bwd().dom().contains(id));
        assert(pre.bwd()[id] == k);
        assert(post.fwd().dom() =~= pre.fwd().dom().remove(k));
        assert(post.bwd().dom() =~= pre.bwd().dom().remove(id));
        assert forall|k2: Seq<char>| #[trigger]
            post.fwd().dom().contains(k2) implies post.bwd().dom().contains(post.fwd()[k2])
            && post.bwd()[post.fwd()[k2]] == k2 by {
            assert(pre.fwd().dom().contains(k2));
            assert(k2 != k);
            assert(pre.bwd().dom().contains(pre.fwd()[k2]));
            assert(pre.bwd()[pre.fwd()[k2]] == k2);
            assert(pre.fwd()[k2] != id);
        }
        assert forall|id2: usize| #[trigger]
            post.bwd().dom().contains(id2) implies post.fwd().dom().contains(post.bwd()[id2])
            && post.fwd()[post.bwd()[id2]] == id2 by {
            assert(pre.bwd().dom().contains(id2));
            assert(id2 != id);
            assert(pre.fwd().dom().contains(pre.bwd()[id2]));
            assert(pre.fwd()[pre.bwd()[id2]] == id2);
            assert(pre.bwd()[id2] != k);
        }
        assert forall|i: int| 0 <= i < post.bin().len() implies !post.bwd().dom().contains(
            post.bin()[i],
        ) by {
            if i < pre.bin().len() {
                assert(post.bin()[i] == pre.bin()[i]);
                assert(!pre.bwd().dom().contains(pre.bin()[i]));
            } else {
                assert(post.bin()[i] == id);
            }
        }
        assert forall|i: int, j: int| 0 <= i < j < post.bin().len() implies post.bin()[i]
            != post.bin()[j] by {
            if j < pre.bin().len() {
                assert(pre.bin()[i] != pre.bin()[j]);
            } else {
                assert(post.bin()[j] == id);
                assert(post.bin()[i] == pre.bin()[i]);
                assert(!pre.bwd().dom().contains(pre.bin()[i]));
            }
        }
    }
}

/// A successful insertion hands out an id that was not live before, and the
/// live ids afterward are exactly the old ones plus it.
pub proof fn lemma_inserted_fresh(
    pre: CompactIdBiMap,
    post: CompactIdBiMap,
    k: Seq<char>,
    id: usize,
)
    requires
        pre.inserted(post, k, id),
    ensures
        !pre.bwd().dom().contains(id),
        post.bwd().dom() == pre.bwd().dom().insert(id),
{
    if pre.bin().len() > 0 {
        assert(pre.bin()[pre.bin().len() - 1] == id);
    }
    assert(post.bwd().dom() =~= pre.bwd().dom().insert(id));
}

/// Across a removal-free run of insertions, an id handed out earlier is
/// still live in every later state.
proof fn lemma_insert_chain_keeps_ids(
    states: Seq<CompactIdBiMap>,
    keys: Seq<Seq<char>>,
    ids: Seq<usize>,
    i: int,
    j: int,
)
    requires
        states.len() == ids.len() + 1,
        keys.len() == ids.len(),
        forall|t: int|
            0 <= t < ids.len() ==> #[trigger] states[t].inserted(states[t + 1], keys[t], ids[t]),
        0 <= i < j <= ids.len(),
    ensures
        states[j].bwd().dom().contains(ids[i]),
    decreases j - i,
{
    if j == i + 1 {
        lemma_inserted_fresh(states[i], states[j], keys[i], ids[i]);
    } else {
        lemma_insert_chain_keeps_ids(states, keys, ids, i, j - 1);
        assert(states[j - 1].inserted(states[j - 1 + 1], keys[j - 1], ids[j - 1]));
        lemma_inserted_fresh(states[j - 1], states[j], keys[j - 1], ids[j - 1]);
    }
}

/// Uniqueness: for any run of insertions with no removals in between, the
/// returned ids are pairwise distinct.
pub proof fn lemma_inserts_give_distinct_ids(
    states: Seq<CompactIdBiMap>,
    keys: Seq<Seq<char>>,
    ids: Seq<usize>,
)
    requires
        states.len() == ids.len() + 1,
        keys.len() == ids.len(),
        forall|t: int|
            0 <= t < ids.len() ==> #[trigger] states[t].inserted(states[t + 1], keys[t], ids[t]),
    ensures
        forall|i: int, j: int| 0 <= i < j < ids.len() ==> ids[i] != ids[j],
{
    assert forall|i: int, j: int| 0 <= i < j < ids.len() implies ids[i] != ids[j] by {
        lemma_insert_chain_keeps_ids(states, keys, ids, i, j);
        lemma_inserted_fresh(states[j], states[j + 1], keys[j], ids[j]);
    }
}

/// Round trip: immediately after inserting key `k` under id `id`, backward
/// lookup of the id yields `k` and forward lookup of `k` yields the id.
pub proof fn lemma_insert_round_trip(
    pre: CompactIdBiMap,
    post: CompactIdBiMap,
    k: Seq<char>,
    id: usize,
)
    requires
        pre.inserted(post, k, id),
    ensures
        post.fwd().dom().contains(k) && post.fwd()[k] == id,
        post.bwd().dom().contains(id) && post.bwd()[id] == k,
{
}

/// Idempotence: two get_or_insert calls for the same key with nothing in
/// between return the same id, the second leaves the map as the first left
/// it, and together they grow the set of live ids by at most one.
pub proof fn lemma_get_or_insert_idempotent(
    s0: CompactIdBiMap,
    s1: CompactIdBiMap,
    s2: CompactIdBiMap,
    k: Seq<char>,
    id1: usize,
    id2: usize,
)
    requires
        s0.got_or_inserted(s1, k, id1),
        s1.got_or_inserted(s2, k, id2),
    ensures
        id2 == id1,
        s1.same_state(s2),
        s1.bwd().dom().len() <= s0.bwd().dom().len() + 1,
{
    if s0.fwd().dom().contains(k) {
        assert(s1.fwd().dom().contains(k));
    } else {
        lemma_inserted_fresh(s0, s1, k, id1);
        assert(s1.fwd().dom().contains(k));
    }
}

/// Immediate LIFO reuse: the insertion performed right after a removal, with
/// no other removal in between, hands the freed id out again.
pub proof fn lemma_remove_then_insert_reuses_id(
    pre: CompactIdBiMap,
    mid: CompactIdBiMap,
    post: CompactIdBiMap,
    k: Seq<char>,
    id: usize,
    k2: Seq<char>,
    id2: usize,
)
    requires
        pre.removed(mid, k, id),
        mid.inserted(post, k2, id2),
    ensures
        id2 == id,
{
    assert(mid.bin().last() == id);
}

/// The forward direction of a well-formed map determines the backward one.
proof fn lemma_fwd_determines_bwd(a: CompactIdBiMap, b: CompactIdBiMap)
    requires
        a.well_formed(),
        b.well_formed(),
        a.fwd() == b.fwd(),
    ensures
        a.bwd() == b.bwd(),
{
    assert forall|id: usize| #[trigger]
        a.bwd().dom().contains(id) implies b.bwd().dom().contains(id) && b.bwd()[id]
        == a.bwd()[id] by {
        assert(a.fwd()[a.bwd()[id]] == id);
        assert(b.fwd().dom().contains(a.bwd()[id]));
    }
    assert forall|id: usize| #[trigger]
        b.bwd().dom().contains(id) implies a.bwd().dom().contains(id) by {
        assert(b.fwd()[b.bwd()[id]] == id);
        assert(a.fwd().dom().contains(b.bwd()[id]));
    }
    assert(a.bwd() =~= b.bwd());
}

/// Persistence round trip: a map restored from a snapshot is in the very
/// state the snapshot was taken from, so the same operations performed
/// after the restore hand out the same ids as if nothing had happened.
pub proof fn lemma_snapshot_restore_round_trip(
    m: CompactIdBiMap,
    s: BiMapSnapshot,
    m2: CompactIdBiMap,
)
    requires
        m.well_formed(),
        m2.well_formed(),
        pairs_as_map(s.pairs_view()) == m.fwd(),
        s.recycle_bin@ == m.bin(),
        s.next_new_id == m.next_id(),
        m2.fwd() == pairs_as_map(s.pairs_view()),
        m2.bin() == s.recycle_bin@,
        m2.next_id() == s.next_new_id,
    ensures
        m.same_state(m2),
{
    lemma_fwd_determines_bwd(m, m2);
}

/// A removal clears both directions: afterward the key no longer maps
/// forward and the freed id no longer maps backward.
pub proof fn lemma_remove_clears_both_directions(
    pre: CompactIdBiMap,
    post: CompactIdBiMap,
    k: Seq<char>,
    id: usize,
)
    requires
        pre.removed(post, k, id),
    ensures
        !post.fwd().dom().contains(k),
        !post.bwd().dom().contains(id),
{
}

} // verus!
