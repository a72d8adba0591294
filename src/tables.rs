use vstd::prelude::*;
use std::collections::HashMap;

verus! {

broadcast use vstd::std_specs::hash::group_hash_axioms;

/// A dense table indexed by compactly allocated ids.
///
/// Released ids go onto a free list, and `push` always hands out the smallest
/// released id before growing the table.
#[derive(Debug)]
pub struct ExportTable<T> {
    pub slots: Vec<Option<T>>,
    /// Ids of the empty slots, in no particular order.
    pub free_ids: Vec<u32>,
}

impl<T> ExportTable<T> {
    /// The number of slots, occupied or not.
    pub open spec fn len(&self) -> nat {
        self.slots@.len()
    }

    pub open spec fn is_free(&self, id: u32) -> bool {
        (id as int) < self.slots@.len() && self.slots@[id as int] is None
    }

    pub open spec fn is_live(&self, id: u32) -> bool {
        (id as int) < self.slots@.len() && self.slots@[id as int] is Some
    }

    /// The value stored under a live id.
    pub open spec fn entry(&self, id: u32) -> T
        recommends
            self.is_live(id),
    {
        self.slots@[id as int]->Some_0
    }

    pub open spec fn has_free(&self) -> bool {
        exists|id: u32| self.is_free(id)
    }

    /// Every id fits in 32 bits, and the free list holds each empty slot
    /// exactly once and nothing else.
    pub open spec fn wf(&self) -> bool {
        &&& self.slots@.len() <= u32::MAX as nat + 1
        &&& self.free_ids@.no_duplicates()
        &&& forall|k: int| 0 <= k < self.free_ids@.len() ==> self.is_free(#[trigger] self.free_ids@[k])
        &&& forall|id: u32| #[trigger] self.is_free(id) ==> self.free_ids@.contains(id)
    }

    /// The id that the next `push` returns.
    pub open spec fn next_id(&self) -> u32 {
        if self.has_free() {
            choose|id: u32| self.is_free(id) && forall|j: u32| #[trigger] self.is_free(j) ==> id <= j
        } else {
            self.slots@.len() as u32
        }
    }

    /// The slots after `val` is stored under `id`, `id` being at most one past the end.
    pub open spec fn stored(&self, id: u32, val: T) -> Seq<Option<T>> {
        if (id as int) < self.slots@.len() {
            self.slots@.update(id as int, Some(val))
        } else {
            self.slots@.push(Some(val))
        }
    }

    pub fn new() -> (r: ExportTable<T>)
        ensures
            r.wf(),
            r.slots@.len() == 0,
    {
        ExportTable { slots: Vec::new(), free_ids: Vec::new() }
    }

    /// Empties slot `id` and makes the id available again.
    pub fn erase(&mut self, id: u32)
        requires
            old(self).wf(),
            old(self).is_live(id),
        ensures
            final(self).wf(),
            final(self).slots@ == old(self).slots@.update(id as int, None),
    {
        self.slots.set(id as usize, None);
        self.free_ids.push(id);
        proof {
            assert forall|j: u32| #[trigger] self.is_free(j) implies self.free_ids@.contains(j) by {
                if j != id {
                    assert(old(self).is_free(j));
                    let k = choose|k: int| 0 <= k < old(self).free_ids@.len() && old(self).free_ids@[k] == j;
                    assert(self.free_ids@[k] == j);
                } else {
                    assert(self.free_ids@[self.free_ids@.len() - 1] == j);
                }
            }
            assert forall|k: int| 0 <= k < self.free_ids@.len() implies self.is_free(
                #[trigger] self.free_ids@[k],
            ) by {
                if k < old(self).free_ids@.len() {
                    assert(old(self).is_free(old(self).free_ids@[k]));
                }
            }
            assert(!old(self).free_ids@.contains(id));
        }
    }

    /// Stores `val` under the smallest free id, or under a new id one past the
    /// end when no id is free.
    pub fn push(&mut self, val: T) -> (r: u32)
        requires
            old(self).wf(),
            old(self).has_free() || old(self).slots@.len() < u32::MAX,
        ensures
            final(self).wf(),
            r == old(self).next_id(),
            old(self).has_free() ==> old(self).is_free(r),
            old(self).has_free() ==> forall|j: u32| #[trigger] old(self).is_free(j) ==> r <= j,
            !old(self).has_free() ==> r as nat == old(self).slots@.len(),
            !old(self).is_live(r),
            final(self).slots@ == old(self).stored(r, val),
    {
        if self.free_ids.len() == 0 {
            proof {
                if self.has_free() {
                    let id = choose|id: u32| self.is_free(id);
                    assert(self.free_ids@.contains(id));
                }
            }
            let id = self.slots.len() as u32;
            self.slots.push(Some(val));
            proof {
                assert forall|j: u32| #[trigger] self.is_free(j) implies self.free_ids@.contains(j) by {
                    assert(old(self).is_free(j));
                }
            }
            id
        } else {
            let mut best: usize = 0;
            let mut i: usize = 1;
            while i < self.free_ids.len()
                invariant
                    1 <= i <= self.free_ids@.len(),
                    best < i,
                    forall|k: int| 0 <= k < i ==> self.free_ids@[best as int] <= #[trigger] self.free_ids@[k],
                decreases self.free_ids@.len() - i,
            {
                if self.free_ids[i] < self.free_ids[best] {
                    best = i;
                }
                i = i + 1;
            }
            let id = self.free_ids.swap_remove(best);
            proof {
                assert(old(self).free_ids@[best as int] == id);
                assert(old(self).is_free(id));
                assert forall|j: u32| #[trigger] old(self).is_free(j) implies id <= j by {
                    let k = choose|k: int| 0 <= k < old(self).free_ids@.len() && old(self).free_ids@[k] == j;
                }
                assert(old(self).has_free());
                let c = old(self).next_id();
                assert(old(self).is_free(c) && forall|j: u32| #[trigger] old(self).is_free(j) ==> c <= j);
                assert(c <= id && id <= c);
            }
            self.slots.set(id as usize, Some(val));
            proof {
                let of = old(self).free_ids@;
                let nf = self.free_ids@;
                let last = of.len() - 1;
                assert(nf == of.update(best as int, of[last]).drop_last());
                assert forall|k: int| 0 <= k < nf.len() implies self.is_free(#[trigger] nf[k]) by {
                    if k == best as int {
                        assert(nf[k] == of[last]);
                        assert(old(self).is_free(of[last]));
                    } else {
                        assert(nf[k] == of[k]);
                        assert(old(self).is_free(of[k]));
                    }
                }
                assert forall|j: u32| #[trigger] self.is_free(j) implies nf.contains(j) by {
                    assert(old(self).is_free(j));
                    let k = choose|k: int| 0 <= k < of.len() && of[k] == j;
                    if k == last {
                        assert(nf[best as int] == j);
                    } else {
                        assert(nf[k] == j);
                    }
                }
                assert forall|a: int, b: int| 0 <= a < nf.len() && 0 <= b < nf.len() && a != b implies nf[a] != nf[b] by {
                    let oa = if a == best as int { last } else { a };
                    let ob = if b == best as int { last } else { b };
                    assert(nf[a] == of[oa] && nf[b] == of[ob]);
                }
            }
            id
        }
    }

    /// The value stored under `id`, if the slot is occupied.
    pub fn get(&self, id: u32) -> (r: Option<&T>)
        ensures
            r matches Some(v) ==> self.is_live(id) && *v == self.entry(id),
            r is None ==> !self.is_live(id),
    {
        if (id as usize) < self.slots.len() {
            match &self.slots[id as usize] {
                Some(v) => Some(v),
                None => None,
            }
        } else {
            None
        }
    }

    /// Replaces the value stored under a live id.
    pub fn replace(&mut self, id: u32, val: T)
        requires
            old(self).wf(),
            old(self).is_live(id),
        ensures
            final(self).wf(),
            final(self).slots@ == old(self).slots@.update(id as int, Some(val)),
            final(self).free_ids@ == old(self).free_ids@,
    {
        self.slots.set(id as usize, Some(val));
        proof {
            assert forall|j: u32| #[trigger] self.is_free(j) implies old(self).is_free(j) by {}
            assert forall|k: int| 0 <= k < self.free_ids@.len() implies self.is_free(
                #[trigger] self.free_ids@[k],
            ) by {
                assert(old(self).is_free(old(self).free_ids@[k]));
            }
        }
    }
}

/// The position of a smallest element of a non-empty sequence of ids.
proof fn lemma_seq_min(s: Seq<u32>) -> (k: int)
    requires
        s.len() > 0,
    ensures
        0 <= k < s.len(),
        forall|j: int| 0 <= j < s.len() ==> s[k] <= #[trigger] s[j],
    decreases s.len(),
{
    if s.len() == 1 {
        0
    } else {
        let r = s.drop_last();
        let k = lemma_seq_min(r);
        let w = if s.last() < r[k] { s.len() - 1 } else { k };
        assert forall|j: int| 0 <= j < s.len() implies s[w] <= #[trigger] s[j] by {
            if j < s.len() - 1 {
                assert(r[j] == s[j]);
            }
            assert(r[k] == s[k]);
        }
        w
    }
}

/// The id that `push` hands out next: the smallest free id, or the length
/// of the table when no id is free.
pub proof fn lemma_next_id<T>(t: &ExportTable<T>)
    requires
        t.wf(),
    ensures
        t.has_free() ==> t.is_free(t.next_id()) && forall|j: u32| #[trigger] t.is_free(j) ==> t.next_id() <= j,
        !t.has_free() ==> t.next_id() == t.slots@.len() as u32,
{
    if t.has_free() {
        let id = choose|id: u32| t.is_free(id);
        assert(t.free_ids@.contains(id));
        let k = lemma_seq_min(t.free_ids@);
        let m = t.free_ids@[k];
        assert(t.is_free(m));
        assert forall|j: u32| #[trigger] t.is_free(j) implies m <= j by {
            assert(t.free_ids@.contains(j));
            let kj = choose|kj: int| 0 <= kj < t.free_ids@.len() && t.free_ids@[kj] == j;
            assert(t.free_ids@[k] <= t.free_ids@[kj]);
        }
        assert(t.is_free(m) && forall|j: u32| #[trigger] t.is_free(j) ==> m <= j);
    }
}

/// A sparse table keyed by ids that the peer chooses.
#[derive(Debug)]
pub struct ImportTable<T> {
    pub slots: HashMap<u32, T>,
}

impl<T> View for ImportTable<T> {
    type V = Map<u32, T>;

    open spec fn view(&self) -> Map<u32, T> {
        self.slots@
    }
}

impl<T> ImportTable<T> {
    pub fn new() -> (r: ImportTable<T>)
        ensures
            r@ == Map::<u32, T>::empty(),
    {
        ImportTable { slots: HashMap::new() }
    }

    pub fn get(&self, id: u32) -> (r: Option<&T>)
        ensures
            r matches Some(v) ==> self@.contains_key(id) && *v == self@[id],
            r is None ==> !self@.contains_key(id),
    {
        self.slots.get(&id)
    }

    pub fn insert(&mut self, id: u32, val: T)
        ensures
            final(self)@ == old(self)@.insert(id, val),
    {
        self.slots.insert(id, val);
    }

    pub fn remove(&mut self, id: u32) -> (r: Option<T>)
        ensures
            final(self)@ == old(self)@.remove(id),
            r matches Some(v) ==> old(self)@.contains_key(id) && v == old(self)@[id],
            r is None ==> !old(self)@.contains_key(id),
    {
        self.slots.remove(&id)
    }
}

} // verus!
