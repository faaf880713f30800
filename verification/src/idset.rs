//! An ordered set of content ids: the ids in strictly increasing byte
//! order, each once. Iteration order is the sorted order, as for an
//! ordered tree set.

use vstd::prelude::*;

use crate::order::{bytes_lt, lemma_bytes_order, order_ids};
use crate::ContentId;

verus! {

/// The byte strings of a sequence of ids.
pub open spec fn id_bytes(ids: Seq<ContentId>) -> Seq<Seq<u8>> {
    ids.map_values(|c: ContentId| c.0@)
}

/// Strictly increasing in byte order.
pub open spec fn strictly_sorted(s: Seq<Seq<u8>>) -> bool {
    forall|i: int, j: int| 0 <= i < j < s.len() ==> bytes_lt(#[trigger] s[i], #[trigger] s[j])
}

#[derive(Debug, PartialEq, Eq)]
pub struct IdSet {
    ids: Vec<ContentId>,
}

impl Clone for IdSet {
    fn clone(&self) -> (r: IdSet)
        ensures
            r.items() == self.items(),
    {
        proof {
            use_type_invariant(self);
        }
        let mut ids: Vec<ContentId> = Vec::new();
        for i in 0..self.ids.len()
            invariant
                id_bytes(ids@) == id_bytes(self.ids@).take(i as int),
        {
            let x = self.ids[i];
            let ghost before = ids@;
            ids.push(x);
            assert(ids@ == before.push(x));
            assert(id_bytes(ids@) =~= id_bytes(before).push(x.0@));
            assert(x.0@ == id_bytes(self.ids@)[i as int]);
            assert(id_bytes(ids@) =~= id_bytes(self.ids@).take(i + 1));
        }
        assert(id_bytes(self.ids@).take(self.ids.len() as int) =~= id_bytes(self.ids@));
        IdSet { ids }
    }
}

impl IdSet {
    /// The members, in increasing byte order.
    pub closed spec fn items(&self) -> Seq<Seq<u8>> {
        id_bytes(self.ids@)
    }

    /// The members as a set.
    pub open spec fn view(&self) -> Set<Seq<u8>> {
        self.items().to_set()
    }

    #[verifier::type_invariant]
    closed spec fn sorted(&self) -> bool {
        strictly_sorted(id_bytes(self.ids@))
    }

    /// Brings the set's invariant into a caller's proof: the members are
    /// listed in strictly increasing byte order, each a 32-byte id.
    /// Nothing happens at run time.
    pub fn witness_sorted(&self)
        ensures
            strictly_sorted(self.items()),
            forall|i: int| 0 <= i < self.items().len() ==> (#[trigger] self.items()[i]).len() == 32,
    {
        proof {
            use_type_invariant(self);
        }
    }

    /// An empty set.
    pub fn new() -> (s: IdSet)
        ensures
            s.items() == Seq::<Seq<u8>>::empty(),
    {
        let s = IdSet { ids: Vec::new() };
        assert(id_bytes(s.ids@) =~= Seq::<Seq<u8>>::empty());
        s
    }

    /// Number of members.
    pub fn len(&self) -> (n: usize)
        ensures
            n == self.items().len(),
    {
        self.ids.len()
    }

    /// True when the set has no member.
    pub fn is_empty(&self) -> (b: bool)
        ensures
            b == (self.items().len() == 0),
    {
        self.ids.len() == 0
    }

    /// The `i`-th member in increasing order.
    pub fn get(&self, i: usize) -> (id: ContentId)
        requires
            i < self.items().len(),
        ensures
            id.0@ == self.items()[i as int],
    {
        self.ids[i]
    }

    /// Position of the first member not below `id`.
    fn lower_bound(&self, id: &ContentId) -> (pos: usize)
        ensures
            pos <= self.items().len(),
            forall|k: int| 0 <= k < pos ==> bytes_lt(#[trigger] self.items()[k], id.0@),
            forall|k: int| pos <= k < self.items().len() ==> !bytes_lt(#[trigger] self.items()[k], id.0@),
    {
        proof {
            use_type_invariant(self);
        }
        let mut i: usize = 0;
        while i < self.ids.len()
            invariant
                i <= self.ids.len(),
                strictly_sorted(id_bytes(self.ids@)),
                forall|k: int| 0 <= k < i ==> bytes_lt(#[trigger] id_bytes(self.ids@)[k], id.0@),
            decreases self.ids.len() - i,
        {
            if order_ids(&self.ids[i], id) != -1 {
                assert forall|k: int| i <= k < self.ids.len() implies !bytes_lt(
                    #[trigger] id_bytes(self.ids@)[k],
                    id.0@,
                ) by {
                    let s = id_bytes(self.ids@);
                    lemma_bytes_order(s[i as int], s[k], id.0@);
                    lemma_bytes_order(s[k], id.0@, s[i as int]);
                    lemma_bytes_order(s[i as int], id.0@, s[k]);
                    if k > i {
                        assert(bytes_lt(s[i as int], s[k]));
                    }
                }
                return i;
            }
            i = i + 1;
        }
        i
    }

    /// True when `id` is a member.
    pub fn contains(&self, id: &ContentId) -> (b: bool)
        ensures
            b == self.items().contains(id.0@),
    {
        proof {
            use_type_invariant(self);
        }
        let pos = self.lower_bound(id);
        if pos < self.ids.len() && order_ids(&self.ids[pos], id) == 0 {
            assert(self.items()[pos as int] == id.0@);
            return true;
        }
        assert(!self.items().contains(id.0@)) by {
            if self.items().contains(id.0@) {
                let k = choose|k: int| 0 <= k < self.items().len() && self.items()[k] == id.0@;
                lemma_bytes_order(id.0@, id.0@, id.0@);
                if k >= pos && k > pos {
                    let s = self.items();
                    assert(bytes_lt(s[pos as int], s[k]));
                    lemma_bytes_order(s[pos as int], id.0@, id.0@);
                }
            }
        }
        false
    }

    /// Add `id`; false (and no change) when it was already a member.
    /// Adding above every member appends it.
    pub fn insert(&mut self, id: ContentId) -> (added: bool)
        ensures
            added == !old(self).items().contains(id.0@),
            final(self).view() == old(self).view().insert(id.0@),
            added ==> final(self).items().len() == old(self).items().len() + 1,
            !added ==> final(self).items() == old(self).items(),
            (old(self).items().len() == 0 || bytes_lt(old(self).items().last(), id.0@))
                ==> final(self).items() == old(self).items().push(id.0@),
    {
        proof {
            use_type_invariant(&*self);
        }
        let pos = self.lower_bound(&id);
        if pos < self.ids.len() && order_ids(&self.ids[pos], &id) == 0 {
            proof {
                assert(self.items()[pos as int] == id.0@);
                assert(self.items().to_set().insert(id.0@) =~= self.items().to_set());
            }
            return false;
        }
        let ghost old_items = self.items();
        proof {
            assert(!old_items.contains(id.0@)) by {
                if old_items.contains(id.0@) {
                    let k = choose|k: int| 0 <= k < old_items.len() && old_items[k] == id.0@;
                    lemma_bytes_order(id.0@, id.0@, id.0@);
                    if k > pos {
                        assert(bytes_lt(old_items[pos as int], old_items[k]));
                        lemma_bytes_order(old_items[pos as int], id.0@, id.0@);
                    }
                }
            }
            if pos < old_items.len() {
                lemma_bytes_order(old_items[pos as int], id.0@, id.0@);
            }
        }
        let mut ids: Vec<ContentId> = Vec::new();
        std::mem::swap(&mut ids, &mut self.ids);
        ids.insert(pos, id);
        let ghost new_items = id_bytes(ids@);
        assert(new_items =~= old_items.insert(pos as int, id.0@));
        assert(strictly_sorted(new_items)) by {
            assert forall|i: int, j: int| 0 <= i < j < new_items.len() implies bytes_lt(
                #[trigger] new_items[i],
                #[trigger] new_items[j],
            ) by {
                if j < pos {
                } else if i < pos && j == pos {
                } else if i < pos && j > pos {
                    assert(new_items[j] == old_items[j - 1]);
                    if pos < old_items.len() {
                        lemma_bytes_order(id.0@, old_items[pos as int], old_items[j - 1]);
                        lemma_bytes_order(new_items[i], id.0@, old_items[j - 1]);
                        if j - 1 > pos {
                            assert(bytes_lt(old_items[pos as int], old_items[j - 1]));
                        }
                    }
                } else if i == pos {
                    assert(new_items[j] == old_items[j - 1]);
                    lemma_bytes_order(id.0@, old_items[pos as int], old_items[j - 1]);
                    if j - 1 > pos {
                        assert(bytes_lt(old_items[pos as int], old_items[j - 1]));
                    }
                } else {
                    assert(new_items[i] == old_items[i - 1]);
                    assert(new_items[j] == old_items[j - 1]);
                }
            }
        }
        self.ids = ids;
        proof {
            assert(self.items() == new_items);
            assert(new_items.to_set() =~= old_items.to_set().insert(id.0@)) by {
                assert forall|x: Seq<u8>| new_items.to_set().contains(x) <==> old_items.to_set().insert(id.0@).contains(x) by {
                    if new_items.contains(x) {
                        let k = choose|k: int| 0 <= k < new_items.len() && new_items[k] == x;
                        if k < pos {
                            assert(old_items[k] == x);
                        } else if k > pos {
                            assert(old_items[k - 1] == x);
                        }
                    }
                    if old_items.contains(x) {
                        let k = choose|k: int| 0 <= k < old_items.len() && old_items[k] == x;
                        if k < pos {
                            assert(new_items[k] == x);
                        } else {
                            assert(new_items[k + 1] == x);
                        }
                    }
                    if x == id.0@ {
                        assert(new_items[pos as int] == x);
                    }
                }
            }
            if old_items.len() == 0 || bytes_lt(old_items.last(), id.0@) {
                if pos < old_items.len() {
                    let l = old_items.len() - 1;
                    if l > pos {
                        assert(bytes_lt(old_items[pos as int], old_items[l]));
                        lemma_bytes_order(old_items[pos as int], old_items[l], id.0@);
                    }
                    lemma_bytes_order(old_items[pos as int], id.0@, id.0@);
                }
                assert(new_items =~= old_items.push(id.0@));
            }
        }
        true
    }

    /// Add every member of `other`.
    pub fn insert_all(&mut self, other: &IdSet)
        ensures
            final(self).view() == old(self).view().union(other.view()),
    {
        let ghost start = self.view();
        let mut i: usize = 0;
        while i < other.len()
            invariant
                i <= other.items().len(),
                self.view() == start.union(other.items().take(i as int).to_set()),
            decreases other.items().len() - i,
        {
            let id = other.get(i);
            self.insert(id);
            proof {
                assert(other.items().take(i + 1) =~= other.items().take(i as int).push(id.0@));
                other.items().take(i as int).lemma_push_to_set_commute(id.0@);
                assert(other.items().take(i as int).push(id.0@).to_set() =~= other.items().take(
                    i as int,
                ).to_set().insert(id.0@));
                assert(self.view() =~= start.union(other.items().take(i + 1).to_set()));
            }
            i = i + 1;
        }
        assert(other.items().take(i as int) =~= other.items());
    }
}

} // verus!
