//! Trees whose entries are ordered and can be reached by rank (their place in the order).
use crate::scapegoat_tree::{sorted_keys, ScapegoatTree};
use vstd::prelude::*;

verus! {

/// A tree of `(key, value)` entries kept in an order, reachable by rank.
pub trait RankedTree<V> {
    /// The entries, in order.
    spec fn ranked_items(&self) -> Seq<(u64, V)>;

    /// Whether the tree is well formed.
    spec fn ranked_wf(&self) -> bool;

    /// Whether one more entry can be inserted.
    spec fn has_room(&self) -> bool;

    /// The entry of rank `rank`, if there is one.
    fn get_ranked(&self, rank: usize) -> (r: Option<&(u64, V)>)
        requires
            self.ranked_wf(),
        ensures
            rank < self.ranked_items().len() ==> (r matches Some(e) && *e
                == self.ranked_items()[rank as int]),
            rank >= self.ranked_items().len() ==> r is None,
    ;

    /// Inserts an entry at rank `rank`, if `rank` is at most the number of entries.
    fn insert_at_rank(&mut self, rank: usize, key: u64, value: V)
        requires
            old(self).ranked_wf(),
            old(self).has_room(),
            old(self).ranked_items().len() > 0 || rank > 0,
        ensures
            final(self).ranked_wf(),
            rank > old(self).ranked_items().len() ==> final(self).ranked_items() == old(
                self,
            ).ranked_items(),
            rank <= old(self).ranked_items().len() ==> final(self).ranked_items() == old(
                self,
            ).ranked_items().insert(rank as int, (key, value)),
    ;

    /// Inserts an entry by its key; the order of keys is kept where it holds, and there the
    /// entry is left out exactly when its key is present.
    fn insert_by_key(&mut self, key: u64, value: V)
        requires
            old(self).ranked_wf(),
            old(self).has_room(),
        ensures
            final(self).ranked_wf(),
            sorted_keys(old(self).ranked_items()) ==> sorted_keys(final(self).ranked_items()),
            final(self).ranked_items() == old(self).ranked_items() || exists|pos: int|
                0 <= pos <= old(self).ranked_items().len() && final(self).ranked_items() == old(
                    self,
                ).ranked_items().insert(pos, (key, value)),
            sorted_keys(old(self).ranked_items()) ==> ((exists|i: int|
                0 <= i < old(self).ranked_items().len() && old(self).ranked_items()[i].0 == key) <==> (
            final(self).ranked_items() == old(self).ranked_items())),
    ;

    /// The value of an entry with the key `key`, if the search meets one.
    fn search_key(&self, key: u64) -> (r: Option<&V>)
        requires
            self.ranked_wf(),
        ensures
            r matches Some(v) ==> exists|i: int|
                0 <= i < self.ranked_items().len() && self.ranked_items()[i] == (key, *v),
            sorted_keys(self.ranked_items()) ==> (r is None <==> forall|i: int|
                0 <= i < self.ranked_items().len() ==> self.ranked_items()[i].0 != key),
    ;

    /// Removes an entry with the key `key` that the search meets, if any, and returns its
    /// value; the other entries keep their order.
    fn delete_by_key(&mut self, key: u64) -> (r: Option<V>)
        requires
            old(self).ranked_wf(),
        ensures
            final(self).ranked_wf(),
            r is None ==> final(self).ranked_items() == old(self).ranked_items(),
            r matches Some(v) ==> exists|i: int|
                0 <= i < old(self).ranked_items().len() && old(self).ranked_items()[i] == (key, v)
                    && final(self).ranked_items() == old(self).ranked_items().remove(i),
            sorted_keys(old(self).ranked_items()) ==> (r is None <==> forall|i: int|
                0 <= i < old(self).ranked_items().len() ==> old(self).ranked_items()[i].0 != key),
            sorted_keys(old(self).ranked_items()) ==> sorted_keys(final(self).ranked_items()),
    ;
}

impl<V> RankedTree<V> for ScapegoatTree<V> {
    open spec fn ranked_items(&self) -> Seq<(u64, V)> {
        self.items()
    }

    open spec fn ranked_wf(&self) -> bool {
        self.wf()
    }

    open spec fn has_room(&self) -> bool {
        self.items().len() < usize::MAX / 4
    }

    fn get_ranked(&self, rank: usize) -> (r: Option<&(u64, V)>) {
        self.get(rank)
    }

    fn insert_at_rank(&mut self, rank: usize, key: u64, value: V) {
        self.insert_rank(rank, key, value)
    }

    fn insert_by_key(&mut self, key: u64, value: V) {
        self.insert(key, value)
    }

    fn delete_by_key(&mut self, key: u64) -> (r: Option<V>) {
        let r = self.delete(key);
        proof {
            if r is Some {
                let v = r->0;
                let i = choose|i: int|
                    0 <= i < old(self).items().len() && old(self).items()[i] == (key, v)
                        && self.items() == old(self).items().remove(i);
                assert(old(self).ranked_items()[i] == (key, v));
            }
        }
        r
    }

    fn search_key(&self, key: u64) -> (r: Option<&V>) {
        let r = self.search(key);
        proof {
            if let Some(v) = r {
                let i = choose|i: int| 0 <= i < self.items().len() && self.items()[i] == (key, *v);
                assert(self.ranked_items()[i] == (key, *v));
            }
        }
        r
    }
}

} // verus!
