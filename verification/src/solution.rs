use vstd::prelude::*;

use crate::segment::{insert_seq, remove_range};

verus! {

/// The state of a list planning variable: for every owner entity, the ordered list of the
/// element indices assigned to it, together with the size of the element pool
/// (elements are `0..element_count`).
pub struct ListSolution {
    pub routes: Vec<Vec<usize>>,
    pub element_count: usize,
}

/// The lists of a route vector, as sequences.
pub open spec fn route_lists(routes: Seq<Vec<usize>>) -> Seq<Seq<usize>> {
    routes.map_values(|r: Vec<usize>| r@)
}

impl ListSolution {
    /// Every owner's list, as a sequence of sequences.
    pub open spec fn lists(&self) -> Seq<Seq<usize>> {
        route_lists(self.routes@)
    }

    /// Number of owner entities.
    pub open spec fn spec_entity_count(&self) -> int {
        self.routes@.len() as int
    }

    /// Length of an owner's list; an index past the last owner has an empty list.
    pub open spec fn spec_list_len(&self, entity: int) -> int {
        if 0 <= entity < self.routes@.len() {
            self.routes@[entity]@.len() as int
        } else {
            0
        }
    }

    /// The element at a position of an owner's list, if there is one.
    pub open spec fn spec_list_get(&self, entity: int, pos: int) -> Option<usize> {
        if 0 <= entity < self.routes@.len() && 0 <= pos < self.routes@[entity]@.len() {
            Some(self.routes@[entity]@[pos])
        } else {
            None
        }
    }

    /// Every element stored in any list is below `bound`.
    pub open spec fn elements_below(&self, bound: int) -> bool {
        forall|e: int, p: int|
            0 <= e < self.routes@.len() && 0 <= p < self.routes@[e]@.len() ==> #[trigger] self.routes@[e]@[p] < bound
    }

    /// The list sequence has one entry per owner, equal to that owner's vector.
    pub proof fn lemma_lists(&self)
        ensures
            self.lists().len() == self.routes@.len(),
            forall|e: int| 0 <= e < self.routes@.len() ==> #[trigger] self.lists()[e] == self.routes@[e]@,
    {
    }

    pub fn new(routes: Vec<Vec<usize>>, element_count: usize) -> (s: Self)
        ensures
            s.routes@ == routes@,
            s.element_count == element_count,
    {
        ListSolution { routes, element_count }
    }

    pub fn entity_count(&self) -> (n: usize)
        ensures
            n == self.spec_entity_count(),
    {
        self.routes.len()
    }

    pub fn list_len(&self, entity: usize) -> (n: usize)
        ensures
            n == self.spec_list_len(entity as int),
    {
        if entity < self.routes.len() {
            self.routes[entity].len()
        } else {
            0
        }
    }

    pub fn list_get(&self, entity: usize, pos: usize) -> (r: Option<usize>)
        ensures
            r == self.spec_list_get(entity as int, pos as int),
    {
        if entity < self.routes.len() && pos < self.routes[entity].len() {
            Some(self.routes[entity][pos])
        } else {
            None
        }
    }

    /// Removes the elements at positions `start..end` of `entity`'s list and returns them.
    pub fn sublist_remove(&mut self, entity: usize, start: usize, end: usize) -> (removed: Vec<usize>)
        requires
            entity < old(self).routes@.len(),
            start <= end <= old(self).routes@[entity as int]@.len(),
        ensures
            removed@ == old(self).lists()[entity as int].subrange(start as int, end as int),
            final(self).lists() == old(self).lists().update(
                entity as int,
                remove_range(old(self).lists()[entity as int], start as int, end as int),
            ),
            final(self).element_count == old(self).element_count,
    {
        let ghost before = self.lists();
        let ghost orig = self.routes@[entity as int]@;
        assert(before[entity as int] == orig);
        let mut list: Vec<usize> = Vec::new();
        std::mem::swap(&mut list, &mut self.routes[entity]);
        assert(list@ == orig);
        let mut tail = list.split_off(end);
        let removed = list.split_off(start);
        list.append(&mut tail);
        assert(list@ =~= remove_range(orig, start as int, end as int));
        assert(removed@ =~= orig.subrange(start as int, end as int));
        self.routes[entity] = list;
        assert(self.lists() =~= before.update(
            entity as int,
            remove_range(before[entity as int], start as int, end as int),
        ));
        removed
    }

    /// Inserts `items`, in order, at position `pos` of `entity`'s list.
    pub fn sublist_insert(&mut self, entity: usize, pos: usize, items: Vec<usize>)
        requires
            entity < old(self).routes@.len(),
            pos <= old(self).routes@[entity as int]@.len(),
        ensures
            final(self).lists() == old(self).lists().update(
                entity as int,
                insert_seq(old(self).lists()[entity as int], pos as int, items@),
            ),
            final(self).element_count == old(self).element_count,
    {
        let ghost before = self.lists();
        let ghost orig = self.routes@[entity as int]@;
        let ghost it = items@;
        assert(before[entity as int] == orig);
        let mut items = items;
        let mut list: Vec<usize> = Vec::new();
        std::mem::swap(&mut list, &mut self.routes[entity]);
        assert(list@ == orig);
        let mut tail = list.split_off(pos);
        list.append(&mut items);
        list.append(&mut tail);
        assert(list@ =~= insert_seq(orig, pos as int, it));
        self.routes[entity] = list;
        assert(self.lists() =~= before.update(
            entity as int,
            insert_seq(before[entity as int], pos as int, it),
        ));
    }
}

} // verus!

verus! {

/// A table of vectors, as a sequence of sequences.
pub open spec fn deep_table(t: Seq<Vec<usize>>) -> Seq<Seq<usize>> {
    t.map_values(|v: Vec<usize>| v@)
}

/// A copy of a table of vectors.
pub fn clone_table(t: &Vec<Vec<usize>>) -> (r: Vec<Vec<usize>>)
    ensures
        deep_table(r@) == deep_table(t@),
{
    let mut r: Vec<Vec<usize>> = Vec::new();
    let mut i: usize = 0;
    while i < t.len()
        invariant
            i <= t@.len(),
            r@.len() == i,
            forall|k: int| 0 <= k < i ==> #[trigger] r@[k]@ == t@[k]@,
        decreases t@.len() - i,
    {
        let mut row: Vec<usize> = Vec::new();
        let mut j: usize = 0;
        while j < t[i].len()
            invariant
                i < t@.len(),
                j <= t@[i as int]@.len(),
                row@ == t@[i as int]@.subrange(0, j as int),
            decreases t@[i as int]@.len() - j,
        {
            row.push(t[i][j]);
            j = j + 1;
        }
        assert(row@ =~= t@[i as int]@);
        r.push(row);
        i = i + 1;
    }
    assert(deep_table(r@) =~= deep_table(t@));
    r
}

/// A copy of a family-key table.
pub fn clone_keys(t: &Vec<Option<u64>>) -> (r: Vec<Option<u64>>)
    ensures
        r@ == t@,
{
    let mut r: Vec<Option<u64>> = Vec::new();
    let mut i: usize = 0;
    while i < t.len()
        invariant
            i <= t@.len(),
            r@ == t@.subrange(0, i as int),
        decreases t@.len() - i,
    {
        r.push(t[i]);
        i = i + 1;
    }
    assert(r@ =~= t@);
    r
}

/// An element may be placed on `owner` when its eligible-owner set is empty (any owner) or
/// names `owner`.
pub open spec fn owner_eligible(owners: Seq<usize>, owner: usize) -> bool {
    owners.len() == 0 || owners.contains(owner)
}

/// Whether `owner` is an eligible owner for an element whose eligible-owner set is `owners`.
pub fn is_owner_eligible(owners: &Vec<usize>, owner: usize) -> (r: bool)
    ensures
        r == owner_eligible(owners@, owner),
{
    if owners.len() == 0 {
        return true;
    }
    let mut i: usize = 0;
    while i < owners.len()
        invariant
            i <= owners@.len(),
            forall|k: int| 0 <= k < i ==> owners@[k] != owner,
        decreases owners@.len() - i,
    {
        if owners[i] == owner {
            assert(owners@.contains(owner)) by { assert(owners@[i as int] == owner); }
            return true;
        }
        i = i + 1;
    }
    false
}

/// Whether `x` occurs in `v`.
pub fn vec_contains(v: &Vec<usize>, x: usize) -> (r: bool)
    ensures
        r == v@.contains(x),
{
    let mut i: usize = 0;
    while i < v.len()
        invariant
            i <= v@.len(),
            forall|k: int| 0 <= k < i ==> v@[k] != x,
        decreases v@.len() - i,
    {
        if v[i] == x {
            assert(v@[i as int] == x);
            return true;
        }
        i = i + 1;
    }
    false
}

} // verus!
