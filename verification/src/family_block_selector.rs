use std::rc::Rc;

use vstd::prelude::*;

use crate::family_block_move::FamilyBlockMove;
use crate::segment::{remove_range, SegmentRelocation};
use crate::solution::{deep_table, is_owner_eligible, owner_eligible, ListSolution};

verus! {

/// Lexicographic order of `(source entity, block start, destination entity)`, the order in
/// which the selector produces its moves.
pub open spec fn candidate_key_lt(a: SegmentRelocation, b: SegmentRelocation) -> bool {
    a.source_entity_index < b.source_entity_index
        || (a.source_entity_index == b.source_entity_index && a.source_start < b.source_start)
        || (a.source_entity_index == b.source_entity_index && a.source_start == b.source_start
            && a.dest_entity_index < b.dest_entity_index)
}

/// `r` is the position right after the first element of `list` whose family is `family`, or,
/// when there is none, the length of `list`.
pub open spec fn insert_pos_ok(keys: Seq<Option<u64>>, list: Seq<usize>, family: u64, r: int) -> bool {
    ||| exists|q: int|
        0 <= q < list.len() && keys[list[q] as int] == Some(family) && r == q + 1 && (forall|q2: int|
            0 <= q2 < q ==> keys[#[trigger] list[q2] as int] != Some(family))
    ||| r == list.len() && (forall|q: int| 0 <= q < list.len() ==> keys[#[trigger] list[q] as int] != Some(family))
}

/// A block start determines the block's end.
pub proof fn lemma_block_end_unique(sel: &FamilyBlockMoveSelector, list: Seq<usize>, i: int, j1: int, j2: int)
    requires
        sel.is_block(list, i, j1),
        sel.is_block(list, i, j2),
    ensures
        j1 == j2,
{
    if j1 < j2 {
        assert(sel.fam(list, j1) == sel.fam(list, i));
    } else if j2 < j1 {
        assert(sel.fam(list, j2) == sel.fam(list, i));
    }
}

/// The insertion position of a family on a list is unique.
pub proof fn lemma_insert_pos_unique(keys: Seq<Option<u64>>, list: Seq<usize>, family: u64, r1: int, r2: int)
    requires
        insert_pos_ok(keys, list, family, r1),
        insert_pos_ok(keys, list, family, r2),
    ensures
        r1 == r2,
{
    if exists|q: int| 0 <= q < list.len() && keys[list[q] as int] == Some(family) && r1 == q + 1 && (forall|q2: int|
            0 <= q2 < q ==> keys[#[trigger] list[q2] as int] != Some(family)) {
        let q1 = choose|q: int| 0 <= q < list.len() && keys[list[q] as int] == Some(family) && r1 == q + 1 && (forall|q2: int|
            0 <= q2 < q ==> keys[#[trigger] list[q2] as int] != Some(family));
        if exists|q: int| 0 <= q < list.len() && keys[list[q] as int] == Some(family) && r2 == q + 1 && (forall|q2: int|
            0 <= q2 < q ==> keys[#[trigger] list[q2] as int] != Some(family)) {
            let q2 = choose|q: int| 0 <= q < list.len() && keys[list[q] as int] == Some(family) && r2 == q + 1 && (forall|q3: int|
                0 <= q3 < q ==> keys[#[trigger] list[q3] as int] != Some(family));
            if q1 < q2 {
                assert(keys[list[q1] as int] != Some(family));
            } else if q2 < q1 {
                assert(keys[list[q2] as int] != Some(family));
            }
        } else {
            assert(keys[list[q1] as int] != Some(family));
        }
    } else {
        if exists|q: int| 0 <= q < list.len() && keys[list[q] as int] == Some(family) && r2 == q + 1 && (forall|q2: int|
            0 <= q2 < q ==> keys[#[trigger] list[q2] as int] != Some(family)) {
            let q2 = choose|q: int| 0 <= q < list.len() && keys[list[q] as int] == Some(family) && r2 == q + 1 && (forall|q3: int|
                0 <= q3 < q ==> keys[#[trigger] list[q3] as int] != Some(family));
            assert(keys[list[q2] as int] != Some(family));
        }
    }
}

/// A move selector that relocates maximal contiguous runs of same-family elements of a list
/// variable, as one block, to another place, refusing destinations that some element of the
/// block is not eligible for.
///
/// The family of element `v` is `element_family_key[v]` (`None` never joins a run); its
/// eligible owners are `element_eligible_owners[v]` (empty: any owner). Every entity of the
/// list variable is both a source and a destination. Only runs of at least `min_block_size`
/// elements are relocated, and a block lands right after the first element of its family on
/// the destination (counted after the block's removal when the destination is the source),
/// or at the end of the destination when it holds no element of that family.
#[derive(Debug)]
pub struct FamilyBlockMoveSelector {
    min_block_size: usize,
    element_family_key: Rc<Vec<Option<u64>>>,
    element_eligible_owners: Rc<Vec<Vec<usize>>>,
    variable_name: &'static str,
    descriptor_index: usize,
}

/// The moves of one opening of a family-block selector, handed out one at a time.
#[derive(Debug)]
pub struct FamilyBlockMoveCursor {
    store: Vec<Option<FamilyBlockMove>>,
    next_index: usize,
}

impl FamilyBlockMoveCursor {
    /// The candidates still held, by id (`None` once taken).
    pub closed spec fn slots(&self) -> Seq<Option<FamilyBlockMove>> {
        self.store@
    }

    /// The id the next call of `next_candidate` starts looking from.
    pub closed spec fn position(&self) -> int {
        self.next_index as int
    }

    fn new(moves: Vec<FamilyBlockMove>) -> (c: Self)
        ensures
            c.slots().len() == moves@.len(),
            forall|k: int| 0 <= k < moves@.len() ==> #[trigger] c.slots()[k] == Some(moves@[k]),
            c.position() == 0,
    {
        let mut store: Vec<Option<FamilyBlockMove>> = Vec::new();
        let mut moves = moves;
        let ghost all = moves@;
        let mut i: usize = 0;
        let n = moves.len();
        let mut rest: Vec<FamilyBlockMove> = Vec::new();
        // Keep the original order: take the moves from the back and store them reversed.
        while moves.len() > 0
            invariant
                n == all.len(),
                moves@ == all.subrange(0, moves@.len() as int),
                rest@.len() == all.len() - moves@.len(),
                forall|k: int| 0 <= k < rest@.len() ==> #[trigger] rest@[k] == all[all.len() - 1 - k],
            decreases moves@.len(),
        {
            let m = moves.pop().unwrap();
            rest.push(m);
        }
        while rest.len() > 0
            invariant
                n == all.len(),
                rest@.len() + store@.len() == all.len(),
                forall|k: int| 0 <= k < rest@.len() ==> #[trigger] rest@[k] == all[all.len() - 1 - k],
                forall|k: int| 0 <= k < store@.len() ==> #[trigger] store@[k] == Some(all[k]),
            decreases rest@.len(),
        {
            let m = rest.pop().unwrap();
            store.push(Some(m));
        }
        FamilyBlockMoveCursor { store, next_index: 0 }
    }

    /// The id of the next candidate not yet taken, if any.
    pub fn next_candidate(&mut self) -> (r: Option<usize>)
        ensures
            final(self).slots() == old(self).slots(),
            match r {
                Some(id) => {
                    &&& old(self).position() <= id < old(self).slots().len()
                    &&& old(self).slots()[id as int] is Some
                    &&& final(self).position() == id + 1
                    &&& forall|k: int| old(self).position() <= k < id ==> old(self).slots()[k] is None
                },
                None => {
                    &&& final(self).position() == (if old(self).position() >= old(self).slots().len() {
                        old(self).position()
                    } else {
                        old(self).slots().len() as int
                    })
                    &&& forall|k: int| old(self).position() <= k < old(self).slots().len() ==> old(self).slots()[k] is None
                },
            },
    {
        while self.next_index < self.store.len()
            invariant
                self.store@ == old(self).store@,
                old(self).next_index <= self.next_index,
                old(self).next_index <= self.store@.len() ==> self.next_index <= self.store@.len(),
                old(self).next_index > self.store@.len() ==> self.next_index == old(self).next_index,
                forall|k: int| old(self).next_index <= k < self.next_index ==> self.store@[k] is None,
            decreases self.store@.len() - self.next_index,
        {
            let id = self.next_index;
            self.next_index = self.next_index + 1;
            if self.store[id].is_some() {
                return Some(id);
            }
        }
        None
    }

    /// The candidate with id `id`, unless it was taken.
    pub fn candidate(&self, id: usize) -> (r: Option<&FamilyBlockMove>)
        ensures
            r == (if id < self.slots().len() {
                match self.slots()[id as int] {
                    Some(m) => Some(&m),
                    None => None,
                }
            } else {
                None
            }),
    {
        if id < self.store.len() {
            match &self.store[id] {
                Some(m) => Some(m),
                None => None,
            }
        } else {
            None
        }
    }

    /// Takes the candidate with id `id` out of the cursor.
    pub fn take_candidate(&mut self, id: usize) -> (m: FamilyBlockMove)
        requires
            id < old(self).slots().len(),
            old(self).slots()[id as int] is Some,
        ensures
            Some(m) == old(self).slots()[id as int],
            final(self).slots() == old(self).slots().update(id as int, None),
            final(self).position() == old(self).position(),
    {
        let mut slot: Option<FamilyBlockMove> = None;
        std::mem::swap(&mut slot, &mut self.store[id]);
        self.store[id] = None;
        slot.unwrap()
    }
}

impl FamilyBlockMoveSelector {
    pub closed spec fn min_block(&self) -> usize {
        self.min_block_size
    }

    pub closed spec fn family_keys(&self) -> Seq<Option<u64>> {
        self.element_family_key@
    }

    pub closed spec fn owner_table(&self) -> Seq<Seq<usize>> {
        deep_table(self.element_eligible_owners@)
    }

    pub closed spec fn spec_variable_name(&self) -> &'static str {
        self.variable_name
    }

    pub closed spec fn spec_descriptor_index(&self) -> usize {
        self.descriptor_index
    }

    /// Both element tables have an entry for every element stored in `solution`.
    pub open spec fn covers(&self, solution: &ListSolution) -> bool {
        &&& solution.elements_below(self.family_keys().len() as int)
        &&& solution.elements_below(self.owner_table().len() as int)
    }

    /// The family of the element at position `p` of `list`.
    pub open spec fn fam(&self, list: Seq<usize>, p: int) -> Option<u64> {
        self.family_keys()[list[p] as int]
    }

    /// The list of `entity` in `solution` (empty past the last entity).
    pub open spec fn list_of(solution: &ListSolution, entity: int) -> Seq<usize> {
        if 0 <= entity < solution.routes@.len() {
            solution.routes@[entity]@
        } else {
            Seq::empty()
        }
    }

    /// `i..j` is a maximal run of elements of one (present) family in `list`, at least
    /// `min_block_size` long.
    pub open spec fn is_block(&self, list: Seq<usize>, i: int, j: int) -> bool {
        &&& 0 <= i < j <= list.len()
        &&& self.fam(list, i) is Some
        &&& forall|p: int| i <= p < j ==> #[trigger] self.fam(list, p) == self.fam(list, i)
        &&& (i == 0 || self.fam(list, i - 1) != self.fam(list, i))
        &&& (j == list.len() || self.fam(list, j) != self.fam(list, i))
        &&& j - i >= self.min_block()
    }

    /// Every element at positions `start..end` of `list` is eligible for `dst`.
    pub open spec fn spec_block_eligible(&self, list: Seq<usize>, start: int, end: int, dst: usize) -> bool {
        forall|p: int| start <= p < end ==> owner_eligible(#[trigger] self.owner_table()[list[p] as int], dst)
    }

    /// `r` is a move the selector offers on `solution`: a block of the source, an eligible
    /// destination entity, the family-adjacent (or appended) insertion position, and not the
    /// identity.
    pub open spec fn is_candidate(&self, solution: &ListSolution, r: SegmentRelocation) -> bool {
        let n = solution.routes@.len();
        let src = r.source_entity_index as int;
        let dst = r.dest_entity_index as int;
        let list = Self::list_of(solution, src);
        let dlist = Self::list_of(solution, dst);
        let family = self.fam(list, r.source_start as int)->0;
        let target = if src == dst {
            remove_range(dlist, r.source_start as int, r.source_end as int)
        } else {
            dlist
        };
        &&& src < n
        &&& dst < n
        &&& self.is_block(list, r.source_start as int, r.source_end as int)
        &&& self.spec_block_eligible(list, r.source_start as int, r.source_end as int, r.dest_entity_index)
        &&& insert_pos_ok(self.family_keys(), target, family, r.dest_position as int)
        &&& !(src == dst && r.dest_position == r.source_start)
    }

    /// `moves` are exactly the candidates on `solution`, in candidate-key order.
    pub open spec fn enumerates(&self, solution: &ListSolution, moves: Seq<FamilyBlockMove>) -> bool {
        &&& forall|k: int| 0 <= k < moves.len() ==> {
            &&& self.is_candidate(solution, #[trigger] moves[k].relocation())
            &&& moves[k].eligibility() == self.owner_table()
            &&& moves[k].spec_variable_name() == self.spec_variable_name()
            &&& moves[k].spec_descriptor_index() == self.spec_descriptor_index()
        }
        &&& forall|r: SegmentRelocation| #[trigger] self.is_candidate(solution, r) ==> exists|k: int|
            0 <= k < moves.len() && #[trigger] moves[k].relocation() == r
        &&& forall|k: int, l: int| 0 <= k < l < moves.len() ==> candidate_key_lt(
            #[trigger] moves[k].relocation(),
            #[trigger] moves[l].relocation(),
        )
    }

    /// Creates a family-block move selector over every entity of the list variable.
    pub fn new(
        min_block_size: usize,
        element_family_key: Vec<Option<u64>>,
        element_eligible_owners: Vec<Vec<usize>>,
        variable_name: &'static str,
        descriptor_index: usize,
    ) -> (s: Self)
        requires
            min_block_size >= 1,
        ensures
            s.min_block() == min_block_size,
            s.family_keys() == element_family_key@,
            s.owner_table() == deep_table(element_eligible_owners@),
            s.spec_variable_name() == variable_name,
            s.spec_descriptor_index() == descriptor_index,
    {
        FamilyBlockMoveSelector {
            min_block_size,
            element_family_key: Rc::new(element_family_key),
            element_eligible_owners: Rc::new(element_eligible_owners),
            variable_name,
            descriptor_index,
        }
    }

    /// The family of the element at position `pos` of `entity`'s list, if there is one.
    fn family_at(&self, solution: &ListSolution, entity: usize, pos: usize) -> (r: Option<u64>)
        requires
            self.covers(solution),
            entity < solution.routes@.len(),
            pos < solution.routes@[entity as int]@.len(),
        ensures
            r == self.fam(solution.routes@[entity as int]@, pos as int),
    {
        let v = solution.routes[entity][pos];
        self.element_family_key[v]
    }

    /// The maximal same-family runs of at least `min_block_size` elements of `entity`'s list,
    /// as `(start, end)` pairs, in increasing order.
    pub fn blocks_in(&self, solution: &ListSolution, entity: usize) -> (out: Vec<(usize, usize)>)
        requires
            self.covers(solution),
            self.min_block() >= 1,
        ensures
            forall|k: int| 0 <= k < out@.len() ==> self.is_block(
                Self::list_of(solution, entity as int),
                (#[trigger] out@[k]).0 as int,
                out@[k].1 as int,
            ),
            forall|i: int, j: int| #[trigger] self.is_block(Self::list_of(solution, entity as int), i, j) ==> exists|k: int|
                0 <= k < out@.len() && #[trigger] out@[k] == (i as usize, j as usize),
            forall|k: int, l: int| 0 <= k < l < out@.len() ==> (#[trigger] out@[k]).1 <= (#[trigger] out@[l]).0,
    {
        let ghost list = Self::list_of(solution, entity as int);
        let len = solution.list_len(entity);
        let mut out: Vec<(usize, usize)> = Vec::new();
        if len == 0 {
            return out;
        }
        assert(list == solution.routes@[entity as int]@);
        let mut i: usize = 0;
        while i < len
            invariant
                self.covers(solution),
                self.min_block() >= 1,
                entity < solution.routes@.len(),
                list == solution.routes@[entity as int]@,
                len == list.len(),
                i <= len,
                i < len ==> (i == 0 || self.fam(list, i - 1) is None || self.fam(list, i - 1) != self.fam(list, i as int)),
                forall|k: int| 0 <= k < out@.len() ==> self.is_block(list, (#[trigger] out@[k]).0 as int, out@[k].1 as int),
                forall|k: int| 0 <= k < out@.len() ==> (#[trigger] out@[k]).1 <= i,
                forall|k: int, l: int| 0 <= k < l < out@.len() ==> (#[trigger] out@[k]).1 <= (#[trigger] out@[l]).0,
                forall|s: int, t: int| #[trigger] self.is_block(list, s, t) && s < i ==> exists|k: int|
                    0 <= k < out@.len() && #[trigger] out@[k] == (s as usize, t as usize),
            decreases len - i,
        {
            let fam = self.family_at(solution, entity, i);
            if fam.is_none() {
                assert forall|s: int, t: int| #[trigger] self.is_block(list, s, t) && s < i + 1 implies exists|k: int|
                    0 <= k < out@.len() && #[trigger] out@[k] == (s as usize, t as usize) by {
                    if s == i {
                        assert(self.fam(list, s) is Some);
                    }
                }
                i = i + 1;
                continue;
            }
            let mut j = i + 1;
            let mut same = true;
            while same && j < len
                invariant
                    self.covers(solution),
                    entity < solution.routes@.len(),
                    list == solution.routes@[entity as int]@,
                    len == list.len(),
                    i < j <= len,
                    fam == self.fam(list, i as int),
                    forall|p: int| i <= p < j ==> #[trigger] self.fam(list, p) == fam,
                    !same ==> j < len && self.fam(list, j as int) != fam,
                decreases len - j, (if same { 1int } else { 0int }),
            {
                let f2 = self.family_at(solution, entity, j);
                if f2 != fam {
                    same = false;
                } else {
                    j = j + 1;
                }
            }
            assert(j == len || self.fam(list, j as int) != fam);
            let ghost old_out = out@;
            if j - i >= self.min_block_size {
                assert(self.is_block(list, i as int, j as int));
                out.push((i, j));
            }
            assert forall|s: int, t: int| #[trigger] self.is_block(list, s, t) && s < j implies exists|k: int|
                0 <= k < out@.len() && #[trigger] out@[k] == (s as usize, t as usize) by {
                if s < i {
                    let k = choose|k: int| 0 <= k < old_out.len() && #[trigger] old_out[k] == (s as usize, t as usize);
                    assert(out@[k] == old_out[k]);
                } else if s == i {
                    if t < j {
                        assert(self.fam(list, t) == fam);
                    } else if t > j {
                        assert(self.fam(list, j as int) == self.fam(list, s));
                    }
                    assert(t == j);
                    assert(out@[out@.len() - 1] == (s as usize, t as usize));
                } else {
                    assert(self.fam(list, s - 1) == fam);
                    assert(self.fam(list, s) == fam);
                }
            }
            i = j;
        }
        out
    }

    /// Whether every element at positions `start..end` of `entity`'s list is eligible for
    /// `dst_entity`.
    fn block_eligible_for(
        &self,
        solution: &ListSolution,
        entity: usize,
        start: usize,
        end: usize,
        dst_entity: usize,
    ) -> (r: bool)
        requires
            self.covers(solution),
            entity < solution.routes@.len(),
            start <= end <= solution.routes@[entity as int]@.len(),
        ensures
            r == self.spec_block_eligible(solution.routes@[entity as int]@, start as int, end as int, dst_entity),
    {
        let ghost list = solution.routes@[entity as int]@;
        let mut pos = start;
        while pos < end
            invariant
                self.covers(solution),
                entity < solution.routes@.len(),
                list == solution.routes@[entity as int]@,
                start <= pos <= end,
                end <= list.len(),
                forall|p: int| start <= p < pos ==> owner_eligible(#[trigger] self.owner_table()[list[p] as int], dst_entity),
            decreases end - pos,
        {
            let v = solution.routes[entity][pos];
            let eligible = &self.element_eligible_owners[v];
            assert(self.owner_table()[v as int] == eligible@);
            if !is_owner_eligible(eligible, dst_entity) {
                assert(!owner_eligible(self.owner_table()[list[pos as int] as int], dst_entity));
                return false;
            }
            pos = pos + 1;
        }
        true
    }

    /// The insertion position on `dst` for a block of family `bfam`: right after the first
    /// element of that family in `dst`'s list, or its end when there is none; when `exclude` is
    /// the block's own range on `dst`, positions in it are skipped and do not count.
    fn insert_pos(
        &self,
        solution: &ListSolution,
        dst: usize,
        bfam: u64,
        exclude: Option<(usize, usize)>,
    ) -> (r: usize)
        requires
            self.covers(solution),
            dst < solution.routes@.len(),
            match exclude {
                Some((a, b)) => a <= b <= solution.routes@[dst as int]@.len(),
                None => true,
            },
        ensures
            insert_pos_ok(
                self.family_keys(),
                match exclude {
                    Some((a, b)) => remove_range(solution.routes@[dst as int]@, a as int, b as int),
                    None => solution.routes@[dst as int]@,
                },
                bfam,
                r as int,
            ),
    {
        let ghost dl = solution.routes@[dst as int]@;
        let ghost target = match exclude {
            Some((a, b)) => remove_range(dl, a as int, b as int),
            None => dl,
        };
        let ghost ea: int = match exclude { Some((a, b)) => a as int, None => dl.len() as int };
        let ghost eb: int = match exclude { Some((a, b)) => b as int, None => dl.len() as int };
        assert(target =~= remove_range(dl, ea, eb));
        let dlen = solution.list_len(dst);
        let mut post_removal_idx: usize = 0;
        let mut p: usize = 0;
        while p < dlen
            invariant
                self.covers(solution),
                dst < solution.routes@.len(),
                dl == solution.routes@[dst as int]@,
                dlen == dl.len(),
                0 <= ea <= eb <= dl.len(),
                target == remove_range(dl, ea, eb),
                match exclude { Some((a, b)) => ea == a && eb == b, None => ea == dl.len() && eb == dl.len() },
                p <= dlen,
                post_removal_idx == (if p <= ea { p as int } else if p <= eb { ea } else { p - (eb - ea) }),
                forall|q: int| 0 <= q < post_removal_idx ==> self.family_keys()[#[trigger] target[q] as int] != Some(bfam),
            decreases dlen - p,
        {
            if let Some((ex_start, ex_end)) = exclude {
                if p >= ex_start && p < ex_end {
                    p = p + 1;
                    continue;
                }
            }
            let f = self.family_at(solution, dst, p);
            assert(target[post_removal_idx as int] == dl[p as int]);
            if f == Some(bfam) {
                proof {
                    let q = post_removal_idx as int;
                    assert(self.family_keys()[target[q] as int] == Some(bfam));
                    assert(insert_pos_ok(self.family_keys(), target, bfam, q + 1));
                    assert(target == match exclude {
                        Some((a, b)) => remove_range(solution.routes@[dst as int]@, a as int, b as int),
                        None => solution.routes@[dst as int]@,
                    });
                }
                return post_removal_idx + 1;
            }
            post_removal_idx = post_removal_idx + 1;
            p = p + 1;
        }
        assert(post_removal_idx == target.len());
        assert(insert_pos_ok(self.family_keys(), target, bfam, post_removal_idx as int));
        post_removal_idx
    }

    /// Every move of `moves` is a candidate on `solution`, carrying the selector's tables and
    /// names.
    pub open spec fn all_candidates(&self, solution: &ListSolution, moves: Seq<FamilyBlockMove>) -> bool {
        forall|k: int| 0 <= k < moves.len() ==> {
            &&& self.is_candidate(solution, #[trigger] moves[k].relocation())
            &&& moves[k].eligibility() == self.owner_table()
            &&& moves[k].spec_variable_name() == self.spec_variable_name()
            &&& moves[k].spec_descriptor_index() == self.spec_descriptor_index()
        }
    }

    /// `moves` is strictly increasing in candidate-key order.
    pub open spec fn sorted_by_key(moves: Seq<FamilyBlockMove>) -> bool {
        forall|k: int, l: int| 0 <= k < l < moves.len() ==> candidate_key_lt(
            #[trigger] moves[k].relocation(),
            #[trigger] moves[l].relocation(),
        )
    }

    /// Some move of `moves` performs `r`.
    pub open spec fn covered(moves: Seq<FamilyBlockMove>, r: SegmentRelocation) -> bool {
        exists|k: int| 0 <= k < moves.len() && #[trigger] moves[k].relocation() == r
    }

    proof fn lemma_push_keeps(
        &self,
        solution: &ListSolution,
        old_moves: Seq<FamilyBlockMove>,
        m: FamilyBlockMove,
        bound: SegmentRelocation,
    )
        requires
            self.all_candidates(solution, old_moves),
            Self::sorted_by_key(old_moves),
            forall|k: int| 0 <= k < old_moves.len() ==> candidate_key_lt(#[trigger] old_moves[k].relocation(), bound),
            self.is_candidate(solution, m.relocation()),
            m.eligibility() == self.owner_table(),
            m.spec_variable_name() == self.spec_variable_name(),
            m.spec_descriptor_index() == self.spec_descriptor_index(),
            m.relocation().source_entity_index == bound.source_entity_index,
            m.relocation().source_start == bound.source_start,
            m.relocation().dest_entity_index == bound.dest_entity_index,
        ensures
            self.all_candidates(solution, old_moves.push(m)),
            Self::sorted_by_key(old_moves.push(m)),
            forall|r: SegmentRelocation| Self::covered(old_moves, r) ==> Self::covered(old_moves.push(m), r),
            Self::covered(old_moves.push(m), m.relocation()),
    {
        let nm = old_moves.push(m);
        assert forall|k: int| 0 <= k < old_moves.len() implies nm[k] == old_moves[k] by {}
        assert(nm[old_moves.len() as int] == m);
        assert forall|r: SegmentRelocation| Self::covered(old_moves, r) implies Self::covered(nm, r) by {
            let k = choose|k: int| 0 <= k < old_moves.len() && #[trigger] old_moves[k].relocation() == r;
            assert(nm[k].relocation() == r);
        }
    }

    /// The moves the selector offers on `solution`: see `enumerates`.
    pub fn iter_moves(&self, solution: &ListSolution) -> (moves: Vec<FamilyBlockMove>)
        requires
            self.covers(solution),
            self.min_block() >= 1,
        ensures
            self.enumerates(solution, moves@),
    {
        let n = solution.entity_count();
        let mut moves: Vec<FamilyBlockMove> = Vec::new();
        let mut src: usize = 0;
        while src < n
            invariant
                self.covers(solution),
                self.min_block() >= 1,
                n == solution.routes@.len(),
                src <= n,
                self.all_candidates(solution, moves@),
                Self::sorted_by_key(moves@),
                forall|k: int| 0 <= k < moves@.len() ==> (#[trigger] moves@[k].relocation()).source_entity_index < src,
                forall|r: SegmentRelocation| #[trigger] self.is_candidate(solution, r) && r.source_entity_index < src
                    ==> Self::covered(moves@, r),
            decreases n - src,
        {
            let ghost list = Self::list_of(solution, src as int);
            let blocks = self.blocks_in(solution, src);
            let mut bi: usize = 0;
            while bi < blocks.len()
                invariant
                    self.covers(solution),
                    self.min_block() >= 1,
                    n == solution.routes@.len(),
                    src < n,
                    list == Self::list_of(solution, src as int),
                    list == solution.routes@[src as int]@,
                    bi <= blocks@.len(),
                    forall|k: int| 0 <= k < blocks@.len() ==> self.is_block(list, (#[trigger] blocks@[k]).0 as int, blocks@[k].1 as int),
                    forall|i: int, j: int| #[trigger] self.is_block(list, i, j) ==> exists|k: int|
                        0 <= k < blocks@.len() && #[trigger] blocks@[k] == (i as usize, j as usize),
                    forall|k: int, l: int| 0 <= k < l < blocks@.len() ==> (#[trigger] blocks@[k]).1 <= (#[trigger] blocks@[l]).0,
                    self.all_candidates(solution, moves@),
                    Self::sorted_by_key(moves@),
                    forall|k: int| 0 <= k < moves@.len() ==> {
                        ||| (#[trigger] moves@[k].relocation()).source_entity_index < src
                        ||| (moves@[k].relocation().source_entity_index == src && (bi < blocks@.len() ==> moves@[k].relocation().source_start < blocks@[bi as int].0))
                    },
                    forall|r: SegmentRelocation| #[trigger] self.is_candidate(solution, r) && r.source_entity_index < src
                        ==> Self::covered(moves@, r),
                    forall|r: SegmentRelocation, k: int| #[trigger] self.is_candidate(solution, r) && r.source_entity_index == src
                        && 0 <= k < bi && #[trigger] blocks@[k] == (r.source_start, r.source_end)
                        ==> Self::covered(moves@, r),
                decreases blocks@.len() - bi,
            {
                let (block_start, block_end) = blocks[bi];
                assert(self.is_block(list, block_start as int, block_end as int));
                let bfam_opt = self.family_at(solution, src, block_start);
                let bfam = match bfam_opt {
                    Some(f) => f,
                    None => {
                        assert(false);
                        0
                    },
                };
                let ghost moves_at_block = moves@;
                let mut dst: usize = 0;
                while dst < n
                    invariant
                        self.covers(solution),
                        self.min_block() >= 1,
                        n == solution.routes@.len(),
                        src < n,
                        list == Self::list_of(solution, src as int),
                        list == solution.routes@[src as int]@,
                        bi < blocks@.len(),
                        blocks@[bi as int] == (block_start, block_end),
                        self.is_block(list, block_start as int, block_end as int),
                        Some(bfam) == self.fam(list, block_start as int),
                        dst <= n,
                        self.all_candidates(solution, moves@),
                        Self::sorted_by_key(moves@),
                        forall|k: int| 0 <= k < moves@.len() ==> candidate_key_lt(
                            #[trigger] moves@[k].relocation(),
                            SegmentRelocation {
                                source_entity_index: src,
                                source_start: block_start,
                                source_end: block_end,
                                dest_entity_index: dst,
                                dest_position: 0,
                            },
                        ),
                        moves_at_block.len() <= moves@.len(),
                        forall|r: SegmentRelocation| Self::covered(moves_at_block, r) ==> Self::covered(moves@, r),
                        forall|r: SegmentRelocation| #[trigger] self.is_candidate(solution, r)
                            && r.source_entity_index == src && r.source_start == block_start && r.dest_entity_index < dst
                            ==> Self::covered(moves@, r),
                        forall|k: int| moves_at_block.len() <= k < moves@.len() ==> (#[trigger] moves@[k].relocation()).source_entity_index == src
                            && moves@[k].relocation().source_start == block_start,
                        forall|k: int| 0 <= k < moves_at_block.len() ==> #[trigger] moves@[k] == moves_at_block[k],
                    decreases n - dst,
                {
                    let ghost old_moves = moves@;
                    let ghost bound = SegmentRelocation {
                        source_entity_index: src,
                        source_start: block_start,
                        source_end: block_end,
                        dest_entity_index: dst,
                        dest_position: 0,
                    };
                    let eligible = self.block_eligible_for(solution, src, block_start, block_end, dst);
                    if eligible {
                        let exclude = if dst == src { Some((block_start, block_end)) } else { None };
                        let dst_pos = self.insert_pos(solution, dst, bfam, exclude);
                        if !(dst == src && dst_pos == block_start) {
                            let m = FamilyBlockMove::new(
                                src,
                                block_start,
                                block_end,
                                dst,
                                dst_pos,
                                self.element_eligible_owners.clone(),
                                self.variable_name,
                                self.descriptor_index,
                            );
                            assert(self.is_candidate(solution, m.relocation()));
                            proof { self.lemma_push_keeps(solution, old_moves, m, bound); }
                            moves.push(m);
                            assert(moves@ == old_moves.push(m));
                        }
                        proof {
                            assert forall|r: SegmentRelocation| #[trigger] self.is_candidate(solution, r)
                                && r.source_entity_index == src && r.source_start == block_start && r.dest_entity_index == dst
                                implies Self::covered(moves@, r) by {
                                lemma_block_end_unique(self, list, block_start as int, r.source_end as int, block_end as int);
                                let target = if src == dst {
                                    remove_range(list, block_start as int, block_end as int)
                                } else {
                                    Self::list_of(solution, dst as int)
                                };
                                lemma_insert_pos_unique(self.family_keys(), target, bfam, r.dest_position as int, dst_pos as int);
                                let k = moves@.len() - 1;
                                assert(moves@[k].relocation() == r);
                            }
                        }
                    } else {
                        proof {
                            assert forall|r: SegmentRelocation| #[trigger] self.is_candidate(solution, r)
                                && r.source_entity_index == src && r.source_start == block_start && r.dest_entity_index == dst
                                implies false by {
                                lemma_block_end_unique(self, list, block_start as int, r.source_end as int, block_end as int);
                            }
                        }
                    }
                    proof {
                        assert forall|k: int| 0 <= k < moves_at_block.len() implies #[trigger] moves@[k] == moves_at_block[k] by {
                            assert(moves@[k] == old_moves[k]);
                        }
                    }
                    dst = dst + 1;
                }
                proof {
                    assert forall|r: SegmentRelocation, k: int| #[trigger] self.is_candidate(solution, r) && r.source_entity_index == src
                        && 0 <= k < bi + 1 && #[trigger] blocks@[k] == (r.source_start, r.source_end)
                        implies Self::covered(moves@, r) by {
                        if k < bi {
                            assert(Self::covered(moves_at_block, r));
                        } else {
                            assert(r.dest_entity_index < n);
                        }
                    }
                    assert forall|k: int| 0 <= k < moves@.len() implies {
                        ||| (#[trigger] moves@[k].relocation()).source_entity_index < src
                        ||| (moves@[k].relocation().source_entity_index == src && (bi + 1 < blocks@.len() ==> moves@[k].relocation().source_start < blocks@[bi + 1].0))
                    } by {
                        if bi + 1 < blocks@.len() {
                            assert(blocks@[bi as int].1 <= blocks@[bi + 1].0);
                            assert(self.is_block(list, blocks@[bi as int].0 as int, blocks@[bi as int].1 as int));
                        }
                        if k < moves_at_block.len() {
                            assert(moves@[k] == moves_at_block[k]);
                        }
                    }
                    assert forall|r: SegmentRelocation| #[trigger] self.is_candidate(solution, r) && r.source_entity_index < src
                        implies Self::covered(moves@, r) by {
                        assert(Self::covered(moves_at_block, r));
                    }
                }
                bi = bi + 1;
            }
            proof {
                assert forall|r: SegmentRelocation| #[trigger] self.is_candidate(solution, r) && r.source_entity_index < src + 1
                    implies Self::covered(moves@, r) by {
                    if r.source_entity_index == src {
                        assert(self.is_block(list, r.source_start as int, r.source_end as int));
                        let k = choose|k: int| 0 <= k < blocks@.len() && #[trigger] blocks@[k] == (r.source_start, r.source_end);
                        assert(blocks@[k] == (r.source_start, r.source_end));
                    }
                }
            }
            src = src + 1;
        }
        moves
    }

    /// Opens a cursor over the moves of `iter_moves`.
    pub fn open_cursor(&self, solution: &ListSolution) -> (c: FamilyBlockMoveCursor)
        requires
            self.covers(solution),
            self.min_block() >= 1,
        ensures
            c.position() == 0,
            exists|moves: Seq<FamilyBlockMove>| {
                &&& self.enumerates(solution, moves)
                &&& c.slots().len() == moves.len()
                &&& forall|k: int| 0 <= k < moves.len() ==> #[trigger] c.slots()[k] == Some(moves[k])
            },
    {
        let moves = self.iter_moves(solution);
        let c = FamilyBlockMoveCursor::new(moves);
        assert(self.enumerates(solution, moves@));
        c
    }

    /// The number of moves the selector offers on `solution`.
    pub fn size(&self, solution: &ListSolution) -> (n: usize)
        requires
            self.covers(solution),
            self.min_block() >= 1,
        ensures
            exists|moves: Seq<FamilyBlockMove>| self.enumerates(solution, moves) && n == moves.len(),
    {
        let mut cursor = self.open_cursor(solution);
        let ghost total = cursor.slots().len();
        let mut count: usize = 0;
        let mut done = false;
        while !done
            invariant
                cursor.slots().len() == total,
                forall|k: int| 0 <= k < total ==> #[trigger] cursor.slots()[k] is Some,
                count == cursor.position(),
                cursor.position() <= total,
                done ==> cursor.position() == total,
                exists|moves: Seq<FamilyBlockMove>| self.enumerates(solution, moves) && total == moves.len(),
            decreases total - cursor.position(), (if done { 0int } else { 1int }),
        {
            let ghost before = cursor.slots();
            let next = cursor.next_candidate();
            match next {
                Some(id) => {
                    if id > count {
                        assert(before[count as int] is Some);
                    }
                    assert(id == count);
                    count = count + 1;
                },
                None => {
                    done = true;
                },
            }
        }
        count
    }
}

} // verus!

verus! {

/// An insertion position is at most the length of the list it is computed on.
pub proof fn lemma_insert_pos_bounded(keys: Seq<Option<u64>>, list: Seq<usize>, family: u64, r: int)
    requires
        insert_pos_ok(keys, list, family, r),
    ensures
        0 <= r <= list.len(),
{
}

/// Every move the selector offers on a solution is doable on that solution.
pub proof fn lemma_offered_moves_are_doable(
    selector: &FamilyBlockMoveSelector,
    solution: &ListSolution,
    moves: Seq<FamilyBlockMove>,
    k: int,
)
    requires
        selector.covers(solution),
        selector.enumerates(solution, moves),
        0 <= k < moves.len(),
    ensures
        moves[k].covers(solution),
        moves[k].spec_is_doable(solution),
        moves[k].relocation().dest_entity_index < solution.routes@.len(),
{
    let m = moves[k];
    let r = m.relocation();
    assert(selector.is_candidate(solution, r));
    solution.lemma_lists();
    let src = r.source_entity_index as int;
    let dst = r.dest_entity_index as int;
    let list = FamilyBlockMoveSelector::list_of(solution, src);
    let dlist = FamilyBlockMoveSelector::list_of(solution, dst);
    let family = selector.fam(list, r.source_start as int)->0;
    let target = if src == dst {
        remove_range(dlist, r.source_start as int, r.source_end as int)
    } else {
        dlist
    };
    lemma_insert_pos_bounded(selector.family_keys(), target, family, r.dest_position as int);
    assert(list == solution.lists()[src]);
    assert forall|p: int| r.source_start <= p < r.source_end implies owner_eligible(
        #[trigger] m.eligibility()[solution.lists()[src][p] as int],
        r.dest_entity_index,
    ) by {
        assert(owner_eligible(selector.owner_table()[list[p] as int], r.dest_entity_index));
    }
}

} // verus!

verus! {

/// Every offered move lands its block right after the first element of the block's family on
/// the destination list (taken without the block when the move stays in one list): the element
/// just before the insertion position has that family and no earlier one does. When the
/// destination holds no element of that family, the block is appended at its end.
pub proof fn lemma_offered_moves_land_after_first_of_family(
    selector: &FamilyBlockMoveSelector,
    solution: &ListSolution,
    moves: Seq<FamilyBlockMove>,
    k: int,
)
    requires
        selector.enumerates(solution, moves),
        0 <= k < moves.len(),
    ensures
        ({
            let r = moves[k].relocation();
            let keys = selector.family_keys();
            let source = solution.routes@[r.source_entity_index as int]@;
            let dest = solution.routes@[r.dest_entity_index as int]@;
            let family = keys[source[r.source_start as int] as int];
            let target = if r.source_entity_index == r.dest_entity_index {
                dest.subrange(0, r.source_start as int) + dest.subrange(r.source_end as int, dest.len() as int)
            } else {
                dest
            };
            let p = r.dest_position as int;
            &&& family is Some
            &&& 0 <= p <= target.len()
            &&& (p > 0 && keys[target[p - 1] as int] == family) || (p == target.len()
                && forall|q: int| 0 <= q < target.len() ==> keys[#[trigger] target[q] as int] != family)
            &&& forall|q: int| 0 <= q < p - 1 ==> keys[#[trigger] target[q] as int] != family
        }),
{
    let r = moves[k].relocation();
    assert(selector.is_candidate(solution, r));
    let keys = selector.family_keys();
    let src = r.source_entity_index as int;
    let dst = r.dest_entity_index as int;
    let list = FamilyBlockMoveSelector::list_of(solution, src);
    let dlist = FamilyBlockMoveSelector::list_of(solution, dst);
    let family = selector.fam(list, r.source_start as int)->0;
    let target = if src == dst {
        remove_range(dlist, r.source_start as int, r.source_end as int)
    } else {
        dlist
    };
    let p = r.dest_position as int;
    assert(insert_pos_ok(keys, target, family, p));
    if exists|q: int| 0 <= q < target.len() && keys[target[q] as int] == Some(family) && p == q + 1 && (forall|q2: int|
        0 <= q2 < q ==> keys[#[trigger] target[q2] as int] != Some(family)) {
        let q = choose|q: int| 0 <= q < target.len() && keys[target[q] as int] == Some(family) && p == q + 1 && (forall|q2: int|
            0 <= q2 < q ==> keys[#[trigger] target[q2] as int] != Some(family));
        assert(keys[target[p - 1] as int] == Some(family));
    }
}

} // verus!

verus! {

/// Every offered move takes a whole run of one present family from its source list (the
/// elements just outside it, where there are any, have another family), at least
/// `min_block_size` long, every element of which is eligible for the destination entity; it
/// names entities of the solution and is not the identity.
pub proof fn lemma_offered_moves_take_whole_eligible_runs(
    selector: &FamilyBlockMoveSelector,
    solution: &ListSolution,
    moves: Seq<FamilyBlockMove>,
    k: int,
)
    requires
        selector.enumerates(solution, moves),
        0 <= k < moves.len(),
    ensures
        ({
            let r = moves[k].relocation();
            let keys = selector.family_keys();
            let source = solution.routes@[r.source_entity_index as int]@;
            let family = keys[source[r.source_start as int] as int];
            let (i, j) = (r.source_start as int, r.source_end as int);
            &&& r.source_entity_index < solution.routes@.len()
            &&& r.dest_entity_index < solution.routes@.len()
            &&& 0 <= i < j <= source.len()
            &&& j - i >= selector.min_block()
            &&& family is Some
            &&& forall|p: int| i <= p < j ==> keys[#[trigger] source[p] as int] == family
            &&& i > 0 ==> keys[source[i - 1] as int] != family
            &&& j < source.len() ==> keys[source[j] as int] != family
            &&& forall|p: int| i <= p < j ==> {
                let owners = #[trigger] selector.owner_table()[source[p] as int];
                owners.len() == 0 || owners.contains(r.dest_entity_index)
            }
            &&& !(r.source_entity_index == r.dest_entity_index && r.dest_position == r.source_start)
        }),
{
    let r = moves[k].relocation();
    assert(selector.is_candidate(solution, r));
    let source = solution.routes@[r.source_entity_index as int]@;
    assert forall|p: int| r.source_start <= p < r.source_end implies selector.family_keys()[#[trigger] source[p] as int]
        == selector.family_keys()[source[r.source_start as int] as int] by {
        assert(selector.fam(source, p) == selector.fam(source, r.source_start as int));
    }
    assert forall|p: int| r.source_start <= p < r.source_end implies {
        let owners = #[trigger] selector.owner_table()[source[p] as int];
        owners.len() == 0 || owners.contains(r.dest_entity_index)
    } by {
        assert(owner_eligible(selector.owner_table()[source[p] as int], r.dest_entity_index));
    }
}

} // verus!
