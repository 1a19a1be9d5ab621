use std::rc::Rc;

use vstd::prelude::*;

use crate::segment::{
    derive_segment_relocation_layout, lemma_relocation_round_trip, SegmentRelocation,
};
use crate::slot::copy_vec;
use crate::solution::{deep_table, is_owner_eligible, owner_eligible, ListSolution};

verus! {

/// A move that relocates a contiguous block of a list variable from one position to another,
/// within one entity's list or between two entities' lists, and that is refused when some
/// element of the block is not eligible for the destination owner.
///
/// The eligible owners of element `v` are `eligible_owners[v]`; an empty set means that any
/// owner is eligible.
#[derive(Debug)]
pub struct FamilyBlockMove {
    source_entity_index: usize,
    source_start: usize,
    source_end: usize,
    dest_entity_index: usize,
    dest_position: usize,
    eligible_owners: Rc<Vec<Vec<usize>>>,
    variable_name: &'static str,
    descriptor_index: usize,
}

/// The identity of one relocation: its scope, the relocation, and the values it moves.
#[derive(Debug)]
pub struct MoveId {
    pub descriptor_index: usize,
    pub variable_name: &'static str,
    pub relocation: SegmentRelocation,
    pub moved_values: Vec<Option<usize>>,
}

/// The tabu identity of a relocation move: the scope it acts in, the entities it touches,
/// the values it moves, and the identities of the relocation it performs and of the one that
/// undoes it (both carrying the moved values).
#[derive(Debug)]
pub struct MoveTabuSignature {
    pub descriptor_index: usize,
    pub variable_name: &'static str,
    pub entity_tokens: Vec<usize>,
    pub destination_value_tokens: Vec<Option<usize>>,
    pub move_id: MoveId,
    pub undo_move_id: MoveId,
}

impl Clone for FamilyBlockMove {
    fn clone(&self) -> (r: Self)
        ensures
            r == *self,
    {
        FamilyBlockMove {
            source_entity_index: self.source_entity_index,
            source_start: self.source_start,
            source_end: self.source_end,
            dest_entity_index: self.dest_entity_index,
            dest_position: self.dest_position,
            eligible_owners: self.eligible_owners.clone(),
            variable_name: self.variable_name,
            descriptor_index: self.descriptor_index,
        }
    }
}

impl FamilyBlockMove {
    /// The relocation this move performs.
    pub closed spec fn relocation(&self) -> SegmentRelocation {
        SegmentRelocation {
            source_entity_index: self.source_entity_index,
            source_start: self.source_start,
            source_end: self.source_end,
            dest_entity_index: self.dest_entity_index,
            dest_position: self.dest_position,
        }
    }

    /// Eligible owners per element.
    pub closed spec fn eligibility(&self) -> Seq<Seq<usize>> {
        deep_table(self.eligible_owners@)
    }

    pub closed spec fn spec_variable_name(&self) -> &'static str {
        self.variable_name
    }

    pub closed spec fn spec_descriptor_index(&self) -> usize {
        self.descriptor_index
    }

    /// The move is well formed: its block is a real range whose shifted end fits in `usize`.
    pub open spec fn wf(&self) -> bool {
        let r = self.relocation();
        r.source_start <= r.source_end && r.dest_position + r.len() <= usize::MAX
    }

    /// Every element of every list of `solution` has an entry in the eligibility table.
    pub open spec fn covers(&self, solution: &ListSolution) -> bool {
        solution.elements_below(self.eligibility().len() as int)
    }

    /// Every element of the block is eligible for the destination owner.
    pub open spec fn block_eligible(&self, solution: &ListSolution) -> bool {
        let r = self.relocation();
        forall|p: int|
            r.source_start <= p < r.source_end ==> owner_eligible(
                #[trigger] self.eligibility()[solution.lists()[r.source_entity_index as int][p] as int],
                r.dest_entity_index,
            )
    }

    /// When the move may be done on `solution`: the block is non-empty and lies inside the
    /// source list, the destination position lies inside the destination list as it is after
    /// the block's removal, the move is not the identity, and every element of the block is
    /// eligible for the destination owner.
    pub open spec fn spec_is_doable(&self, solution: &ListSolution) -> bool {
        let r = self.relocation();
        let src = r.source_entity_index as int;
        let dst = r.dest_entity_index as int;
        let source_len = solution.spec_list_len(src);
        let max_dest = if src == dst {
            source_len - r.len()
        } else {
            solution.spec_list_len(dst)
        };
        &&& r.source_start < r.source_end
        &&& r.source_end <= source_len
        &&& r.dest_position <= max_dest
        &&& !(src == dst && r.dest_position == r.source_start)
        &&& self.block_eligible(solution)
    }

    /// Creates a family-block move of `source_start..source_end` of `source_entity_index` to
    /// `dest_position` of `dest_entity_index`.
    pub fn new(
        source_entity_index: usize,
        source_start: usize,
        source_end: usize,
        dest_entity_index: usize,
        dest_position: usize,
        eligible_owners: Rc<Vec<Vec<usize>>>,
        variable_name: &'static str,
        descriptor_index: usize,
    ) -> (m: Self)
        ensures
            m.relocation() == (SegmentRelocation {
                source_entity_index,
                source_start,
                source_end,
                dest_entity_index,
                dest_position,
            }),
            m.eligibility() == deep_table(eligible_owners@),
            m.spec_variable_name() == variable_name,
            m.spec_descriptor_index() == descriptor_index,
    {
        FamilyBlockMove {
            source_entity_index,
            source_start,
            source_end,
            dest_entity_index,
            dest_position,
            eligible_owners,
            variable_name,
            descriptor_index,
        }
    }

    pub fn source_entity_index(&self) -> (r: usize)
        ensures
            r == self.relocation().source_entity_index,
    {
        self.source_entity_index
    }

    pub fn source_start(&self) -> (r: usize)
        ensures
            r == self.relocation().source_start,
    {
        self.source_start
    }

    pub fn source_end(&self) -> (r: usize)
        ensures
            r == self.relocation().source_end,
    {
        self.source_end
    }

    /// The block length, `0` when the range is empty or reversed.
    pub fn sublist_len(&self) -> (r: usize)
        ensures
            r == (if self.relocation().source_end >= self.relocation().source_start {
                self.relocation().source_end - self.relocation().source_start
            } else {
                0
            }),
    {
        if self.source_end >= self.source_start {
            self.source_end - self.source_start
        } else {
            0
        }
    }

    pub fn dest_entity_index(&self) -> (r: usize)
        ensures
            r == self.relocation().dest_entity_index,
    {
        self.dest_entity_index
    }

    pub fn dest_position(&self) -> (r: usize)
        ensures
            r == self.relocation().dest_position,
    {
        self.dest_position
    }

    pub fn is_intra_list(&self) -> (r: bool)
        ensures
            r == (self.relocation().source_entity_index == self.relocation().dest_entity_index),
    {
        self.source_entity_index == self.dest_entity_index
    }

    pub fn descriptor_index(&self) -> (r: usize)
        ensures
            r == self.spec_descriptor_index(),
    {
        self.descriptor_index
    }

    pub fn variable_name(&self) -> (r: &'static str)
        ensures
            r == self.spec_variable_name(),
    {
        self.variable_name
    }

    pub fn telemetry_label(&self) -> (r: &'static str)
        ensures
            r@ == "family_block"@,
    {
        "family_block"
    }

    /// The entities whose lists the move changes: the source, and the destination when it
    /// differs.
    pub fn entity_indices(&self) -> (r: Vec<usize>)
        ensures
            r@ == (if self.relocation().source_entity_index == self.relocation().dest_entity_index {
                seq![self.relocation().source_entity_index]
            } else {
                seq![self.relocation().source_entity_index, self.relocation().dest_entity_index]
            }),
    {
        let mut r = Vec::new();
        r.push(self.source_entity_index);
        if self.source_entity_index != self.dest_entity_index {
            r.push(self.dest_entity_index);
        }
        r
    }

    /// Whether the move may be done on `solution` (see `spec_is_doable`).
    pub fn is_doable(&self, solution: &ListSolution) -> (r: bool)
        requires
            self.covers(solution),
        ensures
            r == self.spec_is_doable(solution),
    {
        if self.source_start >= self.source_end {
            return false;
        }
        let source_len = solution.list_len(self.source_entity_index);
        if self.source_end > source_len {
            return false;
        }
        let sublist_len = self.source_end - self.source_start;
        let dest_len = solution.list_len(self.dest_entity_index);
        let max_dest = if self.source_entity_index == self.dest_entity_index {
            source_len - sublist_len
        } else {
            dest_len
        };
        if self.dest_position > max_dest {
            return false;
        }
        if self.source_entity_index == self.dest_entity_index && self.dest_position == self.source_start {
            return false;
        }
        let src = self.source_entity_index;
        assert(src < solution.routes@.len());
        let mut pos = self.source_start;
        while pos < self.source_end
            invariant
                self.covers(solution),
                src == self.source_entity_index,
                src < solution.routes@.len(),
                self.source_start <= pos <= self.source_end,
                self.source_end <= solution.routes@[src as int]@.len(),
                forall|p: int|
                    self.source_start <= p < pos ==> owner_eligible(
                        #[trigger] self.eligibility()[solution.lists()[src as int][p] as int],
                        self.dest_entity_index,
                    ),
            decreases self.source_end - pos,
        {
            let v = solution.routes[src][pos];
            assert(solution.lists()[src as int][pos as int] == v);
            let eligible = &self.eligible_owners[v];
            assert(self.eligibility()[v as int] == eligible@);
            if !is_owner_eligible(eligible, self.dest_entity_index) {
                return false;
            }
            pos = pos + 1;
        }
        true
    }

    /// Relocates the block: `solution`'s lists become `relocation().apply(..)` of the old ones.
    pub fn do_move(&self, solution: &mut ListSolution)
        requires
            self.covers(old(solution)),
            self.spec_is_doable(old(solution)),
            self.relocation().dest_entity_index < old(solution).routes@.len(),
        ensures
            final(solution).lists() == self.relocation().apply(old(solution).lists()),
            final(solution).element_count == old(solution).element_count,
    {
        proof { old(solution).lemma_lists(); }
        let elements = solution.sublist_remove(self.source_entity_index, self.source_start, self.source_end);
        proof {
            solution.lemma_lists();
            let src = self.source_entity_index as int;
            let dst = self.dest_entity_index as int;
            if src != dst {
                assert(solution.lists()[dst] == old(solution).lists()[dst]);
            }
            assert(self.dest_position <= solution.lists()[dst].len());
        }
        solution.sublist_insert(self.dest_entity_index, self.dest_position, elements);
    }

    /// Undoes the move on a solution to which it was applied: the block is taken from where it
    /// was inserted and put back where it was removed.
    pub fn undo_move(&self, solution: &mut ListSolution)
        requires
            self.wf(),
            self.relocation().spec_inverse().applicable(old(solution).lists()),
        ensures
            final(solution).lists() == self.relocation().spec_inverse().apply(old(solution).lists()),
            final(solution).element_count == old(solution).element_count,
    {
        let layout = derive_segment_relocation_layout(
            self.source_entity_index,
            self.source_start,
            self.source_end,
            self.dest_entity_index,
            self.dest_position,
        );
        let inverse = layout.inverse;
        proof { old(solution).lemma_lists(); }
        let removed = solution.sublist_remove(
            inverse.source_entity_index,
            inverse.source_start,
            inverse.source_end,
        );
        proof {
            solution.lemma_lists();
            let src = inverse.source_entity_index as int;
            let dst = inverse.dest_entity_index as int;
            if src != dst {
                assert(solution.lists()[dst] == old(solution).lists()[dst]);
            }
            assert(inverse.dest_position <= solution.lists()[dst].len());
        }
        solution.sublist_insert(inverse.dest_entity_index, inverse.dest_position, removed);
    }

    /// The tabu signature of the move on `solution`.
    pub fn tabu_signature(&self, solution: &ListSolution) -> (sig: MoveTabuSignature)
        requires
            self.wf(),
        ensures
            sig.descriptor_index == self.spec_descriptor_index(),
            sig.variable_name == self.spec_variable_name(),
            sig.move_id.descriptor_index == self.spec_descriptor_index(),
            sig.move_id.variable_name == self.spec_variable_name(),
            sig.move_id.relocation == self.relocation(),
            sig.move_id.moved_values@ == sig.destination_value_tokens@,
            sig.undo_move_id.descriptor_index == self.spec_descriptor_index(),
            sig.undo_move_id.variable_name == self.spec_variable_name(),
            sig.undo_move_id.relocation == self.relocation().spec_inverse(),
            sig.undo_move_id.moved_values@ == sig.destination_value_tokens@,
            sig.entity_tokens@ == (if self.relocation().source_entity_index == self.relocation().dest_entity_index {
                seq![self.relocation().source_entity_index]
            } else {
                seq![self.relocation().source_entity_index, self.relocation().dest_entity_index]
            }),
            sig.destination_value_tokens@.len() == self.relocation().len(),
            forall|k: int|
                0 <= k < self.relocation().len() ==> #[trigger] sig.destination_value_tokens@[k]
                    == solution.spec_list_get(
                    self.relocation().source_entity_index as int,
                    self.relocation().source_start + k,
                ),
    {
        let layout = derive_segment_relocation_layout(
            self.source_entity_index,
            self.source_start,
            self.source_end,
            self.dest_entity_index,
            self.dest_position,
        );
        let mut moved: Vec<Option<usize>> = Vec::new();
        let mut pos = self.source_start;
        while pos < self.source_end
            invariant
                self.source_start <= pos <= self.source_end,
                moved@.len() == pos - self.source_start,
                forall|k: int|
                    0 <= k < moved@.len() ==> #[trigger] moved@[k] == solution.spec_list_get(
                        self.source_entity_index as int,
                        self.source_start + k,
                    ),
            decreases self.source_end - pos,
        {
            moved.push(solution.list_get(self.source_entity_index, pos));
            pos = pos + 1;
        }
        let move_values = copy_vec(&moved);
        let undo_values = copy_vec(&moved);
        MoveTabuSignature {
            descriptor_index: self.descriptor_index,
            variable_name: self.variable_name,
            entity_tokens: self.entity_indices(),
            destination_value_tokens: moved,
            move_id: MoveId {
                descriptor_index: self.descriptor_index,
                variable_name: self.variable_name,
                relocation: layout.exact,
                moved_values: move_values,
            },
            undo_move_id: MoveId {
                descriptor_index: self.descriptor_index,
                variable_name: self.variable_name,
                relocation: layout.inverse,
                moved_values: undo_values,
            },
        }
    }
}

/// A doable family-block move, once done, can be undone: the inverse relocation applies to
/// the moved lists and restores the lists the move started from.
pub proof fn lemma_family_block_undo_restores(m: &FamilyBlockMove, solution: &ListSolution)
    requires
        m.wf(),
        m.spec_is_doable(solution),
        m.relocation().dest_entity_index < solution.routes@.len(),
    ensures
        m.relocation().applicable(solution.lists()),
        m.relocation().spec_inverse().applicable(m.relocation().apply(solution.lists())),
        m.relocation().spec_inverse().apply(m.relocation().apply(solution.lists())) == solution.lists(),
{
    let r = m.relocation();
    solution.lemma_lists();
    assert(r.source_entity_index < solution.routes@.len());
    lemma_relocation_round_trip(r, solution.lists());
}

} // verus!
