use vstd::prelude::*;

use crate::family_block_move::{FamilyBlockMove, MoveTabuSignature};
use crate::segment::SegmentRelocation;
use crate::solution::ListSolution;

verus! {

/// The list-variable moves of this library under one type, so that neighborhoods of
/// different kinds can be combined without type erasure.
#[derive(Debug)]
pub enum ListMoveUnion {
    FamilyBlock(FamilyBlockMove),
}

/// What undoing a `ListMoveUnion` needs, by move kind.
#[derive(Debug, PartialEq, Eq)]
pub enum ListMoveUnionUndo {
    FamilyBlock(()),
}

impl Clone for ListMoveUnion {
    fn clone(&self) -> (r: Self)
        ensures
            r == *self,
    {
        match self {
            ListMoveUnion::FamilyBlock(m) => ListMoveUnion::FamilyBlock(m.clone()),
        }
    }
}

impl ListMoveUnion {
    /// The relocation the move performs.
    pub open spec fn relocation(&self) -> SegmentRelocation {
        match self {
            ListMoveUnion::FamilyBlock(m) => m.relocation(),
        }
    }

    pub open spec fn covers(&self, solution: &ListSolution) -> bool {
        match self {
            ListMoveUnion::FamilyBlock(m) => m.covers(solution),
        }
    }

    pub open spec fn spec_is_doable(&self, solution: &ListSolution) -> bool {
        match self {
            ListMoveUnion::FamilyBlock(m) => m.spec_is_doable(solution),
        }
    }

    pub fn is_doable(&self, solution: &ListSolution) -> (r: bool)
        requires
            self.covers(solution),
        ensures
            r == self.spec_is_doable(solution),
    {
        match self {
            ListMoveUnion::FamilyBlock(m) => m.is_doable(solution),
        }
    }

    /// Does the move and returns what its undo needs.
    pub fn do_move(&self, solution: &mut ListSolution) -> (undo: ListMoveUnionUndo)
        requires
            self.covers(old(solution)),
            self.spec_is_doable(old(solution)),
            self.relocation().dest_entity_index < old(solution).routes@.len(),
        ensures
            final(solution).lists() == self.relocation().apply(old(solution).lists()),
            final(solution).element_count == old(solution).element_count,
            undo == (match self {
                ListMoveUnion::FamilyBlock(_) => ListMoveUnionUndo::FamilyBlock(()),
            }),
    {
        match self {
            ListMoveUnion::FamilyBlock(m) => {
                m.do_move(solution);
                ListMoveUnionUndo::FamilyBlock(())
            },
        }
    }

    /// Undoes the move with the undo data its `do_move` returned.
    pub fn undo_move(&self, solution: &mut ListSolution, undo: ListMoveUnionUndo)
        requires
            match self {
                ListMoveUnion::FamilyBlock(m) => m.wf(),
            },
            self.relocation().spec_inverse().applicable(old(solution).lists()),
        ensures
            final(solution).lists() == self.relocation().spec_inverse().apply(old(solution).lists()),
            final(solution).element_count == old(solution).element_count,
    {
        match (self, undo) {
            (ListMoveUnion::FamilyBlock(m), ListMoveUnionUndo::FamilyBlock(u)) => m.undo_move(solution),
        }
    }

    pub fn descriptor_index(&self) -> (r: usize)
        ensures
            r == match self {
                ListMoveUnion::FamilyBlock(m) => m.spec_descriptor_index(),
            },
    {
        match self {
            ListMoveUnion::FamilyBlock(m) => m.descriptor_index(),
        }
    }

    pub fn entity_indices(&self) -> (r: Vec<usize>)
        ensures
            r@ == (if self.relocation().source_entity_index == self.relocation().dest_entity_index {
                seq![self.relocation().source_entity_index]
            } else {
                seq![self.relocation().source_entity_index, self.relocation().dest_entity_index]
            }),
    {
        match self {
            ListMoveUnion::FamilyBlock(m) => m.entity_indices(),
        }
    }

    pub fn variable_name(&self) -> (r: &'static str)
        ensures
            r == match self {
                ListMoveUnion::FamilyBlock(m) => m.spec_variable_name(),
            },
    {
        match self {
            ListMoveUnion::FamilyBlock(m) => m.variable_name(),
        }
    }

    pub fn telemetry_label(&self) -> (r: &'static str)
        ensures
            r@ == "family_block"@,
    {
        match self {
            ListMoveUnion::FamilyBlock(m) => m.telemetry_label(),
        }
    }

    pub fn tabu_signature(&self, solution: &ListSolution) -> (sig: MoveTabuSignature)
        requires
            match self {
                ListMoveUnion::FamilyBlock(m) => m.wf(),
            },
        ensures
            sig.move_id.relocation == self.relocation(),
            sig.undo_move_id.relocation == self.relocation().spec_inverse(),
            sig.move_id.moved_values@ == sig.destination_value_tokens@,
            sig.undo_move_id.moved_values@ == sig.destination_value_tokens@,
            match self {
                ListMoveUnion::FamilyBlock(m) => {
                    let r = m.relocation();
                    &&& sig.descriptor_index == m.spec_descriptor_index()
                    &&& sig.variable_name == m.spec_variable_name()
                    &&& sig.move_id.descriptor_index == m.spec_descriptor_index()
                    &&& sig.move_id.variable_name == m.spec_variable_name()
                    &&& sig.undo_move_id.descriptor_index == m.spec_descriptor_index()
                    &&& sig.undo_move_id.variable_name == m.spec_variable_name()
                    &&& sig.entity_tokens@ == (if r.source_entity_index == r.dest_entity_index {
                        seq![r.source_entity_index]
                    } else {
                        seq![r.source_entity_index, r.dest_entity_index]
                    })
                    &&& sig.destination_value_tokens@.len() == r.source_end - r.source_start
                    &&& forall|k: int| 0 <= k < r.source_end - r.source_start ==> #[trigger] sig.destination_value_tokens@[k]
                        == solution.spec_list_get(r.source_entity_index as int, r.source_start + k)
                },
            },
    {
        match self {
            ListMoveUnion::FamilyBlock(m) => m.tabu_signature(solution),
        }
    }
}

} // verus!
