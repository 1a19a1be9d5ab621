use std::rc::Rc;

use solverforge_lists::family_block_move::FamilyBlockMove;
use solverforge_lists::list_union::ListMoveUnion;
use solverforge_lists::solution::ListSolution;

const VALUES: usize = 32;

fn eligible_any() -> Rc<Vec<Vec<usize>>> {
    Rc::new(vec![Vec::new(); VALUES])
}

// Value 2 is only eligible for owner 0; all other values are unrestricted.
fn eligible_only_entity_zero_for_value_2() -> Rc<Vec<Vec<usize>>> {
    let mut table = vec![Vec::new(); VALUES];
    table[2] = vec![0];
    Rc::new(table)
}

fn solution(routes: Vec<Vec<usize>>) -> ListSolution {
    ListSolution::new(routes, VALUES)
}

#[test]
fn family_block_move_and_undo_round_trip() {
    let mut sol = solution(vec![vec![1, 2, 3, 4], vec![10, 20]]);

    // Relocate block [0..2) from entity 0 to entity 1 at position 0.
    let m = FamilyBlockMove::new(0, 0, 2, 1, 0, eligible_any(), "visits", 0);

    assert!(m.is_doable(&sol));

    m.do_move(&mut sol);
    assert_eq!(sol.routes[0], vec![3, 4]);
    assert_eq!(sol.routes[1], vec![1, 2, 10, 20]);

    m.undo_move(&mut sol);
    assert_eq!(sol.routes[0], vec![1, 2, 3, 4]);
    assert_eq!(sol.routes[1], vec![10, 20]);
}

#[test]
fn family_block_not_doable_when_dest_ineligible() {
    let sol = solution(vec![vec![1, 2, 3, 4], vec![10, 20]]);

    // Block [0..2) contains value 2, which is only eligible for entity 0.
    let restricted = FamilyBlockMove::new(0, 0, 2, 1, 0, eligible_only_entity_zero_for_value_2(), "visits", 0);
    assert!(!restricted.is_doable(&sol));

    // With an unrestricted eligibility table, the same relocation is doable.
    let unrestricted = FamilyBlockMove::new(0, 0, 2, 1, 0, eligible_any(), "visits", 0);
    assert!(unrestricted.is_doable(&sol));
}

#[test]
fn intra_list_move_and_undo_round_trip() {
    let mut sol = solution(vec![vec![1, 2, 3, 4, 5]]);
    let m = FamilyBlockMove::new(0, 1, 3, 0, 3, eligible_any(), "visits", 0);
    assert!(m.is_intra_list());
    assert_eq!(m.sublist_len(), 2);
    assert!(m.is_doable(&sol));
    m.do_move(&mut sol);
    assert_eq!(sol.routes[0], vec![1, 4, 5, 2, 3]);
    m.undo_move(&mut sol);
    assert_eq!(sol.routes[0], vec![1, 2, 3, 4, 5]);
}

#[test]
fn identity_and_out_of_range_moves_are_not_doable() {
    let sol = solution(vec![vec![1, 2, 3], vec![4]]);
    // Putting the block back where it is does nothing.
    assert!(!FamilyBlockMove::new(0, 0, 2, 0, 0, eligible_any(), "visits", 0).is_doable(&sol));
    // An empty block.
    assert!(!FamilyBlockMove::new(0, 1, 1, 1, 0, eligible_any(), "visits", 0).is_doable(&sol));
    // A block past the end of the list.
    assert!(!FamilyBlockMove::new(0, 2, 4, 1, 0, eligible_any(), "visits", 0).is_doable(&sol));
    // A destination past the end of the destination list.
    assert!(!FamilyBlockMove::new(0, 0, 1, 1, 2, eligible_any(), "visits", 0).is_doable(&sol));
    // Appending at the very end of the destination list is fine.
    assert!(FamilyBlockMove::new(0, 0, 1, 1, 1, eligible_any(), "visits", 0).is_doable(&sol));
}

#[test]
fn accessors_and_entity_indices() {
    let m = FamilyBlockMove::new(2, 1, 4, 0, 5, eligible_any(), "visits", 7);
    assert_eq!(m.source_entity_index(), 2);
    assert_eq!(m.source_start(), 1);
    assert_eq!(m.source_end(), 4);
    assert_eq!(m.sublist_len(), 3);
    assert_eq!(m.dest_entity_index(), 0);
    assert_eq!(m.dest_position(), 5);
    assert!(!m.is_intra_list());
    assert_eq!(m.descriptor_index(), 7);
    assert_eq!(m.variable_name(), "visits");
    assert_eq!(m.telemetry_label(), "family_block");
    assert_eq!(m.entity_indices(), vec![2, 0]);

    let intra = FamilyBlockMove::new(1, 0, 1, 1, 2, eligible_any(), "visits", 0);
    assert_eq!(intra.entity_indices(), vec![1]);
}

#[test]
fn tabu_signature_names_values_and_inverse() {
    let sol = solution(vec![vec![1, 2, 3, 4], vec![10, 20]]);
    let m = FamilyBlockMove::new(0, 0, 2, 1, 0, eligible_any(), "visits", 3);
    let sig = m.tabu_signature(&sol);
    assert_eq!(sig.descriptor_index, 3);
    assert_eq!(sig.variable_name, "visits");
    assert_eq!(sig.entity_tokens, vec![0, 1]);
    assert_eq!(sig.destination_value_tokens, vec![Some(1), Some(2)]);
    assert_eq!(sig.move_id.relocation.source_entity_index, 0);
    assert_eq!(sig.move_id.relocation.dest_position, 0);
    assert_eq!(sig.undo_move_id.relocation.source_entity_index, 1);
    assert_eq!(sig.undo_move_id.relocation.source_start, 0);
    assert_eq!(sig.undo_move_id.relocation.source_end, 2);
    assert_eq!(sig.undo_move_id.relocation.dest_entity_index, 0);
    assert_eq!(sig.undo_move_id.relocation.dest_position, 0);
    assert_eq!(sig.move_id.moved_values, vec![Some(1), Some(2)]);
    assert_eq!(sig.undo_move_id.moved_values, vec![Some(1), Some(2)]);
    assert_eq!((sig.move_id.descriptor_index, sig.move_id.variable_name), (3, "visits"));

    let other = solution(vec![vec![7, 8, 3, 4], vec![10, 20]]);
    let other_sig = m.tabu_signature(&other);
    assert_ne!(other_sig.move_id.moved_values, sig.move_id.moved_values);
}

#[test]
fn union_forwards_to_the_family_block_move() {
    let mut sol = solution(vec![vec![1, 2, 3, 4], vec![10, 20]]);
    let m = ListMoveUnion::FamilyBlock(FamilyBlockMove::new(0, 2, 4, 1, 2, eligible_any(), "visits", 0));
    assert!(m.is_doable(&sol));
    assert_eq!(m.variable_name(), "visits");
    assert_eq!(m.descriptor_index(), 0);
    assert_eq!(m.entity_indices(), vec![0, 1]);
    let undo = m.do_move(&mut sol);
    assert_eq!(sol.routes[0], vec![1, 2]);
    assert_eq!(sol.routes[1], vec![10, 20, 3, 4]);
    m.undo_move(&mut sol, undo);
    assert_eq!(sol.routes[0], vec![1, 2, 3, 4]);
    assert_eq!(sol.routes[1], vec![10, 20]);
}
