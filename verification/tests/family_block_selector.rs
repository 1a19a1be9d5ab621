use solverforge_lists::family_block_selector::FamilyBlockMoveSelector;
use solverforge_lists::solution::ListSolution;

const VALUES: usize = 1000;

// Values that should be considered the same family share the key `v / 100`.
fn family_keys() -> Vec<Option<u64>> {
    (0..VALUES).map(|v| Some((v / 100) as u64)).collect()
}

// Every op is eligible for any owner (empty eligible set).
fn eligible_any() -> Vec<Vec<usize>> {
    vec![Vec::new(); VALUES]
}

// Values >= 900 are only eligible for owner 0.
fn eligible_owner_zero_only_for_900s() -> Vec<Vec<usize>> {
    (0..VALUES).map(|v| if v >= 900 { vec![0] } else { Vec::new() }).collect()
}

fn family_block_selector(min_block_size: usize, eligible: Vec<Vec<usize>>) -> FamilyBlockMoveSelector {
    FamilyBlockMoveSelector::new(min_block_size, family_keys(), eligible, "visits", 0)
}

fn plan(routes: Vec<Vec<usize>>) -> ListSolution {
    ListSolution::new(routes, VALUES)
}

#[test]
fn blocks_in_only_emits_maximal_runs_at_least_min_block_size() {
    // Family key v/100: 100 and 101 share family 1, 200 is family 2.
    let sol = plan(vec![vec![100, 101, 200]]);

    let selector = family_block_selector(2, eligible_any());
    let moves: Vec<_> = selector
        .iter_moves(&sol)
        .iter()
        .map(|m| (m.source_entity_index(), m.source_start(), m.source_end()))
        .collect();

    // Only the (0,2) same-family block should ever be a source block; the trailing single
    // "200" must never appear as a source range on its own.
    assert!(
        moves.iter().all(|&(_, start, end)| (start, end) == (0, 2)),
        "single-op runs must never be emitted as a source block: {moves:?}"
    );
    assert!(!moves.is_empty(), "the (0,2) block should still relocate somewhere");
}

#[test]
fn insert_pos_lands_immediately_after_same_family_op() {
    // Source vehicle 0 has the block [100, 101] (family 1). Destination vehicle 1 already has
    // a family-1 op (150) at position 1, so the block must land at position 2.
    let sol = plan(vec![vec![100, 101, 999], vec![50, 150, 250]]);

    let selector = family_block_selector(2, eligible_any());
    let moves: Vec<_> = selector
        .iter_moves(&sol)
        .iter()
        .filter(|m| m.source_entity_index() == 0 && m.dest_entity_index() == 1)
        .map(|m| m.dest_position())
        .collect();

    assert_eq!(moves, vec![2], "block must land immediately after the lowest same-family-adjacent op");
}

#[test]
fn insert_pos_appends_at_end_when_no_same_family_op_on_destination() {
    // Destination vehicle 1 has no family-1 op at all, so the block must append at its end.
    let sol = plan(vec![vec![100, 101, 999], vec![250, 350]]);

    let selector = family_block_selector(2, eligible_any());
    let moves: Vec<_> = selector
        .iter_moves(&sol)
        .iter()
        .filter(|m| m.source_entity_index() == 0 && m.dest_entity_index() == 1)
        .map(|m| m.dest_position())
        .collect();

    assert_eq!(moves, vec![2], "block must append at dest_len when no same-family op exists");
}

#[test]
fn family_block_moves_are_doable_and_respect_eligibility() {
    let sol = plan(vec![vec![900, 901, 250], vec![50, 150]]);

    // 900/901 are only eligible for owner 0, so no move should ever relocate that block to
    // vehicle 1.
    let selector = family_block_selector(2, eligible_owner_zero_only_for_900s());
    let moves = selector.iter_moves(&sol);

    assert!(
        moves.iter().all(|m| !(m.source_entity_index() == 0 && m.dest_entity_index() == 1)),
        "ineligible block must never target a restricted destination"
    );
    for m in &moves {
        assert!(m.is_doable(&sol), "generated move should be doable: {m:?}");
    }
    assert_eq!(selector.size(&sol), moves.len());
}

#[test]
fn family_block_no_op_relocation_is_skipped() {
    // A single vehicle with only one same-family block and nowhere else to land must not
    // emit the intra-list identity move.
    let sol = plan(vec![vec![100, 101]]);

    let selector = family_block_selector(2, eligible_any());
    let moves = selector.iter_moves(&sol);

    assert!(
        moves.is_empty(),
        "the only reachable relocation is the intra-list identity no-op, so nothing should be emitted: {moves:?}"
    );
}

#[test]
fn blocks_in_lists_maximal_runs_in_order() {
    let sol = plan(vec![vec![100, 101, 102, 200, 300, 301, 5]]);
    let selector = family_block_selector(2, eligible_any());
    assert_eq!(selector.blocks_in(&sol, 0), vec![(0, 3), (4, 6)]);
    let singles = family_block_selector(1, eligible_any());
    assert_eq!(singles.blocks_in(&sol, 0), vec![(0, 3), (3, 4), (4, 6), (6, 7)]);
    assert_eq!(selector.blocks_in(&sol, 5), Vec::<(usize, usize)>::new());
}

#[test]
fn cursor_hands_out_every_move_once() {
    let sol = plan(vec![vec![100, 101, 999], vec![50, 150, 250]]);
    let selector = family_block_selector(2, eligible_any());
    let expected = selector.iter_moves(&sol).len();
    let mut cursor = selector.open_cursor(&sol);
    let mut seen = 0;
    while let Some(id) = cursor.next_candidate() {
        assert!(cursor.candidate(id).is_some());
        let m = cursor.take_candidate(id);
        assert!(m.is_doable(&sol));
        seen += 1;
    }
    assert_eq!(seen, expected);
    assert_eq!(selector.size(&sol), expected);
}
