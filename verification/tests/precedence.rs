use solverforge_lists::precedence::{assignment_penalty, remove_node, Edge, GraphRefreshKind, ListPrecedenceState, RouteChange};
use solverforge_lists::precedence_constraint::ListPrecedenceMakespanConstraint;
use solverforge_lists::score::{ConstraintRef, HardSoftScore};
use solverforge_lists::solution::ListSolution;

struct Task {
    duration: usize,
    next: Option<usize>,
    owner: Option<usize>,
}

fn tasks() -> Vec<Task> {
    vec![
        Task { duration: 2, next: Some(1), owner: Some(0) },
        Task { duration: 3, next: None, owner: Some(1) },
    ]
}

fn constraint_for(tasks: &[Task]) -> ListPrecedenceMakespanConstraint {
    ListPrecedenceMakespanConstraint::new(
        ConstraintRef::new("", "listPrecedenceMakespan"),
        0,
        tasks.iter().map(|t| t.duration).collect(),
        tasks.iter().map(|t| t.next.into_iter().collect()).collect(),
    )
}

fn constraint() -> ListPrecedenceMakespanConstraint {
    constraint_for(&tasks())
}

fn owner_constraint() -> ListPrecedenceMakespanConstraint {
    constraint().with_expected_owner(Some(tasks().iter().map(|t| t.owner).collect()))
}

fn plan(routes: Vec<Vec<usize>>) -> ListSolution {
    ListSolution::new(routes, 2)
}

fn graph_state(node_count: usize, durations: Vec<i64>, edges: &[Edge]) -> ListPrecedenceState {
    let mut state = ListPrecedenceState::new(node_count, 0, durations);
    for &edge in edges {
        state.add_edge(edge);
    }
    state.refresh_score_full();
    state
}

/// Changes the list of `owner` the way a score director does: retract, change, insert.
fn change_route(
    constraint: &mut ListPrecedenceMakespanConstraint,
    solution: &mut ListSolution,
    score: HardSoftScore,
    descriptor: usize,
    owner: usize,
    tasks: Vec<usize>,
) -> HardSoftScore {
    let mut score = score.plus(&constraint.on_retract(solution, owner, descriptor));
    solution.routes[owner] = tasks;
    score = score.plus(&constraint.on_insert(solution, owner, descriptor));
    score
}

#[test]
fn evaluates_fixed_and_list_precedence_makespan() {
    let constraint = constraint();
    assert_eq!(constraint.evaluate(&plan(vec![vec![0], vec![1]])), HardSoftScore::of(0, -5));
}

#[test]
fn acyclic_graph_route_change_uses_incremental_descendant_refresh() {
    let mut state = graph_state(4, vec![2, 3, 5, 7], &[(0, 1), (1, 2), (0, 3)]);
    assert_eq!(state.cycle_penalty, 0);
    assert_eq!(state.makespan, 10);

    let mut change = RouteChange::default();
    if state.remove_edge((1, 2)) {
        change.removed_edges.push((1, 2));
    }

    assert_eq!(state.refresh_graph_after_route_change(&change), GraphRefreshKind::Incremental { visited: 1 });
    assert_eq!(state.cycle_penalty, 0);
    assert_eq!(state.earliest[2], 0);
    assert_eq!(state.earliest[3], 2);
    assert_eq!(state.makespan, 9);
}

#[test]
fn cycle_introducing_route_change_marks_cyclic_without_graph_rebuild() {
    let mut state = graph_state(3, vec![1, 1, 1], &[(0, 1), (1, 2)]);
    assert_eq!(state.cycle_penalty, 0);
    assert_eq!(state.makespan, 3);

    let mut change = RouteChange::default();
    if state.add_edge((2, 0)) {
        change.added_edges.push((2, 0));
    }

    assert_eq!(state.refresh_graph_after_route_change(&change), GraphRefreshKind::CycleDetected);
    assert_eq!(state.cycle_penalty, 3);
    assert_eq!(state.makespan, 0);
}

#[test]
fn cycle_retraction_recovers_cached_acyclic_state_without_graph_rebuild() {
    let mut state = graph_state(3, vec![1, 1, 1], &[(0, 1), (1, 2)]);

    let mut cycle_change = RouteChange::default();
    if state.add_edge((2, 0)) {
        cycle_change.added_edges.push((2, 0));
    }
    assert_eq!(state.refresh_graph_after_route_change(&cycle_change), GraphRefreshKind::CycleDetected);
    assert_eq!(state.cycle_penalty, 3);
    assert_eq!(state.makespan, 0);

    let mut undo_change = RouteChange::default();
    if state.remove_edge((2, 0)) {
        undo_change.removed_edges.push((2, 0));
    }
    assert_eq!(state.refresh_graph_after_route_change(&undo_change), GraphRefreshKind::CycleRecovered);
    assert_eq!(state.cycle_penalty, 0);
    assert_eq!(state.earliest, vec![0, 1, 2]);
    assert_eq!(state.makespan, 3);
}

#[test]
fn recovery_is_refused_when_the_change_also_drops_an_older_arc() {
    let mut state = graph_state(3, vec![5, 1, 1], &[(0, 1)]);
    assert_eq!(state.earliest, vec![0, 5, 0]);

    let mut cycle_change = RouteChange::default();
    if state.add_edge((1, 0)) {
        cycle_change.added_edges.push((1, 0));
    }
    assert_eq!(state.refresh_graph_after_route_change(&cycle_change), GraphRefreshKind::CycleDetected);

    let mut undo_change = RouteChange::default();
    for edge in [(0, 1), (1, 0)] {
        if state.remove_edge(edge) {
            undo_change.removed_edges.push(edge);
        }
    }
    assert_eq!(state.refresh_graph_after_route_change(&undo_change), GraphRefreshKind::Full);
    assert_eq!(state.cycle_penalty, 0);
    assert_eq!(state.earliest, vec![0, 0, 0]);
    assert_eq!(state.makespan, 5);
}

#[test]
fn cycle_introduced_with_removed_edges_recovers_by_full_rebuild() {
    let mut state = graph_state(3, vec![10, 10, 1], &[(0, 1), (1, 2)]);
    assert_eq!(state.makespan, 21);

    let mut cycle_change = RouteChange::default();
    if state.remove_edge((0, 1)) {
        cycle_change.removed_edges.push((0, 1));
    }
    if state.add_edge((2, 1)) {
        cycle_change.added_edges.push((2, 1));
    }
    assert_eq!(state.refresh_graph_after_route_change(&cycle_change), GraphRefreshKind::CycleDetected);
    assert_eq!(state.cycle_penalty, 3);
    assert!(state.cycle_added_edges.is_empty());

    let mut undo_change = RouteChange::default();
    if state.remove_edge((2, 1)) {
        undo_change.removed_edges.push((2, 1));
    }
    assert_eq!(state.refresh_graph_after_route_change(&undo_change), GraphRefreshKind::Full);
    assert_eq!(state.cycle_penalty, 0);
    assert_eq!(state.earliest, vec![0, 0, 10]);
    assert_eq!(state.makespan, 11);
}

#[test]
fn owner_route_replacement_diffs_unchanged_prefix_edges() {
    let mut state = ListPrecedenceState::new(4, 1, vec![1, 1, 1, 1]);
    state.add_owner_route(&ListSolution::new(vec![vec![0, 1, 2]], 4), 0, &None);
    state.refresh_score_full();

    let mut change = state.add_owner_route(&ListSolution::new(vec![vec![0, 1, 3]], 4), 0, &None);
    change.added_edges.sort_unstable();
    change.removed_edges.sort_unstable();

    assert_eq!(change.removed_edges, vec![(1, 2)]);
    assert_eq!(change.added_edges, vec![(1, 3)]);
    assert_eq!(state.assigned_counts, vec![1, 1, 0, 1]);
    assert_eq!(state.owner_edges[0], vec![(0, 1), (1, 3)]);
}

#[test]
fn cyclic_state_with_unmatched_change_uses_full_graph_refresh() {
    let mut state = graph_state(4, vec![1, 1, 1, 1], &[(0, 1), (1, 2)]);

    let mut cycle_change = RouteChange::default();
    if state.add_edge((2, 0)) {
        cycle_change.added_edges.push((2, 0));
    }
    assert_eq!(state.refresh_graph_after_route_change(&cycle_change), GraphRefreshKind::CycleDetected);

    let mut unrelated_change = RouteChange::default();
    if state.add_edge((2, 3)) {
        unrelated_change.added_edges.push((2, 3));
    }
    assert_eq!(state.refresh_graph_after_route_change(&unrelated_change), GraphRefreshKind::Full);
    assert_eq!(state.cycle_penalty, 4);
    assert_eq!(state.makespan, 0);
}

#[test]
fn partial_cycle_penalizes_whole_precedence_schedule() {
    let state = graph_state(4, vec![1, 1, 1, 10], &[(0, 1), (1, 0)]);

    assert_eq!(state.cycle_penalty, 4);
    assert_eq!(state.makespan, 0);
    assert_eq!(state.score, HardSoftScore::of(-8, 0));
}

#[test]
fn penalizes_cycles_incrementally() {
    let mut constraint = constraint();
    let mut solution = plan(vec![vec![0, 1]]);
    let score = constraint.initialize(&solution);
    assert_eq!(score, HardSoftScore::of(0, -5));

    let score = change_route(&mut constraint, &mut solution, score, 0, 0, vec![1, 0]);
    assert_eq!(score, HardSoftScore::of(-2, 0));
    assert_eq!(constraint.evaluate(&solution), score);
}

#[test]
fn repeated_route_updates_keep_incremental_score_fresh() {
    let mut constraint = constraint();
    let mut solution = plan(vec![vec![0], vec![1]]);
    let mut score = constraint.initialize(&solution);
    assert_eq!(constraint.evaluate(&solution), score);

    for (owner, tasks) in [(0, vec![0, 1]), (1, Vec::new()), (0, vec![1, 0]), (1, vec![0, 1])] {
        score = change_route(&mut constraint, &mut solution, score, 0, owner, tasks);
        assert_eq!(constraint.evaluate(&solution), score);
    }
}

#[test]
fn recovery_that_also_drops_a_shared_arc_rebuilds_the_schedule() {
    let mut constraint = ListPrecedenceMakespanConstraint::new(
        ConstraintRef::new("", "listPrecedenceMakespan"),
        0,
        vec![5, 1, 1],
        vec![Vec::new(), Vec::new(), Vec::new()],
    );
    let mut solution = ListSolution::new(vec![Vec::new(), vec![0, 1]], 3);
    let mut score = constraint.initialize(&solution);
    assert_eq!(score.soft, -6);

    score = change_route(&mut constraint, &mut solution, score, 0, 0, vec![1, 0, 1]);
    assert_eq!(score.soft, 0);
    assert_eq!(constraint.evaluate(&solution), score);

    score = change_route(&mut constraint, &mut solution, score, 0, 1, Vec::new());
    assert_eq!(constraint.evaluate(&solution), score);

    score = change_route(&mut constraint, &mut solution, score, 0, 0, Vec::new());
    let fresh = constraint.evaluate(&solution);
    assert_eq!(fresh.soft, -5);
    assert_eq!(score, fresh);
}

#[test]
fn retract_removes_cached_owner_route_before_insert() {
    let mut constraint = constraint();
    let mut solution = plan(vec![vec![0], vec![1]]);
    let mut score = constraint.initialize(&solution);
    assert_eq!(score, HardSoftScore::of(0, -5));

    score = score.plus(&constraint.on_retract(&solution, 0, 0));
    assert_eq!(score, HardSoftScore::of(-1, -5));

    solution.routes[0] = vec![0, 1];
    score = score.plus(&constraint.on_insert(&solution, 0, 0));

    assert_eq!(score, HardSoftScore::of(-1, -5));
    assert_eq!(constraint.evaluate(&solution), score);
}

#[test]
fn penalizes_missing_duplicate_and_wrong_owner_assignments() {
    let constraint = owner_constraint();
    assert_eq!(constraint.evaluate(&plan(vec![vec![0, 1], vec![1]])), HardSoftScore::of(-2, -5));
}

#[test]
fn ignores_unrelated_descriptor_changes() {
    let mut constraint = constraint();
    let mut solution = plan(vec![vec![0], vec![1]]);
    let score = constraint.initialize(&solution);
    let after = change_route(&mut constraint, &mut solution, score, 1, 0, vec![1, 0]);
    assert_eq!(after, score);
}

struct PinTask {
    duration: usize,
    next: Option<usize>,
    owner: Option<usize>,
    release: i64,
    pin: Option<i64>,
    baseline: Option<i64>,
}

fn task(duration: usize, next: Option<usize>, owner: usize, release: i64, pin: Option<i64>, baseline: Option<i64>) -> PinTask {
    PinTask { duration, next, owner: Some(owner), release, pin, baseline }
}

fn pin_constraint_no_owner(tasks: &[PinTask]) -> ListPrecedenceMakespanConstraint {
    ListPrecedenceMakespanConstraint::new(
        ConstraintRef::new("", "f2NoOwner"),
        0,
        tasks.iter().map(|t| t.duration).collect(),
        tasks.iter().map(|t| t.next.into_iter().collect()).collect(),
    )
    .with_node_release_time(tasks.iter().map(|t| t.release).collect())
    .with_pin(tasks.iter().map(|t| t.pin).collect())
    .with_disruption(tasks.iter().map(|t| t.baseline).collect())
}

fn pin_constraint(tasks: &[PinTask]) -> ListPrecedenceMakespanConstraint {
    pin_constraint_no_owner(tasks).with_expected_owner(Some(tasks.iter().map(|t| t.owner).collect()))
}

/// 5 ops on 2 machines with a release floor, a reachable pin, and per-op disruption baselines.
fn fixture() -> (Vec<PinTask>, ListSolution) {
    let tasks = vec![
        task(10, None, 0, 0, None, Some(0)),
        task(10, None, 0, 0, None, Some(10)),
        task(10, None, 1, 30, Some(30), Some(30)),
        task(10, None, 1, 0, None, Some(30)),
        task(10, None, 0, 5, None, Some(20)),
    ];
    (tasks, ListSolution::new(vec![vec![0, 1, 4], vec![2, 3]], 5))
}

#[test]
fn f2_incremental_equals_fresh_after_list_moves() {
    let (tasks, mut solution) = fixture();
    let mut constraint = pin_constraint(&tasks);

    let initial = constraint.initialize(&solution);
    assert_eq!(constraint.evaluate(&solution), initial);
    assert_eq!(initial.hard(), 0, "seeded layout is pin-feasible + structurally sound");

    let inc1 = change_route(&mut constraint, &mut solution, initial, 0, 0, vec![4, 0, 1]);
    assert_eq!(
        constraint.evaluate(&solution),
        inc1,
        "after intra-machine permute: incremental score must equal fresh recompute"
    );

    let inc2 = change_route(&mut constraint, &mut solution, inc1, 0, 1, vec![3, 2]);
    assert_eq!(
        constraint.evaluate(&solution),
        inc2,
        "after intra-machine reverse: incremental score must equal fresh recompute"
    );

    let inc3 = change_route(&mut constraint, &mut solution, inc2, 0, 0, vec![4, 0]);
    assert_eq!(constraint.evaluate(&solution), inc3, "cross-machine relocate (retract leg): incremental == fresh");
    let inc4 = change_route(&mut constraint, &mut solution, inc3, 0, 1, vec![3, 2, 1]);
    assert_eq!(constraint.evaluate(&solution), inc4, "cross-machine relocate (insert leg): incremental == fresh");
}

#[test]
fn f2_absent_builders_are_identical_to_stock() {
    let plain = ListPrecedenceMakespanConstraint::new(ConstraintRef::new("", "plain"), 0, vec![10, 10], vec![Vec::new(), Vec::new()]);
    let solution = ListSolution::new(vec![vec![0, 1]], 2);
    assert_eq!(plain.evaluate(&solution), HardSoftScore::of(0, -20));
}

#[test]
fn f2_unreachable_earlier_pin_scores_negative_hard() {
    let tasks = vec![task(10, None, 0, 0, Some(5), None), task(10, Some(0), 0, 0, None, None)];
    let solution = ListSolution::new(vec![vec![1, 0]], 2);
    let score = pin_constraint_no_owner(&tasks).evaluate(&solution);
    assert_eq!(score.hard(), -5, "unreachable earlier pin: hard = -(|10-5|) = -5");
}

#[test]
fn f2_lower_disruption_outscores_higher_on_soft() {
    let tasks = vec![
        task(10, None, 0, 0, None, Some(0)),
        task(10, None, 0, 0, None, Some(10)),
        task(10, None, 0, 0, None, Some(20)),
    ];
    let constraint = pin_constraint_no_owner(&tasks);
    let soft_a = constraint.evaluate(&ListSolution::new(vec![vec![0, 1, 2]], 3)).soft();
    let soft_b = constraint.evaluate(&ListSolution::new(vec![vec![0, 2, 1]], 3)).soft();
    assert_eq!(soft_a, -30, "zero-disruption layout: soft = -makespan(30) - 0");
    assert_eq!(soft_b, -50, "disrupted layout: soft = -makespan(30) - Σ|Δ|(20)");
    assert!(soft_a > soft_b, "search now has a disruption gradient (A outranks B on soft)");
}

#[test]
fn invalid_entries_and_fixed_successors_are_penalized() {
    // Node 5 does not exist: one invalid list entry, one invalid fixed successor.
    let constraint = ListPrecedenceMakespanConstraint::new(ConstraintRef::new("", "invalid"), 0, vec![1, 1], vec![vec![5], Vec::new()]);
    let score = constraint.evaluate(&ListSolution::new(vec![vec![0, 5, 1]], 2));
    assert_eq!(score, HardSoftScore::of(-2, -1));
    assert_eq!(constraint.match_count(&ListSolution::new(vec![vec![0, 5, 1]], 2)), 3);
}

#[test]
fn release_time_delays_a_source_node() {
    let tasks = vec![task(4, None, 0, 7, None, None)];
    let score = pin_constraint_no_owner(&tasks).evaluate(&ListSolution::new(vec![vec![0]], 1));
    assert_eq!(score, HardSoftScore::of(0, -11));
}

#[test]
fn state_reports_reachability_and_cycles() {
    let state = graph_state(4, vec![1, 1, 1, 1], &[(0, 1), (1, 2)]);
    let mut visited = vec![0; 4];
    let mut stack = Vec::new();
    assert!(state.reaches_with_scratch(0, 2, 1, &mut visited, &mut stack));
    assert!(!state.reaches_with_scratch(2, 0, 2, &mut visited, &mut stack));
    assert!(!state.reaches_with_scratch(0, 3, 3, &mut visited, &mut stack));
    assert!(state.added_edges_introduce_cycle(&vec![(2, 0)]));
    assert!(!state.added_edges_introduce_cycle(&vec![(0, 2), (2, 3)]));
    assert!(state.contains_edge((0, 1)));
    assert!(!state.contains_edge((1, 0)));
}

#[test]
fn edge_counts_track_parallel_arcs() {
    let mut state = ListPrecedenceState::new(2, 0, vec![1, 1]);
    assert!(state.add_edge((0, 1)));
    assert!(!state.add_edge((0, 1)));
    assert!(!state.remove_edge((0, 1)));
    assert!(state.contains_edge((0, 1)));
    assert!(state.remove_edge((0, 1)));
    assert!(!state.contains_edge((0, 1)));
    assert!(!state.remove_edge((0, 1)));
}

#[test]
fn route_change_seeds_and_emptiness() {
    let mut change = RouteChange::default();
    assert!(change.is_empty());
    change.added_edges.push((0, 3));
    change.removed_edges.push((1, 2));
    assert!(!change.is_empty());
    assert_eq!(change.seeds(), vec![3, 2]);
}

#[test]
fn assignment_penalty_and_remove_node() {
    assert_eq!(assignment_penalty(0), 1);
    assert_eq!(assignment_penalty(1), 0);
    assert_eq!(assignment_penalty(4), 3);
    let mut nodes = vec![5, 7, 9, 7];
    remove_node(&mut nodes, 7);
    assert_eq!(nodes, vec![5, 7, 9]);
    remove_node(&mut nodes, 42);
    assert_eq!(nodes, vec![5, 7, 9]);
}

#[test]
fn reset_drops_the_cached_state() {
    let mut constraint = constraint();
    let solution = plan(vec![vec![0], vec![1]]);
    constraint.initialize(&solution);
    assert!(constraint.state.is_some());
    constraint.reset();
    assert!(constraint.state.is_none());
    assert_eq!(constraint.on_insert(&solution, 0, 0), HardSoftScore::of(0, 0));
    assert!(constraint.is_hard());
    assert_eq!(constraint.weight(), HardSoftScore::of(0, 0));
    assert_eq!(constraint.constraint_ref().name, "listPrecedenceMakespan");
}
