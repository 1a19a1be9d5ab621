use vstd::prelude::*;

use crate::precedence::{
    cache_ok, changed_from, lemma_exact_scores_agree, lemma_sub_acyclic, nonneg_terms, occ, owner_list, owner_table, owner_table_covers, rebuilt,
    route_edges, route_elements, route_invalid, route_violations, shifted_count, updated_count, Edge,
    ListPrecedenceState,
};
use crate::score::{clamp_i64, usize_to_i64, ConstraintRef, HardSoftScore};
use crate::solution::ListSolution;

verus! {

/// `x` capped at `usize::MAX`.
pub open spec fn sat_usize(x: int) -> int {
    if x > usize::MAX { usize::MAX as int } else { x }
}

/// The number of occurrences of arc `e` in the routes of the first `k` owners.
pub open spec fn route_edge_total(solution: &ListSolution, n: int, e: Edge, k: int) -> int
    decreases k,
{
    if k <= 0 {
        0
    } else {
        route_edge_total(solution, n, e, k - 1) + occ(route_edges(owner_list(solution, k - 1), n), e)
    }
}

/// The number of occurrences of node `v` in the routes of the first `k` owners.
pub open spec fn route_node_total(solution: &ListSolution, n: int, v: usize, k: int) -> int
    decreases k,
{
    if k <= 0 {
        0
    } else {
        route_node_total(solution, n, v, k - 1) + occ(route_elements(owner_list(solution, k - 1), n), v)
    }
}

/// The number of fixed successor entries of the first `k` nodes that are not real nodes.
pub open spec fn fixed_invalid_total(fixed: Seq<Vec<usize>>, n: int, k: int) -> int
    decreases k,
{
    if k <= 0 {
        0
    } else {
        fixed_invalid_total(fixed, n, k - 1) + route_invalid(fixed[k - 1]@, n)
    }
}

/// The makespan constraint of a precedence-scheduled list variable: every node has a duration
/// and fixed successors; the lists of the owners order their nodes; a node starts when all its
/// predecessors (fixed and list) have finished, and not before its release time. Hard: invalid
/// fixed successors, invalid list entries, wrong owners, missing and duplicate assignments,
/// cycles (every node), and distance from pinned starts. Soft: the makespan plus the distance
/// of starts from their baselines.
#[derive(Debug)]
pub struct ListPrecedenceMakespanConstraint {
    pub constraint_ref: ConstraintRef,
    pub list_descriptor_index: usize,
    pub node_durations: Vec<usize>,
    pub fixed_successors: Vec<Vec<usize>>,
    pub expected_owner: Option<Vec<Option<usize>>>,
    pub node_release_time: Option<Vec<i64>>,
    pub pin_target: Option<Vec<Option<i64>>>,
    pub disruption_baseline: Option<Vec<Option<i64>>>,
    pub state: Option<ListPrecedenceState>,
}

impl ListPrecedenceMakespanConstraint {
    /// The number of nodes.
    pub open spec fn node_count(&self) -> int {
        self.node_durations@.len() as int
    }

    /// Every per-node table covers every node.
    pub open spec fn tables_cover(&self) -> bool {
        let n = self.node_count();
        &&& self.fixed_successors@.len() >= n
        &&& owner_table_covers(&self.expected_owner, n)
        &&& (match self.node_release_time {
            Some(t) => t@.len() >= n,
            None => true,
        })
        &&& (match self.pin_target {
            Some(t) => t@.len() >= n,
            None => true,
        })
        &&& (match self.disruption_baseline {
            Some(t) => t@.len() >= n,
            None => true,
        })
    }

    /// A constraint over nodes with the given durations and fixed successors, without expected
    /// owners, release times, pins or disruption baselines.
    pub fn new(
        constraint_ref: ConstraintRef,
        list_descriptor_index: usize,
        node_durations: Vec<usize>,
        fixed_successors: Vec<Vec<usize>>,
    ) -> (c: Self)
        ensures
            c.constraint_ref == constraint_ref,
            c.list_descriptor_index == list_descriptor_index,
            c.node_durations@ == node_durations@,
            c.fixed_successors@ == fixed_successors@,
            c.expected_owner is None,
            c.node_release_time is None,
            c.pin_target is None,
            c.disruption_baseline is None,
            c.state is None,
    {
        ListPrecedenceMakespanConstraint {
            constraint_ref,
            list_descriptor_index,
            node_durations,
            fixed_successors,
            expected_owner: None,
            node_release_time: None,
            pin_target: None,
            disruption_baseline: None,
            state: None,
        }
    }

    /// Sets the table of expected owners.
    pub fn with_expected_owner(self, expected_owner: Option<Vec<Option<usize>>>) -> (c: Self)
        ensures
            c == (Self { expected_owner, ..self }),
    {
        Self { expected_owner, ..self }
    }

    /// Sets the release times: a node never starts before its release time.
    pub fn with_node_release_time(self, release: Vec<i64>) -> (c: Self)
        ensures
            c == (Self { node_release_time: Some(release), ..self }),
    {
        Self { node_release_time: Some(release), ..self }
    }

    /// Sets the pin targets: a pinned node's distance from its pin is a hard penalty.
    pub fn with_pin(self, pin: Vec<Option<i64>>) -> (c: Self)
        ensures
            c == (Self { pin_target: Some(pin), ..self }),
    {
        Self { pin_target: Some(pin), ..self }
    }

    /// Sets the disruption baselines: a node's distance from its baseline is a soft penalty.
    pub fn with_disruption(self, baseline: Vec<Option<i64>>) -> (c: Self)
        ensures
            c == (Self { disruption_baseline: Some(baseline), ..self }),
    {
        Self { disruption_baseline: Some(baseline), ..self }
    }

    pub fn constraint_ref(&self) -> (r: &ConstraintRef)
        ensures
            *r == self.constraint_ref,
    {
        &self.constraint_ref
    }

    /// The constraint is hard.
    pub fn is_hard(&self) -> (r: bool)
        ensures
            r,
    {
        true
    }

    /// The constraint carries no weight of its own: its score is its penalties.
    pub fn weight(&self) -> (r: HardSoftScore)
        ensures
            r.hard == 0 && r.soft == 0,
    {
        HardSoftScore::zero()
    }

    /// Drops the cached state.
    pub fn reset(&mut self)
        ensures
            *final(self) == (Self { state: None, ..*old(self) }),
    {
        self.state = None;
    }
}

} // verus!

verus! {

/// The release time a constraint gives node `v`.
pub open spec fn release_of(c: &ListPrecedenceMakespanConstraint, v: int) -> i64 {
    match c.node_release_time {
        Some(t) => t@[v],
        None => 0,
    }
}

/// The pin target a constraint gives node `v`.
pub open spec fn pin_of(c: &ListPrecedenceMakespanConstraint, v: int) -> Option<i64> {
    match c.pin_target {
        Some(t) => t@[v],
        None => None,
    }
}

/// The disruption baseline a constraint gives node `v`.
pub open spec fn baseline_of(c: &ListPrecedenceMakespanConstraint, v: int) -> Option<i64> {
    match c.disruption_baseline {
        Some(t) => t@[v],
        None => None,
    }
}

/// The state holds exactly what the constraint's tables and the solution's lists give: the
/// durations, the fixed and route arcs with their multiplicities, each owner's route, the
/// assignment counts, the invalid fixed successors and the per-node static terms.
pub open spec fn fresh_structure(c: &ListPrecedenceMakespanConstraint, s: &ListPrecedenceState, solution: &ListSolution) -> bool {
    let n = c.node_count();
    let m = solution.routes@.len() as int;
    &&& s.wf()
    &&& s.node_count == n
    &&& s.owner_elements@.len() == m
    &&& forall|v: int| 0 <= v < n ==> #[trigger] s.durations@[v] == clamp_i64(c.node_durations@[v] as int)
    &&& forall|u: usize, v: usize| u < n && v < n ==> #[trigger] s.arc_count(u, v) == sat_usize(
        occ(c.fixed_successors@[u as int]@, v) + route_edge_total(solution, n, (u, v), m))
    &&& forall|v: usize| v < n ==> #[trigger] s.assigned_counts@[v as int] == sat_usize(route_node_total(solution, n, v, m))
    &&& forall|o: int| 0 <= o < m ==> (#[trigger] s.owner_elements@[o])@ == route_elements(owner_list(solution, o), n)
    &&& forall|o: int| 0 <= o < m ==> (#[trigger] s.owner_edges@[o])@ == route_edges(owner_list(solution, o), n)
    &&& forall|o: int| 0 <= o < m ==> #[trigger] s.owner_invalid_counts@[o] == route_invalid(owner_list(solution, o), n)
    &&& forall|o: int| 0 <= o < m ==> #[trigger] s.owner_violation_counts@[o] == route_violations(
        owner_list(solution, o), n, owner_table(c.expected_owner), o as usize)
    &&& s.invalid_fixed_edges == sat_usize(fixed_invalid_total(c.fixed_successors@, n, n))
    &&& forall|v: int| 0 <= v < n ==> #[trigger] s.release@[v] == release_of(c, v)
    &&& forall|v: int| 0 <= v < n ==> #[trigger] s.pin@[v] == pin_of(c, v)
    &&& forall|v: int| 0 <= v < n ==> #[trigger] s.disruption_baseline@[v] == baseline_of(c, v)
}

impl ListPrecedenceMakespanConstraint {
    /// The durations as `i64`, saturating.
    fn durations_i64(&self) -> (r: Vec<i64>)
        ensures
            r@.len() == self.node_count(),
            forall|v: int| 0 <= v < self.node_count() ==> #[trigger] r@[v] == clamp_i64(self.node_durations@[v] as int),
    {
        let mut r: Vec<i64> = Vec::new();
        let mut v: usize = 0;
        while v < self.node_durations.len()
            invariant
                v <= self.node_durations@.len(),
                r@.len() == v,
                forall|k: int| 0 <= k < v ==> #[trigger] r@[k] == clamp_i64(self.node_durations@[k] as int),
            decreases self.node_durations@.len() - v,
        {
            r.push(usize_to_i64(self.node_durations[v]));
            v = v + 1;
        }
        r
    }

    /// Adds the arcs to the fixed successors of every node, counting the successors that are
    /// not nodes.
    fn add_fixed_successors(&self, state: &mut ListPrecedenceState)
        requires
            self.tables_cover(),
            old(state).wf(),
            old(state).node_count == self.node_count(),
            forall|u: usize, v: usize| #[trigger] old(state).arc_count(u, v) == 0,
            old(state).invalid_fixed_edges == 0,
        ensures
            final(state).wf(),
            final(state).node_count == old(state).node_count,
            final(state).graph_wf(),
            forall|u: usize, v: usize| u < self.node_count() && v < self.node_count() ==> #[trigger] final(state).arc_count(u, v)
                == sat_usize(occ(self.fixed_successors@[u as int]@, v) as int),
            final(state).invalid_fixed_edges == sat_usize(fixed_invalid_total(self.fixed_successors@, self.node_count(), self.node_count())),
            final(state).durations == old(state).durations,
            final(state).assigned_counts == old(state).assigned_counts,
            final(state).owner_elements == old(state).owner_elements,
            final(state).owner_edges == old(state).owner_edges,
            final(state).owner_invalid_counts == old(state).owner_invalid_counts,
            final(state).owner_violation_counts == old(state).owner_violation_counts,
            final(state).owner_invalid_total == old(state).owner_invalid_total,
            final(state).owner_violation_total == old(state).owner_violation_total,
            final(state).assignment_penalty == old(state).assignment_penalty,
            final(state).release == old(state).release,
            final(state).pin == old(state).pin,
            final(state).disruption_baseline == old(state).disruption_baseline,
    {
        let n = self.node_durations.len();
        let mut node: usize = 0;
        while node < n
            invariant
                self.tables_cover(),
                n == self.node_count(),
                state.wf(),
                state.node_count == n,
                node <= n,
                forall|u: usize, v: usize| u < node && v < n ==> #[trigger] state.arc_count(u, v)
                    == sat_usize(occ(self.fixed_successors@[u as int]@, v) as int),
                forall|u: usize, v: usize| node <= u < n ==> #[trigger] state.arc_count(u, v) == 0,
                state.invalid_fixed_edges == sat_usize(fixed_invalid_total(self.fixed_successors@, n as int, node as int)),
                state.durations == old(state).durations,
                state.assigned_counts == old(state).assigned_counts,
                state.owner_elements == old(state).owner_elements,
                state.owner_edges == old(state).owner_edges,
                state.owner_invalid_counts == old(state).owner_invalid_counts,
                state.owner_violation_counts == old(state).owner_violation_counts,
                state.owner_invalid_total == old(state).owner_invalid_total,
                state.owner_violation_total == old(state).owner_violation_total,
                state.assignment_penalty == old(state).assignment_penalty,
                state.release == old(state).release,
                state.pin == old(state).pin,
                state.disruption_baseline == old(state).disruption_baseline,
            decreases n - node,
        {
            let row_len = self.fixed_successors[node].len();
            let ghost row = self.fixed_successors@[node as int]@;
            let ghost base = fixed_invalid_total(self.fixed_successors@, n as int, node as int);
            let mut j: usize = 0;
            proof {
                assert(row.subrange(0, 0) =~= Seq::<usize>::empty());
            }
            while j < row_len
                invariant
                    self.tables_cover(),
                    n == self.node_count(),
                    node < n,
                    row == self.fixed_successors@[node as int]@,
                    row_len == row.len(),
                    j <= row_len,
                    state.wf(),
                    state.node_count == n,
                    forall|u: usize, v: usize| u < node && v < n ==> #[trigger] state.arc_count(u, v)
                        == sat_usize(occ(self.fixed_successors@[u as int]@, v) as int),
                    forall|v: usize| v < n ==> #[trigger] state.arc_count(node, v) == sat_usize(occ(row.subrange(0, j as int), v) as int),
                    forall|u: usize, v: usize| node < u < n ==> #[trigger] state.arc_count(u, v) == 0,
                    base >= 0,
                    state.invalid_fixed_edges == sat_usize(base + route_invalid(row.subrange(0, j as int), n as int)),
                    state.durations == old(state).durations,
                    state.assigned_counts == old(state).assigned_counts,
                    state.owner_elements == old(state).owner_elements,
                    state.owner_edges == old(state).owner_edges,
                    state.owner_invalid_counts == old(state).owner_invalid_counts,
                    state.owner_violation_counts == old(state).owner_violation_counts,
                    state.owner_invalid_total == old(state).owner_invalid_total,
                    state.owner_violation_total == old(state).owner_violation_total,
                    state.assignment_penalty == old(state).assignment_penalty,
                    state.release == old(state).release,
                    state.pin == old(state).pin,
                    state.disruption_baseline == old(state).disruption_baseline,
                decreases row_len - j,
            {
                let successor = self.fixed_successors[node][j];
                proof {
                    crate::precedence::lemma_route_step(row, j as int, n as int, None, 0);
                    assert forall|v: usize| #[trigger] occ(row.subrange(0, j + 1), v) == occ(row.subrange(0, j as int), v)
                        + (if row[j as int] == v { 1nat } else { 0nat }) by {
                        crate::precedence::lemma_occ_prefix(row, j as int, v);
                    }
                }
                if successor < n {
                    state.add_edge((node, successor));
                } else {
                    let ghost before = *state;
                    state.invalid_fixed_edges = state.invalid_fixed_edges.saturating_add(1);
                    assert(forall|u: usize, v: usize| #[trigger] state.arc_count(u, v) == before.arc_count(u, v));
                }
                j = j + 1;
            }
            proof {
                assert(row.subrange(0, j as int) =~= row);
            }
            node = node + 1;
        }
    }
}

} // verus!

verus! {

pub proof fn lemma_route_totals_nonneg(solution: &ListSolution, n: int, e: Edge, v: usize, k: int)
    ensures
        route_edge_total(solution, n, e, k) >= 0,
        route_node_total(solution, n, v, k) >= 0,
    decreases k,
{
    if k > 0 {
        lemma_route_totals_nonneg(solution, n, e, v, k - 1);
    }
}

impl ListPrecedenceMakespanConstraint {
    /// Reads every owner's route into the state.
    fn add_routes(&self, state: &mut ListPrecedenceState, solution: &ListSolution)
        requires
            self.tables_cover(),
            old(state).wf(),
            old(state).node_count == self.node_count(),
            old(state).owner_elements@.len() == solution.routes@.len(),
            forall|o: int| 0 <= o < solution.routes@.len() ==> (#[trigger] old(state).owner_elements@[o])@.len() == 0,
            forall|o: int| 0 <= o < solution.routes@.len() ==> (#[trigger] old(state).owner_edges@[o])@.len() == 0,
            forall|v: usize| v < self.node_count() ==> #[trigger] old(state).assigned_counts@[v as int] == 0,
            forall|u: usize, v: usize| u < self.node_count() && v < self.node_count() ==> #[trigger] old(state).arc_count(u, v)
                == sat_usize(occ(self.fixed_successors@[u as int]@, v) as int),
        ensures
            final(state).wf(),
            final(state).node_count == old(state).node_count,
            final(state).owner_elements@.len() == solution.routes@.len(),
            forall|u: usize, v: usize| u < self.node_count() && v < self.node_count() ==> #[trigger] final(state).arc_count(u, v)
                == sat_usize(occ(self.fixed_successors@[u as int]@, v) + route_edge_total(solution, self.node_count(), (u, v), solution.routes@.len() as int)),
            forall|v: usize| v < self.node_count() ==> #[trigger] final(state).assigned_counts@[v as int]
                == sat_usize(route_node_total(solution, self.node_count(), v, solution.routes@.len() as int)),
            forall|o: int| 0 <= o < solution.routes@.len() ==> (#[trigger] final(state).owner_elements@[o])@
                == route_elements(owner_list(solution, o), self.node_count()),
            forall|o: int| 0 <= o < solution.routes@.len() ==> (#[trigger] final(state).owner_edges@[o])@
                == route_edges(owner_list(solution, o), self.node_count()),
            forall|o: int| 0 <= o < solution.routes@.len() ==> #[trigger] final(state).owner_invalid_counts@[o]
                == route_invalid(owner_list(solution, o), self.node_count()),
            forall|o: int| 0 <= o < solution.routes@.len() ==> #[trigger] final(state).owner_violation_counts@[o]
                == route_violations(owner_list(solution, o), self.node_count(), owner_table(self.expected_owner), o as usize),
            final(state).invalid_fixed_edges == old(state).invalid_fixed_edges,
            final(state).durations == old(state).durations,
            final(state).release == old(state).release,
            final(state).pin == old(state).pin,
            final(state).disruption_baseline == old(state).disruption_baseline,
    {
        let ghost n = self.node_count();
        let m = solution.routes.len();
        let mut owner: usize = 0;
        while owner < m
            invariant
                self.tables_cover(),
                n == self.node_count(),
                m == solution.routes@.len(),
                owner <= m,
                state.wf(),
                state.node_count == n,
                state.owner_elements@.len() == m,
                forall|o: int| owner <= o < m ==> (#[trigger] state.owner_elements@[o])@.len() == 0,
                forall|o: int| owner <= o < m ==> (#[trigger] state.owner_edges@[o])@.len() == 0,
                forall|u: usize, v: usize| u < n && v < n ==> #[trigger] state.arc_count(u, v)
                    == sat_usize(occ(self.fixed_successors@[u as int]@, v) + route_edge_total(solution, n, (u, v), owner as int)),
                forall|v: usize| v < n ==> #[trigger] state.assigned_counts@[v as int] == sat_usize(route_node_total(solution, n, v, owner as int)),
                forall|o: int| 0 <= o < owner ==> (#[trigger] state.owner_elements@[o])@ == route_elements(owner_list(solution, o), n),
                forall|o: int| 0 <= o < owner ==> (#[trigger] state.owner_edges@[o])@ == route_edges(owner_list(solution, o), n),
                forall|o: int| 0 <= o < owner ==> #[trigger] state.owner_invalid_counts@[o] == route_invalid(owner_list(solution, o), n),
                forall|o: int| 0 <= o < owner ==> #[trigger] state.owner_violation_counts@[o]
                    == route_violations(owner_list(solution, o), n, owner_table(self.expected_owner), o as usize),
                state.invalid_fixed_edges == old(state).invalid_fixed_edges,
                state.durations == old(state).durations,
                state.release == old(state).release,
                state.pin == old(state).pin,
                state.disruption_baseline == old(state).disruption_baseline,
            decreases m - owner,
        {
            let ghost before = *state;
            proof {
                assert(state.owner_elements@[owner as int]@.len() == 0);
                assert(state.owner_edges@[owner as int]@.len() == 0);
            }
            let _change = state.add_owner_route(solution, owner, &self.expected_owner);
            proof {
                let l = owner_list(solution, owner as int);
                assert forall|v: usize| v < n implies #[trigger] state.assigned_counts@[v as int]
                    == sat_usize(route_node_total(solution, n, v, owner + 1)) by {
                    lemma_route_totals_nonneg(solution, n, (0, 0), v, owner as int);
                    assert(occ(before.owner_elements@[owner as int]@, v) == 0);
                }
                assert forall|u: usize, v: usize| u < n && v < n implies #[trigger] state.arc_count(u, v)
                    == sat_usize(occ(self.fixed_successors@[u as int]@, v) + route_edge_total(solution, n, (u, v), owner + 1)) by {
                    lemma_route_totals_nonneg(solution, n, (u, v), 0, owner as int);
                    assert(occ(before.owner_edges@[owner as int]@, (u, v)) == 0);
                }
                assert forall|o: int| 0 <= o < owner + 1 implies #[trigger] state.owner_invalid_counts@[o] == route_invalid(owner_list(solution, o), n) by {
                    if o < owner {
                        assert(state.owner_invalid_counts@[o] == before.owner_invalid_counts@[o]);
                    } else {
                        crate::precedence::lemma_route_invalid_bound(l, n);
                        assert(l.len() == solution.routes@[owner as int].len());
                    }
                }
                assert forall|o: int| 0 <= o < owner + 1 implies #[trigger] state.owner_violation_counts@[o]
                    == route_violations(owner_list(solution, o), n, owner_table(self.expected_owner), o as usize) by {
                    if o < owner {
                        assert(state.owner_violation_counts@[o] == before.owner_violation_counts@[o]);
                    } else {
                        crate::precedence::lemma_route_violations_bound(l, n, owner_table(self.expected_owner), owner);
                        assert(l.len() == solution.routes@[owner as int].len());
                    }
                }
                assert forall|o: int| owner + 1 <= o < m implies (#[trigger] state.owner_elements@[o])@.len() == 0 by {
                    assert(state.owner_elements@[o] == before.owner_elements@[o]);
                }
                assert forall|o: int| owner + 1 <= o < m implies (#[trigger] state.owner_edges@[o])@.len() == 0 by {
                    assert(state.owner_edges@[o] == before.owner_edges@[o]);
                }
                assert forall|o: int| 0 <= o < owner + 1 implies (#[trigger] state.owner_elements@[o])@ == route_elements(owner_list(solution, o), n) by {
                    if o < owner {
                        assert(state.owner_elements@[o] == before.owner_elements@[o]);
                    }
                }
                assert forall|o: int| 0 <= o < owner + 1 implies (#[trigger] state.owner_edges@[o])@ == route_edges(owner_list(solution, o), n) by {
                    if o < owner {
                        assert(state.owner_edges@[o] == before.owner_edges@[o]);
                    }
                }
            }
            owner = owner + 1;
        }
    }
}

} // verus!

verus! {

impl ListPrecedenceMakespanConstraint {
    /// The release time of every node (0 without a table).
    fn release_times(&self) -> (r: Vec<i64>)
        requires
            self.tables_cover(),
        ensures
            r@.len() == self.node_count(),
            forall|v: int| 0 <= v < self.node_count() ==> #[trigger] r@[v] == release_of(self, v),
    {
        let n = self.node_durations.len();
        let mut r: Vec<i64> = Vec::new();
        let mut v: usize = 0;
        while v < n
            invariant
                self.tables_cover(),
                n == self.node_count(),
                v <= n,
                r@.len() == v,
                forall|k: int| 0 <= k < v ==> #[trigger] r@[k] == release_of(self, k),
            decreases n - v,
        {
            let t = match &self.node_release_time {
                Some(table) => table[v],
                None => 0,
            };
            r.push(t);
            v = v + 1;
        }
        r
    }

    /// The pin target of every node (none without a table).
    fn pin_targets(&self) -> (r: Vec<Option<i64>>)
        requires
            self.tables_cover(),
        ensures
            r@.len() == self.node_count(),
            forall|v: int| 0 <= v < self.node_count() ==> #[trigger] r@[v] == pin_of(self, v),
    {
        let n = self.node_durations.len();
        let mut r: Vec<Option<i64>> = Vec::new();
        let mut v: usize = 0;
        while v < n
            invariant
                self.tables_cover(),
                n == self.node_count(),
                v <= n,
                r@.len() == v,
                forall|k: int| 0 <= k < v ==> #[trigger] r@[k] == pin_of(self, k),
            decreases n - v,
        {
            let t = match &self.pin_target {
                Some(table) => table[v],
                None => None,
            };
            r.push(t);
            v = v + 1;
        }
        r
    }

    /// The disruption baseline of every node (none without a table).
    fn baselines(&self) -> (r: Vec<Option<i64>>)
        requires
            self.tables_cover(),
        ensures
            r@.len() == self.node_count(),
            forall|v: int| 0 <= v < self.node_count() ==> #[trigger] r@[v] == baseline_of(self, v),
    {
        let n = self.node_durations.len();
        let mut r: Vec<Option<i64>> = Vec::new();
        let mut v: usize = 0;
        while v < n
            invariant
                self.tables_cover(),
                n == self.node_count(),
                v <= n,
                r@.len() == v,
                forall|k: int| 0 <= k < v ==> #[trigger] r@[k] == baseline_of(self, k),
            decreases n - v,
        {
            let t = match &self.disruption_baseline {
                Some(table) => table[v],
                None => None,
            };
            r.push(t);
            v = v + 1;
        }
        r
    }

    /// Builds the precedence state of a solution from scratch and scores it.
    pub fn build_state(&self, solution: &ListSolution) -> (s: ListPrecedenceState)
        requires
            self.tables_cover(),
        ensures
            fresh_structure(self, &s, solution),
            rebuilt(&s),
            cache_ok(&s),
            s.score == s.cached_score(),
    {
        let n = self.node_durations.len();
        let owner_count = solution.routes.len();
        let durations = self.durations_i64();
        let mut state = ListPrecedenceState::new(n, owner_count, durations);
        self.add_fixed_successors(&mut state);
        self.add_routes(&mut state, solution);
        let ghost routed = state;
        if self.node_release_time.is_some() || self.pin_target.is_some() || self.disruption_baseline.is_some() {
            let release = self.release_times();
            let pin = self.pin_targets();
            let baseline = self.baselines();
            state.set_pin_terms(release, pin, baseline);
        }
        state.refresh_score_full();
        proof {
            assert forall|u: usize, v: usize| #[trigger] state.arc_count(u, v) == routed.arc_count(u, v) by {
                assert(state.edge_counts == routed.edge_counts);
            }
        }
        state
    }

    /// The score of a solution, computed from scratch.
    pub fn evaluate(&self, solution: &ListSolution) -> (r: HardSoftScore)
        requires
            self.tables_cover(),
        ensures
            exists|s: ListPrecedenceState| fresh_structure(self, &s, solution) && rebuilt(&s) && r == s.cached_score(),
    {
        let state = self.build_state(solution);
        state.score
    }

    /// The number of matches of a solution: its structural hard penalty (saturating) plus one
    /// when its makespan is positive.
    pub fn match_count(&self, solution: &ListSolution) -> (r: usize)
        requires
            self.tables_cover(),
        ensures
            exists|s: ListPrecedenceState| fresh_structure(self, &s, solution) && rebuilt(&s)
                && r == sat_usize(sat_usize(s.structural_penalty()) + (if s.makespan > 0 { 1int } else { 0int })),
    {
        let state = self.build_state(solution);
        let ghost st = state;
        let mut state = state;
        let _score = state.refresh_score_from_cached_graph();
        let hard = crate::score::u128_to_usize(state.hard_penalty);
        let extra: usize = if state.makespan > 0 { 1 } else { 0 };
        let r = hard.saturating_add(extra);
        proof {
            assert(fresh_structure(self, &st, solution) && rebuilt(&st));
        }
        r
    }
}

} // verus!

verus! {

/// `s1` is `s0` with the route of `owner` replaced by the given elements, arcs and counts:
/// assignment counts and arc counts move from the old route to the new one, and every other
/// route and the per-node data stay.
pub open spec fn route_replaced(
    s0: &ListPrecedenceState,
    s1: &ListPrecedenceState,
    owner: int,
    elements: Seq<usize>,
    edges: Seq<Edge>,
    invalid: int,
    violations: int,
) -> bool {
    &&& s1.wf()
    &&& s1.node_count == s0.node_count
    &&& s1.owner_elements@.len() == s0.owner_elements@.len()
    &&& s1.owner_elements@[owner]@ == elements
    &&& s1.owner_edges@[owner]@ == edges
    &&& s1.owner_invalid_counts@ == s0.owner_invalid_counts@.update(owner, invalid as usize)
    &&& s1.owner_violation_counts@ == s0.owner_violation_counts@.update(owner, violations as usize)
    &&& forall|o: int| 0 <= o < s0.owner_elements@.len() && o != owner ==> #[trigger] s1.owner_elements@[o] == s0.owner_elements@[o]
    &&& forall|o: int| 0 <= o < s0.owner_elements@.len() && o != owner ==> #[trigger] s1.owner_edges@[o] == s0.owner_edges@[o]
    &&& forall|v: usize| v < s0.node_count ==> #[trigger] s1.assigned_counts@[v as int] == updated_count(
        s0.assigned_counts@[v as int], occ(s0.owner_elements@[owner]@, v), occ(elements, v))
    &&& forall|u: usize, v: usize| #[trigger] s1.arc_count(u, v) == shifted_count(
        s0.arc_count(u, v), occ(s0.owner_edges@[owner]@, (u, v)), occ(edges, (u, v)))
    &&& s1.durations == s0.durations
    &&& s1.invalid_fixed_edges == s0.invalid_fixed_edges
    &&& s1.release == s0.release
    &&& s1.pin == s0.pin
    &&& s1.disruption_baseline == s0.disruption_baseline
}

impl ListPrecedenceMakespanConstraint {
    /// The cached state, when there is one, is well formed and the expected owner table covers
    /// its nodes.
    pub open spec fn state_ok(&self) -> bool {
        match self.state {
            Some(s) => s.wf() && owner_table_covers(&self.expected_owner, s.node_count as int),
            None => true,
        }
    }

    /// An insert or retract of `entity` of list `descriptor` reaches the cached state.
    pub open spec fn active(&self, entity: usize, descriptor: usize) -> bool {
        &&& descriptor == self.list_descriptor_index
        &&& self.state is Some
        &&& entity < self.state->0.owner_elements@.len()
    }

    /// Builds and caches the state of `solution`; returns its score.
    pub fn initialize(&mut self, solution: &ListSolution) -> (r: HardSoftScore)
        requires
            old(self).tables_cover(),
        ensures
            final(self).state_ok(),
            final(self).state is Some,
            fresh_structure(final(self), &final(self).state->0, solution),
            rebuilt(&final(self).state->0),
            cache_ok(&final(self).state->0),
            final(self).state->0.score == final(self).state->0.cached_score(),
            r == final(self).state->0.score,
            *final(self) == (Self { state: final(self).state, ..*old(self) }),
    {
        let state = self.build_state(solution);
        let score = state.score;
        self.state = Some(state);
        score
    }

    /// Takes the route of `entity` out of the cached state and returns the score change.
    pub fn on_retract(&mut self, solution: &ListSolution, entity_index: usize, descriptor_index: usize) -> (r: HardSoftScore)
        requires
            old(self).state_ok(),
        ensures
            final(self).state_ok(),
            *final(self) == (Self { state: final(self).state, ..*old(self) }),
            !old(self).active(entity_index, descriptor_index) ==> r.hard == 0 && r.soft == 0 && *final(self) == *old(self),
            old(self).active(entity_index, descriptor_index) ==> {
                let s0 = old(self).state->0;
                let s1 = final(self).state->0;
                &&& final(self).state is Some
                &&& route_replaced(&s0, &s1, entity_index as int, Seq::empty(), Seq::empty(), 0, 0)
                &&& s1.score == s1.cached_score()
                &&& r.hard == clamp_i64(s1.score.hard - s0.score.hard)
                &&& r.soft == clamp_i64(s1.score.soft - s0.score.soft)
                &&& cache_ok(&s0) && nonneg_terms(&s0) ==> cache_ok(&s1)
            },
    {
        if descriptor_index != self.list_descriptor_index {
            return HardSoftScore::zero();
        }
        let mut state = match self.state.take() {
            Some(s) => s,
            None => {
                return HardSoftScore::zero();
            },
        };
        if entity_index >= state.owner_edges.len() {
            self.state = Some(state);
            return HardSoftScore::zero();
        }
        let ghost s0 = state;
        let before = state.score;
        let change = state.remove_owner_route(entity_index);
        let ghost mid = state;
        proof {
            assert forall|k: int| 0 <= k < change.added_edges@.len() implies (#[trigger] change.added_edges@[k]).0 < mid.node_count
                && change.added_edges@[k].1 < mid.node_count by {
                let ed = change.added_edges@[k];
                assert(change.added_edges@.contains((ed.0, ed.1)));
            }
            assert(changed_from(&s0, &mid, &change));
        }
        let after = state.refresh_score_after_route_change(&change);
        proof {
            assert forall|u: usize, v: usize| #[trigger] state.arc_count(u, v) == mid.arc_count(u, v) by {
                assert(state.edge_counts == mid.edge_counts);
            }
            assert(state.owner_elements@[entity_index as int]@ =~= Seq::<usize>::empty());
            assert(state.owner_edges@[entity_index as int]@ =~= Seq::<Edge>::empty());
            assert forall|v: usize| #[trigger] occ(Seq::<usize>::empty(), v) == 0 by {}
            assert forall|e: Edge| #[trigger] occ(Seq::<Edge>::empty(), e) == 0 by {}
            assert(route_replaced(&s0, &state, entity_index as int, Seq::empty(), Seq::empty(), 0, 0));
        }
        self.state = Some(state);
        after.minus(&before)
    }
}

} // verus!

verus! {

impl ListPrecedenceMakespanConstraint {
    /// Reads the route of `entity` from `solution` into the cached state and returns the score
    /// change.
    pub fn on_insert(&mut self, solution: &ListSolution, entity_index: usize, descriptor_index: usize) -> (r: HardSoftScore)
        requires
            old(self).state_ok(),
        ensures
            final(self).state_ok(),
            *final(self) == (Self { state: final(self).state, ..*old(self) }),
            !old(self).active(entity_index, descriptor_index) ==> r.hard == 0 && r.soft == 0 && *final(self) == *old(self),
            old(self).active(entity_index, descriptor_index) ==> {
                let s0 = old(self).state->0;
                let s1 = final(self).state->0;
                let n = s0.node_count as int;
                let l = owner_list(solution, entity_index as int);
                &&& final(self).state is Some
                &&& route_replaced(&s0, &s1, entity_index as int, route_elements(l, n), route_edges(l, n), route_invalid(l, n),
                    route_violations(l, n, owner_table(old(self).expected_owner), entity_index))
                &&& s1.score == s1.cached_score()
                &&& r.hard == clamp_i64(s1.score.hard - s0.score.hard)
                &&& r.soft == clamp_i64(s1.score.soft - s0.score.soft)
                &&& cache_ok(&s0) && nonneg_terms(&s0) ==> cache_ok(&s1)
            },
    {
        if descriptor_index != self.list_descriptor_index {
            return HardSoftScore::zero();
        }
        let mut state = match self.state.take() {
            Some(s) => s,
            None => {
                return HardSoftScore::zero();
            },
        };
        if entity_index >= state.owner_edges.len() {
            self.state = Some(state);
            return HardSoftScore::zero();
        }
        let ghost s0 = state;
        let before = state.score;
        let change = state.add_owner_route(solution, entity_index, &self.expected_owner);
        let ghost mid = state;
        proof {
            assert forall|k: int| 0 <= k < change.added_edges@.len() implies (#[trigger] change.added_edges@[k]).0 < mid.node_count
                && change.added_edges@[k].1 < mid.node_count by {
                let ed = change.added_edges@[k];
                assert(change.added_edges@.contains((ed.0, ed.1)));
            }
            assert(changed_from(&s0, &mid, &change));
        }
        let after = state.refresh_score_after_route_change(&change);
        proof {
            assert forall|u: usize, v: usize| #[trigger] state.arc_count(u, v) == mid.arc_count(u, v) by {
                assert(state.edge_counts == mid.edge_counts);
            }
            let l = owner_list(solution, entity_index as int);
            let n = s0.node_count as int;
            crate::precedence::lemma_route_invalid_bound(l, n);
            crate::precedence::lemma_route_violations_bound(l, n, owner_table(self.expected_owner), entity_index);
            if 0 <= entity_index < solution.routes@.len() {
                assert(l.len() == solution.routes@[entity_index as int].len());
            }
            assert(route_replaced(&s0, &state, entity_index as int, route_elements(l, n), route_edges(l, n), route_invalid(l, n),
                route_violations(l, n, owner_table(self.expected_owner), entity_index)));
        }
        self.state = Some(state);
        after.minus(&before)
    }
}

} // verus!

verus! {

/// `after` has the same owners as `before`, and the same list for every owner but `owner`.
pub open spec fn same_but_route(before: &ListSolution, after: &ListSolution, owner: int) -> bool {
    &&& after.routes@.len() == before.routes@.len()
    &&& forall|o: int| 0 <= o < before.routes@.len() && o != owner ==> #[trigger] owner_list(after, o) == owner_list(before, o)
}

/// No arc or assignment count of the solution reaches `usize::MAX`.
pub open spec fn counts_fit(c: &ListPrecedenceMakespanConstraint, solution: &ListSolution) -> bool {
    let n = c.node_count();
    let m = solution.routes@.len() as int;
    &&& forall|u: usize, v: usize| u < n && v < n ==> #[trigger] occ(c.fixed_successors@[u as int]@, v) + route_edge_total(solution, n, (u, v), m)
        < usize::MAX
    &&& forall|v: usize| v < n ==> #[trigger] route_node_total(solution, n, v, m) < usize::MAX
}

proof fn lemma_totals_swap(before: &ListSolution, after: &ListSolution, owner: int, n: int, e: Edge, v: usize, k: int)
    requires
        same_but_route(before, after, owner),
        0 <= owner < before.routes@.len(),
        0 <= k <= before.routes@.len(),
    ensures
        route_edge_total(after, n, e, k) == route_edge_total(before, n, e, k) + (if owner < k {
            occ(route_edges(owner_list(after, owner), n), e) - occ(route_edges(owner_list(before, owner), n), e)
        } else {
            0
        }),
        route_node_total(after, n, v, k) == route_node_total(before, n, v, k) + (if owner < k {
            occ(route_elements(owner_list(after, owner), n), v) - occ(route_elements(owner_list(before, owner), n), v)
        } else {
            0
        }),
        owner < k ==> route_edge_total(before, n, e, k) >= occ(route_edges(owner_list(before, owner), n), e),
        owner < k ==> route_node_total(before, n, v, k) >= occ(route_elements(owner_list(before, owner), n), v),
    decreases k,
{
    if k > 0 {
        lemma_totals_swap(before, after, owner, n, e, v, k - 1);
        lemma_route_totals_nonneg(before, n, e, v, k - 1);
        if k - 1 != owner {
            assert(owner_list(after, k - 1) == owner_list(before, k - 1));
        }
    }
}

/// Retracting the route of `owner` and inserting its new list keeps the cached structure
/// equal to the one built from scratch for the new solution: the arc counts, assignment
/// counts, routes and per-route counts come out the same (as long as no count reaches
/// `usize::MAX`).
pub proof fn lemma_retract_insert_matches_rebuild(
    c: &ListPrecedenceMakespanConstraint,
    s0: &ListPrecedenceState,
    s1: &ListPrecedenceState,
    s2: &ListPrecedenceState,
    before: &ListSolution,
    after: &ListSolution,
    owner: usize,
)
    requires
        fresh_structure(c, s0, before),
        same_but_route(before, after, owner as int),
        owner < before.routes@.len(),
        counts_fit(c, before),
        counts_fit(c, after),
        route_replaced(s0, s1, owner as int, Seq::empty(), Seq::empty(), 0, 0),
        route_replaced(s1, s2, owner as int, route_elements(owner_list(after, owner as int), c.node_count()),
            route_edges(owner_list(after, owner as int), c.node_count()), route_invalid(owner_list(after, owner as int), c.node_count()),
            route_violations(owner_list(after, owner as int), c.node_count(), owner_table(c.expected_owner), owner)),
    ensures
        fresh_structure(c, s2, after),
{
    let n = c.node_count();
    let m = before.routes@.len() as int;
    let l0 = owner_list(before, owner as int);
    let l1 = owner_list(after, owner as int);
    assert forall|v: usize| #[trigger] occ(Seq::<usize>::empty(), v) == 0 by {}
    assert forall|e: Edge| #[trigger] occ(Seq::<Edge>::empty(), e) == 0 by {}
    assert forall|u: usize, v: usize| u < n && v < n implies #[trigger] s2.arc_count(u, v) == sat_usize(
        occ(c.fixed_successors@[u as int]@, v) + route_edge_total(after, n, (u, v), m)) by {
        lemma_totals_swap(before, after, owner as int, n, (u, v), v, m);
        assert(s0.arc_count(u, v) == sat_usize(occ(c.fixed_successors@[u as int]@, v) + route_edge_total(before, n, (u, v), m)));
        assert(s0.owner_edges@[owner as int]@ == route_edges(l0, n));
        assert(s1.owner_edges@[owner as int]@ =~= Seq::<Edge>::empty());
    }
    assert forall|v: usize| v < n implies #[trigger] s2.assigned_counts@[v as int] == sat_usize(route_node_total(after, n, v, m)) by {
        lemma_totals_swap(before, after, owner as int, n, (0, 0), v, m);
        assert(s0.assigned_counts@[v as int] == sat_usize(route_node_total(before, n, v, m)));
        assert(s0.owner_elements@[owner as int]@ == route_elements(l0, n));
        assert(s1.owner_elements@[owner as int]@ =~= Seq::<usize>::empty());
        lemma_route_totals_nonneg(after, n, (0, 0), v, m);
    }
    crate::precedence::lemma_route_invalid_bound(l1, n);
    crate::precedence::lemma_route_violations_bound(l1, n, owner_table(c.expected_owner), owner);
    assert(l1.len() == after.routes@[owner as int].len());
    assert forall|o: int| 0 <= o < m implies (#[trigger] s2.owner_elements@[o])@ == route_elements(owner_list(after, o), n) by {
        if o != owner {
            assert(s2.owner_elements@[o] == s1.owner_elements@[o]);
            assert(s1.owner_elements@[o] == s0.owner_elements@[o]);
            assert(owner_list(after, o) == owner_list(before, o));
        }
    }
    assert forall|o: int| 0 <= o < m implies (#[trigger] s2.owner_edges@[o])@ == route_edges(owner_list(after, o), n) by {
        if o != owner {
            assert(s2.owner_edges@[o] == s1.owner_edges@[o]);
            assert(s1.owner_edges@[o] == s0.owner_edges@[o]);
            assert(owner_list(after, o) == owner_list(before, o));
        }
    }
    assert forall|o: int| 0 <= o < m implies #[trigger] s2.owner_invalid_counts@[o] == route_invalid(owner_list(after, o), n) by {
        if o != owner {
            assert(owner_list(after, o) == owner_list(before, o));
        }
    }
    assert forall|o: int| 0 <= o < m implies #[trigger] s2.owner_violation_counts@[o]
        == route_violations(owner_list(after, o), n, owner_table(c.expected_owner), o as usize) by {
        if o != owner {
            assert(owner_list(after, o) == owner_list(before, o));
        }
    }
}

} // verus!

verus! {

/// A cached state whose cache agrees with its graph scores a solution exactly as a state built
/// from scratch for it.
pub proof fn lemma_cached_state_scores_as_fresh(
    c: &ListPrecedenceMakespanConstraint,
    s: &ListPrecedenceState,
    f: &ListPrecedenceState,
    solution: &ListSolution,
)
    requires
        fresh_structure(c, s, solution),
        cache_ok(s),
        fresh_structure(c, f, solution),
        rebuilt(f),
    ensures
        s.cached_score() == f.cached_score(),
{
    let n = c.node_count();
    assert forall|u: usize, v: usize| #![trigger s.arc(u, v)] #![trigger f.arc(u, v)] s.arc(u, v) == f.arc(u, v) by {
        if u < n && v < n {
            assert(s.arc_count(u, v) == f.arc_count(u, v));
        }
    }
    if s.is_acyclic() {
        lemma_sub_acyclic(s, f);
    }
    if f.is_acyclic() {
        lemma_sub_acyclic(f, s);
    }
    assert(s.durations@ =~= f.durations@);
    assert(s.release@ =~= f.release@);
    assert(s.pin@ =~= f.pin@);
    assert(s.disruption_baseline@ =~= f.disruption_baseline@);
    assert(s.assigned_counts@ =~= f.assigned_counts@) by {
        assert forall|v: int| 0 <= v < n implies s.assigned_counts@[v] == f.assigned_counts@[v] by {
            assert(s.assigned_counts@[v as usize as int] == f.assigned_counts@[v as usize as int]);
        }
    }
    assert(s.owner_invalid_counts@ =~= f.owner_invalid_counts@);
    assert(s.owner_violation_counts@ =~= f.owner_violation_counts@);
    if s.is_acyclic() {
        lemma_exact_scores_agree(s, f);
    } else {
        if n == 0 {
            assert(s.is_topological_rank(Seq::<nat>::empty()));
        }
        assert(s.structural_penalty() == f.structural_penalty());
    }
}

/// One score-director step on `owner`, as `on_retract` and `on_insert` describe it: the route
/// of `owner` is retracted from `s0` (giving `s1`), and the list of `owner` in `after` is
/// inserted (giving `s2`); `after` differs from `before` only in that list.
pub open spec fn retract_insert_step(
    c: &ListPrecedenceMakespanConstraint,
    s0: &ListPrecedenceState,
    s1: &ListPrecedenceState,
    s2: &ListPrecedenceState,
    before: &ListSolution,
    after: &ListSolution,
    owner: usize,
) -> bool {
    let n = c.node_count();
    let l = owner_list(after, owner as int);
    &&& same_but_route(before, after, owner as int)
    &&& owner < before.routes@.len()
    &&& route_replaced(s0, s1, owner as int, Seq::empty(), Seq::empty(), 0, 0)
    &&& cache_ok(s0) && nonneg_terms(s0) ==> cache_ok(s1)
    &&& route_replaced(s1, s2, owner as int, route_elements(l, n), route_edges(l, n), route_invalid(l, n),
        route_violations(l, n, owner_table(c.expected_owner), owner))
    &&& cache_ok(s1) && nonneg_terms(s1) ==> cache_ok(s2)
    &&& s2.score == s2.cached_score()
}

/// A step from a state built for `before` whose cache agrees with its graph leaves a state
/// built for `after` whose cache agrees with its graph, with release times and durations kept,
/// unless a count reaches `usize::MAX`.
pub proof fn lemma_retract_insert_keeps_cache(
    c: &ListPrecedenceMakespanConstraint,
    s0: &ListPrecedenceState,
    s1: &ListPrecedenceState,
    s2: &ListPrecedenceState,
    before: &ListSolution,
    after: &ListSolution,
    owner: usize,
)
    requires
        fresh_structure(c, s0, before),
        cache_ok(s0),
        nonneg_terms(s0),
        counts_fit(c, before),
        counts_fit(c, after),
        retract_insert_step(c, s0, s1, s2, before, after, owner),
    ensures
        fresh_structure(c, s2, after),
        cache_ok(s2),
        nonneg_terms(s2),
{
    lemma_retract_insert_matches_rebuild(c, s0, s1, s2, before, after, owner);
    assert(nonneg_terms(s1));
}

/// Incremental equals fresh: from a state built for `before` whose cache agrees with its graph
/// (release times and durations not negative), retracting the route of `owner` and inserting
/// its list in `after` (as `on_retract` and `on_insert` do) leaves the score that `evaluate`
/// gives `after`, and a cache that again agrees with its graph, whenever no count reaches
/// `usize::MAX`.
pub proof fn lemma_retract_insert_score_is_fresh(
    c: &ListPrecedenceMakespanConstraint,
    s0: &ListPrecedenceState,
    s1: &ListPrecedenceState,
    s2: &ListPrecedenceState,
    f: &ListPrecedenceState,
    before: &ListSolution,
    after: &ListSolution,
    owner: usize,
)
    requires
        fresh_structure(c, s0, before),
        cache_ok(s0),
        nonneg_terms(s0),
        counts_fit(c, before),
        counts_fit(c, after),
        retract_insert_step(c, s0, s1, s2, before, after, owner),
        fresh_structure(c, f, after),
        rebuilt(f),
    ensures
        s2.score == f.cached_score(),
        cache_ok(s2),
{
    lemma_retract_insert_keeps_cache(c, s0, s1, s2, before, after, owner);
    lemma_cached_state_scores_as_fresh(c, s2, f, after);
}

/// The states after the first `j` steps of a run: built for the `j`-th solution, with a cache
/// that agrees with the graph and release times and durations not negative.
proof fn lemma_steps_keep_cache(
    c: &ListPrecedenceMakespanConstraint,
    states: Seq<ListPrecedenceState>,
    solutions: Seq<ListSolution>,
    owners: Seq<usize>,
    j: nat,
)
    requires
        owners.len() + 1 == solutions.len(),
        states.len() == 2 * owners.len() + 1,
        j <= owners.len(),
        fresh_structure(c, &states[0], &solutions[0]),
        cache_ok(&states[0]),
        nonneg_terms(&states[0]),
        forall|i: int| 0 <= i < solutions.len() ==> counts_fit(c, #[trigger] &solutions[i]),
        forall|i: int| 0 <= i < owners.len() ==> retract_insert_step(c, &states[2 * i], &states[2 * i + 1],
            &states[2 * i + 2], &solutions[i], &solutions[i + 1], #[trigger] owners[i]),
    ensures
        fresh_structure(c, &states[2 * j as int], &solutions[j as int]),
        cache_ok(&states[2 * j as int]),
        nonneg_terms(&states[2 * j as int]),
    decreases j,
{
    if j > 0 {
        let i = j - 1;
        lemma_steps_keep_cache(c, states, solutions, owners, i as nat);
        assert(retract_insert_step(c, &states[2 * i], &states[2 * i + 1], &states[2 * i + 2], &solutions[i], &solutions[i + 1], owners[i]));
        assert(counts_fit(c, &solutions[i]));
        assert(counts_fit(c, &solutions[i + 1]));
        lemma_retract_insert_keeps_cache(c, &states[2 * i], &states[2 * i + 1], &states[2 * i + 2], &solutions[i],
            &solutions[i + 1], owners[i]);
        assert(2 * i + 2 == 2 * j);
    }
}

/// Incremental equals fresh over a whole run: starting from a state built for the first
/// solution (as `initialize` leaves it) and changing one list per step (as `on_retract` and
/// `on_insert` do), the score after the last step is the score that a build from scratch gives
/// the last solution, and the cache still agrees with the graph. This holds whenever release
/// times and durations are not negative and no count reaches `usize::MAX`.
pub proof fn lemma_steps_score_is_fresh(
    c: &ListPrecedenceMakespanConstraint,
    states: Seq<ListPrecedenceState>,
    solutions: Seq<ListSolution>,
    owners: Seq<usize>,
    f: &ListPrecedenceState,
)
    requires
        owners.len() > 0,
        owners.len() + 1 == solutions.len(),
        states.len() == 2 * owners.len() + 1,
        fresh_structure(c, &states[0], &solutions[0]),
        cache_ok(&states[0]),
        nonneg_terms(&states[0]),
        forall|i: int| 0 <= i < solutions.len() ==> counts_fit(c, #[trigger] &solutions[i]),
        forall|i: int| 0 <= i < owners.len() ==> retract_insert_step(c, &states[2 * i], &states[2 * i + 1],
            &states[2 * i + 2], &solutions[i], &solutions[i + 1], #[trigger] owners[i]),
        fresh_structure(c, f, &solutions.last()),
        rebuilt(f),
    ensures
        states.last().score == f.cached_score(),
        cache_ok(&states.last()),
{
    let k = owners.len();
    lemma_steps_keep_cache(c, states, solutions, owners, k);
    assert(states.last() == states[2 * k as int]);
    assert(solutions.last() == solutions[k as int]);
    let i = k - 1;
    assert(retract_insert_step(c, &states[2 * i], &states[2 * i + 1], &states[2 * i + 2], &solutions[i], &solutions[i + 1], owners[i]));
    lemma_cached_state_scores_as_fresh(c, &states[2 * k as int], f, &solutions[k as int]);
}

} // verus!
