use vstd::prelude::*;

use crate::score::{
    clamp_i64, sat_abs_diff_i64, sat_add_i64, sat_sub_i64, u128_to_i64, u128_to_usize, usize_to_i64,
    ConstraintRef, HardSoftScore,
};
use crate::solution::ListSolution;
use vstd::set_lib::{lemma_int_range, lemma_len_subset, set_int_range};

verus! {

/// A precedence arc between two nodes: `from` must finish before `to` starts.
pub type Edge = (usize, usize);

/// The sum of a sequence of counts.
pub open spec fn sum_counts(s: Seq<usize>) -> int
    decreases s.len(),
{
    if s.len() == 0 {
        0
    } else {
        sum_counts(s.drop_last()) + s.last()
    }
}

/// The hard penalty of a node assigned `count` times: missing (0) costs 1, each duplicate
/// beyond the first costs 1.
pub open spec fn penalty_of(count: int) -> int {
    if count == 0 {
        1
    } else if count == 1 {
        0
    } else {
        count - 1
    }
}

/// The summed assignment penalty of per-node assignment counts.
pub open spec fn penalty_sum(s: Seq<usize>) -> int
    decreases s.len(),
{
    if s.len() == 0 {
        0
    } else {
        penalty_sum(s.drop_last()) + penalty_of(s.last() as int)
    }
}

pub proof fn lemma_sum_counts_update(s: Seq<usize>, i: int, v: usize)
    requires
        0 <= i < s.len(),
    ensures
        sum_counts(s.update(i, v)) == sum_counts(s) - s[i] + v,
    decreases s.len(),
{
    if i < s.len() - 1 {
        lemma_sum_counts_update(s.drop_last(), i, v);
        assert(s.update(i, v).drop_last() =~= s.drop_last().update(i, v));
    } else {
        assert(s.update(i, v).drop_last() =~= s.drop_last());
    }
}

pub proof fn lemma_sum_counts_bounds(s: Seq<usize>)
    ensures
        0 <= sum_counts(s) <= s.len() * (usize::MAX as int),
    decreases s.len(),
{
    if s.len() > 0 {
        lemma_sum_counts_bounds(s.drop_last());
        assert((s.len() - 1) * (usize::MAX as int) + (usize::MAX as int) == s.len() * (usize::MAX as int)) by (nonlinear_arith);
    }
}

pub proof fn lemma_sum_counts_element(s: Seq<usize>, i: int)
    requires
        0 <= i < s.len(),
    ensures
        s[i] <= sum_counts(s),
    decreases s.len(),
{
    lemma_sum_counts_bounds(s.drop_last());
    if i < s.len() - 1 {
        lemma_sum_counts_element(s.drop_last(), i);
    }
}

pub proof fn lemma_penalty_sum_update(s: Seq<usize>, i: int, v: usize)
    requires
        0 <= i < s.len(),
    ensures
        penalty_sum(s.update(i, v)) == penalty_sum(s) - penalty_of(s[i] as int) + penalty_of(v as int),
    decreases s.len(),
{
    if i < s.len() - 1 {
        lemma_penalty_sum_update(s.drop_last(), i, v);
        assert(s.update(i, v).drop_last() =~= s.drop_last().update(i, v));
    } else {
        assert(s.update(i, v).drop_last() =~= s.drop_last());
    }
}

pub proof fn lemma_penalty_sum_bounds(s: Seq<usize>)
    ensures
        0 <= penalty_sum(s) <= s.len() * (usize::MAX as int),
    decreases s.len(),
{
    if s.len() > 0 {
        lemma_penalty_sum_bounds(s.drop_last());
        assert((s.len() - 1) * (usize::MAX as int) + (usize::MAX as int) == s.len() * (usize::MAX as int)) by (nonlinear_arith);
    }
}

pub proof fn lemma_penalty_sum_element(s: Seq<usize>, i: int)
    requires
        0 <= i < s.len(),
    ensures
        penalty_of(s[i] as int) <= penalty_sum(s),
    decreases s.len(),
{
    lemma_penalty_sum_bounds(s.drop_last());
    if i < s.len() - 1 {
        lemma_penalty_sum_element(s.drop_last(), i);
    }
}

pub proof fn lemma_square_fits_u128()
    ensures
        (usize::MAX as int) * (usize::MAX as int) < u128::MAX,
{
    assert((usize::MAX as int) <= 0xffff_ffff_ffff_ffff);
    assert((usize::MAX as int) * (usize::MAX as int) <= 0xffff_ffff_ffff_ffff * 0xffff_ffff_ffff_ffff) by (nonlinear_arith)
        requires
            0 <= (usize::MAX as int) <= 0xffff_ffff_ffff_ffff,
    ;
}

/// The hard penalty of a node assigned `count` times.
pub fn assignment_penalty(count: usize) -> (r: usize)
    ensures
        r == penalty_of(count as int),
{
    match count {
        0 => 1,
        1 => 0,
        extra => extra - 1,
    }
}

/// Removes one occurrence of `node` from `nodes` (the last element takes its place), if there
/// is one.
pub fn remove_node(nodes: &mut Vec<usize>, node: usize)
    ensures
        !old(nodes)@.contains(node) ==> final(nodes)@ == old(nodes)@,
        old(nodes)@.contains(node) ==> exists|pos: int|
            0 <= pos < old(nodes)@.len() && old(nodes)@[pos] == node && (forall|k: int| 0 <= k < pos ==> old(nodes)@[k] != node)
                && final(nodes)@ == old(nodes)@.update(pos, old(nodes)@.last()).drop_last(),
{
    let mut pos: usize = 0;
    while pos < nodes.len()
        invariant
            nodes@ == old(nodes)@,
            pos <= nodes@.len(),
            forall|k: int| 0 <= k < pos ==> nodes@[k] != node,
        decreases nodes@.len() - pos,
    {
        if nodes[pos] == node {
            nodes.swap_remove(pos);
            return;
        }
        pos = pos + 1;
    }
    assert(!old(nodes)@.contains(node));
}

/// The arcs whose presence changed when an owner's route was replaced.
#[derive(Debug)]
pub struct RouteChange {
    pub added_edges: Vec<Edge>,
    pub removed_edges: Vec<Edge>,
}

impl Default for RouteChange {
    fn default() -> (r: Self)
        ensures
            r.added_edges@.len() == 0,
            r.removed_edges@.len() == 0,
    {
        RouteChange { added_edges: Vec::new(), removed_edges: Vec::new() }
    }
}

impl RouteChange {
    pub fn is_empty(&self) -> (r: bool)
        ensures
            r == (self.added_edges@.len() == 0 && self.removed_edges@.len() == 0),
    {
        self.added_edges.len() == 0 && self.removed_edges.len() == 0
    }

    /// The heads of the added arcs, then of the removed arcs: the nodes whose start may
    /// change first.
    pub fn seeds(&self) -> (r: Vec<usize>)
        ensures
            r@ == self.added_edges@.map_values(|e: Edge| e.1) + self.removed_edges@.map_values(|e: Edge| e.1),
    {
        let mut r: Vec<usize> = Vec::new();
        let mut i: usize = 0;
        while i < self.added_edges.len()
            invariant
                i <= self.added_edges@.len(),
                r@ == self.added_edges@.subrange(0, i as int).map_values(|e: Edge| e.1),
            decreases self.added_edges@.len() - i,
        {
            r.push(self.added_edges[i].1);
            i = i + 1;
            assert(r@ =~= self.added_edges@.subrange(0, i as int).map_values(|e: Edge| e.1));
        }
        let mut j: usize = 0;
        while j < self.removed_edges.len()
            invariant
                i == self.added_edges@.len(),
                j <= self.removed_edges@.len(),
                r@ == self.added_edges@.subrange(0, i as int).map_values(|e: Edge| e.1)
                    + self.removed_edges@.subrange(0, j as int).map_values(|e: Edge| e.1),
            decreases self.removed_edges@.len() - j,
        {
            r.push(self.removed_edges[j].1);
            j = j + 1;
            assert(r@ =~= self.added_edges@.subrange(0, i as int).map_values(|e: Edge| e.1)
                + self.removed_edges@.subrange(0, j as int).map_values(|e: Edge| e.1));
        }
        assert(self.added_edges@.subrange(0, i as int) =~= self.added_edges@);
        assert(self.removed_edges@.subrange(0, j as int) =~= self.removed_edges@);
        r
    }
}

/// How a route change was folded into the cached schedule.
#[derive(Debug, Clone, Copy, PartialEq, Eq)]
pub enum GraphRefreshKind {
    Skipped,
    Incremental { visited: usize },
    CycleDetected,
    CycleRecovered,
    Full,
}

} // verus!

verus! {

/// The number of arcs to `to` recorded in a row of `(head, count)` entries.
pub open spec fn row_count(row: Seq<(usize, usize)>, to: usize) -> int
    decreases row.len(),
{
    if row.len() == 0 {
        0
    } else {
        row_count(row.drop_last(), to) + (if row.last().0 == to { row.last().1 as int } else { 0 })
    }
}

/// The heads of a row are distinct and every count is positive.
pub open spec fn row_wf(row: Seq<(usize, usize)>, n: int) -> bool {
    &&& forall|k: int| 0 <= k < row.len() ==> (#[trigger] row[k]).0 < n && row[k].1 > 0
    &&& forall|k1: int, k2: int| 0 <= k1 < row.len() && 0 <= k2 < row.len() && k1 != k2 ==> (#[trigger] row[k1]).0 != (#[trigger] row[k2]).0
}

pub proof fn lemma_row_count_absent(row: Seq<(usize, usize)>, to: usize)
    requires
        forall|k: int| 0 <= k < row.len() ==> (#[trigger] row[k]).0 != to,
    ensures
        row_count(row, to) == 0,
    decreases row.len(),
{
    if row.len() > 0 {
        lemma_row_count_absent(row.drop_last(), to);
    }
}

pub proof fn lemma_row_count_at(row: Seq<(usize, usize)>, n: int, to: usize, k: int)
    requires
        row_wf(row, n),
        0 <= k < row.len(),
        row[k].0 == to,
    ensures
        row_count(row, to) == row[k].1,
    decreases row.len(),
{
    let last = row.len() - 1;
    if k == last {
        assert forall|j: int| 0 <= j < row.drop_last().len() implies (#[trigger] row.drop_last()[j]).0 != to by {
            assert(row.drop_last()[j] == row[j]);
        }
        lemma_row_count_absent(row.drop_last(), to);
    } else {
        assert(row[last].0 != to);
        assert(row_wf(row.drop_last(), n));
        lemma_row_count_at(row.drop_last(), n, to, k);
    }
}

pub proof fn lemma_row_count_update(row: Seq<(usize, usize)>, to: usize, k: int, entry: (usize, usize))
    requires
        0 <= k < row.len(),
    ensures
        row_count(row.update(k, entry), to) == row_count(row, to) - (if row[k].0 == to { row[k].1 as int } else { 0 })
            + (if entry.0 == to { entry.1 as int } else { 0 }),
    decreases row.len(),
{
    if k < row.len() - 1 {
        lemma_row_count_update(row.drop_last(), to, k, entry);
        assert(row.update(k, entry).drop_last() =~= row.drop_last().update(k, entry));
    } else {
        assert(row.update(k, entry).drop_last() =~= row.drop_last());
    }
}

pub proof fn lemma_row_count_push(row: Seq<(usize, usize)>, to: usize, entry: (usize, usize))
    ensures
        row_count(row.push(entry), to) == row_count(row, to) + (if entry.0 == to { entry.1 as int } else { 0 }),
{
    assert(row.push(entry).drop_last() =~= row);
}

/// The nodes of a route that are real nodes (below `n`), in order.
pub open spec fn route_elements(l: Seq<usize>, n: int) -> Seq<usize>
    decreases l.len(),
{
    if l.len() == 0 {
        Seq::empty()
    } else {
        route_elements(l.drop_last(), n) + (if l.last() < n { seq![l.last()] } else { Seq::empty() })
    }
}

/// The number of route entries that are not real nodes.
pub open spec fn route_invalid(l: Seq<usize>, n: int) -> int
    decreases l.len(),
{
    if l.len() == 0 {
        0
    } else {
        route_invalid(l.drop_last(), n) + (if l.last() < n { 0int } else { 1int })
    }
}

/// The number of real nodes of the route of `owner` whose expected owner is another one.
pub open spec fn route_violations(l: Seq<usize>, n: int, expected: Option<Seq<Option<usize>>>, owner: usize) -> int
    decreases l.len(),
{
    if l.len() == 0 {
        0
    } else {
        route_violations(l.drop_last(), n, expected, owner) + (if l.last() < n && (match expected {
            Some(e) => e[l.last() as int] is Some && e[l.last() as int]->0 != owner,
            None => false,
        }) { 1int } else { 0int })
    }
}

/// The arcs of a route: each pair of neighbouring entries that are both real nodes.
pub open spec fn route_edges(l: Seq<usize>, n: int) -> Seq<Edge>
    decreases l.len(),
{
    if l.len() < 2 {
        Seq::empty()
    } else {
        route_edges(l.drop_last(), n) + (if l[l.len() - 2] < n && l.last() < n {
            seq![(l[l.len() - 2], l.last())]
        } else {
            Seq::empty()
        })
    }
}

/// What one owner's route contributes to the precedence state.
#[derive(Debug)]
pub struct OwnerRouteSnapshot {
    pub elements: Vec<usize>,
    pub edges: Vec<Edge>,
    pub invalid_count: usize,
    pub violation_count: usize,
}

impl Default for OwnerRouteSnapshot {
    fn default() -> (r: Self)
        ensures
            r.elements@.len() == 0,
            r.edges@.len() == 0,
            r.invalid_count == 0,
            r.violation_count == 0,
    {
        OwnerRouteSnapshot { elements: Vec::new(), edges: Vec::new(), invalid_count: 0, violation_count: 0 }
    }
}

/// The snapshot is of real nodes and arcs between them.
pub open spec fn snapshot_wf(s: &OwnerRouteSnapshot, n: int) -> bool {
    &&& forall|k: int| 0 <= k < s.elements@.len() ==> #[trigger] s.elements@[k] < n
    &&& forall|k: int| 0 <= k < s.edges@.len() ==> (#[trigger] s.edges@[k]).0 < n && s.edges@[k].1 < n
}

} // verus!

verus! {

/// The number of entries of `s` not equal to `id`.
pub open spec fn unmarked(s: Seq<usize>, id: usize) -> int
    decreases s.len(),
{
    if s.len() == 0 {
        0
    } else {
        unmarked(s.drop_last(), id) + (if s.last() != id { 1int } else { 0int })
    }
}

pub proof fn lemma_unmarked_mark(s: Seq<usize>, id: usize, i: int)
    requires
        0 <= i < s.len(),
        s[i] != id,
    ensures
        unmarked(s.update(i, id), id) == unmarked(s, id) - 1,
    decreases s.len(),
{
    if i < s.len() - 1 {
        lemma_unmarked_mark(s.drop_last(), id, i);
        assert(s.update(i, id).drop_last() =~= s.drop_last().update(i, id));
    } else {
        assert(s.update(i, id).drop_last() =~= s.drop_last());
    }
}

pub proof fn lemma_unmarked_nonneg(s: Seq<usize>, id: usize)
    ensures
        0 <= unmarked(s, id) <= s.len(),
    decreases s.len(),
{
    if s.len() > 0 {
        lemma_unmarked_nonneg(s.drop_last(), id);
    }
}

/// The number of positive entries of `s`.
pub open spec fn positive_count(s: Seq<usize>) -> int
    decreases s.len(),
{
    if s.len() == 0 {
        0
    } else {
        positive_count(s.drop_last()) + (if s.last() > 0 { 1int } else { 0int })
    }
}

pub proof fn lemma_positive_count_update(s: Seq<usize>, i: int, v: usize)
    requires
        0 <= i < s.len(),
    ensures
        positive_count(s.update(i, v)) == positive_count(s) - (if s[i] > 0 { 1int } else { 0int }) + (if v > 0 { 1int } else { 0int }),
    decreases s.len(),
{
    if i < s.len() - 1 {
        lemma_positive_count_update(s.drop_last(), i, v);
        assert(s.update(i, v).drop_last() =~= s.drop_last().update(i, v));
    } else {
        assert(s.update(i, v).drop_last() =~= s.drop_last());
    }
}

pub proof fn lemma_positive_count_bounds(s: Seq<usize>)
    ensures
        0 <= positive_count(s) <= s.len(),
    decreases s.len(),
{
    if s.len() > 0 {
        lemma_positive_count_bounds(s.drop_last());
    }
}

/// The pin penalty accumulated over the first `k` nodes: each pinned node adds the distance of
/// its start from its pin, everything saturating at `i64::MAX`.
pub open spec fn pin_total(earliest: Seq<i64>, pin: Seq<Option<i64>>, k: int) -> i64
    decreases k,
{
    if k <= 0 {
        0
    } else {
        let prev = pin_total(earliest, pin, k - 1);
        match pin[k - 1] {
            Some(t) => clamp_i64(prev + clamp_i64(
                if earliest[k - 1] >= t { earliest[k - 1] - t } else { t - earliest[k - 1] },
            )),
            None => prev,
        }
    }
}

/// The incrementally maintained precedence schedule of a list variable: the multigraph of
/// fixed and route arcs, the owner route snapshots it was built from, the structural penalty
/// totals, and the earliest starts and finishes of every node.
#[derive(Debug)]
pub struct ListPrecedenceState {
    pub node_count: usize,
    pub durations: Vec<i64>,
    pub edge_counts: Vec<Vec<(usize, usize)>>,
    pub successors: Vec<Vec<usize>>,
    pub predecessors: Vec<Vec<usize>>,
    pub assigned_counts: Vec<usize>,
    pub owner_elements: Vec<Vec<usize>>,
    pub owner_edges: Vec<Vec<Edge>>,
    pub owner_invalid_counts: Vec<usize>,
    pub owner_violation_counts: Vec<usize>,
    pub invalid_fixed_edges: usize,
    pub owner_invalid_total: u128,
    pub owner_violation_total: u128,
    pub assignment_penalty: u128,
    pub cycle_penalty: usize,
    pub cycle_added_edges: Vec<Edge>,
    pub earliest: Vec<i64>,
    pub finishes: Vec<i64>,
    pub score: HardSoftScore,
    pub hard_penalty: u128,
    pub makespan: i64,
    pub release: Vec<i64>,
    pub pin: Vec<Option<i64>>,
    pub disruption_baseline: Vec<Option<i64>>,
}

/// A vector of `n` copies of `value`.
fn filled<T: Copy>(value: T, n: usize) -> (r: Vec<T>)
    ensures
        r@.len() == n,
        forall|k: int| 0 <= k < n ==> #[trigger] r@[k] == value,
{
    let mut r: Vec<T> = Vec::new();
    let mut i: usize = 0;
    while i < n
        invariant
            i <= n,
            r@.len() == i,
            forall|k: int| 0 <= k < i ==> #[trigger] r@[k] == value,
        decreases n - i,
    {
        r.push(value);
        i = i + 1;
    }
    r
}

/// A vector of `n` empty vectors.
fn empty_rows<T>(n: usize) -> (r: Vec<Vec<T>>)
    ensures
        r@.len() == n,
        forall|k: int| 0 <= k < n ==> (#[trigger] r@[k])@.len() == 0,
{
    let mut r: Vec<Vec<T>> = Vec::new();
    let mut i: usize = 0;
    while i < n
        invariant
            i <= n,
            r@.len() == i,
            forall|k: int| 0 <= k < i ==> (#[trigger] r@[k])@.len() == 0,
        decreases n - i,
    {
        r.push(Vec::new());
        i = i + 1;
    }
    r
}

impl ListPrecedenceState {
    /// The structural invariant of the state.
    pub open spec fn wf(&self) -> bool {
        let n = self.node_count as int;
        let m = self.owner_elements@.len();
        &&& self.durations@.len() == n
        &&& self.assigned_counts@.len() == n
        &&& self.earliest@.len() == n
        &&& self.finishes@.len() == n
        &&& self.release@.len() == n
        &&& self.pin@.len() == n
        &&& self.disruption_baseline@.len() == n
        &&& self.owner_edges@.len() == m
        &&& self.owner_invalid_counts@.len() == m
        &&& self.owner_violation_counts@.len() == m
        &&& forall|o: int, k: int| 0 <= o < m && 0 <= k < self.owner_elements@[o]@.len() ==> #[trigger] self.owner_elements@[o]@[k] < n
        &&& forall|o: int, k: int| 0 <= o < m && 0 <= k < self.owner_edges@[o]@.len() ==> (#[trigger] self.owner_edges@[o]@[k]).0 < n
            && self.owner_edges@[o]@[k].1 < n
        &&& forall|k: int| 0 <= k < self.cycle_added_edges@.len() ==> (#[trigger] self.cycle_added_edges@[k]).0 < n
            && self.cycle_added_edges@[k].1 < n
        &&& self.owner_invalid_total == sum_counts(self.owner_invalid_counts@)
        &&& self.owner_violation_total == sum_counts(self.owner_violation_counts@)
        &&& self.assignment_penalty == penalty_sum(self.assigned_counts@)
        &&& self.graph_wf()
    }

    /// The successor and predecessor lists hold, without repetition, exactly the arcs whose
    /// count is positive.
    pub open spec fn graph_wf(&self) -> bool {
        let n = self.node_count as int;
        &&& self.edge_counts@.len() == n
        &&& self.successors@.len() == n
        &&& self.predecessors@.len() == n
        &&& forall|u: int| 0 <= u < n ==> row_wf(#[trigger] self.edge_counts@[u]@, n)
        &&& forall|u: int| 0 <= u < n ==> (#[trigger] self.successors@[u])@.no_duplicates()
        &&& forall|v: int| 0 <= v < n ==> (#[trigger] self.predecessors@[v])@.no_duplicates()
        &&& forall|u: int, k: int| 0 <= u < n && 0 <= k < self.successors@[u]@.len() ==> #[trigger] self.successors@[u]@[k] < n
        &&& forall|v: int, k: int| 0 <= v < n && 0 <= k < self.predecessors@[v]@.len() ==> #[trigger] self.predecessors@[v]@[k] < n
        &&& forall|u: usize, v: usize| #![trigger self.successors@[u as int]@.contains(v)]
            u < n ==> (self.successors@[u as int]@.contains(v) <==> self.arc(u, v))
        &&& forall|u: usize, v: usize| #![trigger self.predecessors@[v as int]@.contains(u)]
            v < n ==> (self.predecessors@[v as int]@.contains(u) <==> self.arc(u, v))
    }

    /// The number of parallel arcs `u -> v`.
    pub open spec fn arc_count(&self, u: usize, v: usize) -> int {
        if u < self.node_count { row_count(self.edge_counts@[u as int]@, v) } else { 0 }
    }

    /// There is at least one arc `u -> v` between real nodes.
    pub open spec fn arc(&self, u: usize, v: usize) -> bool {
        u < self.node_count && v < self.node_count && self.arc_count(u, v) > 0
    }
}

} // verus!

verus! {

/// Heads of a well-formed row are present exactly where the count is positive.
pub proof fn lemma_row_present(row: Seq<(usize, usize)>, n: int, to: usize)
    requires
        row_wf(row, n),
    ensures
        row_count(row, to) >= 0,
        row_count(row, to) > 0 <==> exists|k: int| 0 <= k < row.len() && (#[trigger] row[k]).0 == to,
{
    if exists|k: int| 0 <= k < row.len() && (#[trigger] row[k]).0 == to {
        let k = choose|k: int| 0 <= k < row.len() && (#[trigger] row[k]).0 == to;
        lemma_row_count_at(row, n, to, k);
    } else {
        lemma_row_count_absent(row, to);
    }
}

/// Removing entry `pos` of a row by moving the last entry into its place removes exactly that
/// entry's count.
pub proof fn lemma_row_count_swap_remove(row: Seq<(usize, usize)>, pos: int, to: usize)
    requires
        0 <= pos < row.len(),
    ensures
        row_count(row.update(pos, row.last()).drop_last(), to) == row_count(row, to)
            - (if row[pos].0 == to { row[pos].1 as int } else { 0 }),
{
    let x = row.update(pos, row.last());
    lemma_row_count_update(row, to, pos, row.last());
    assert(x.last() == row.last());
    assert(x.drop_last().push(x.last()) =~= x);
    lemma_row_count_push(x.drop_last(), to, x.last());
}

/// Moving the last element into position `pos` and dropping the last one keeps a sequence free
/// of repetitions and removes exactly the element at `pos`.
pub proof fn lemma_swap_remove_elements<T>(s: Seq<T>, pos: int)
    requires
        0 <= pos < s.len(),
    ensures
        s.no_duplicates() ==> s.update(pos, s.last()).drop_last().no_duplicates(),
        s.no_duplicates() ==> forall|y: T| #[trigger] s.update(pos, s.last()).drop_last().contains(y)
            <==> (s.contains(y) && y != s[pos]),
        forall|k: int| 0 <= k < s.len() - 1 ==> #[trigger] s.update(pos, s.last()).drop_last()[k]
            == (if k == pos { s.last() } else { s[k] }),
{
    let r = s.update(pos, s.last()).drop_last();
    let last = s.len() - 1;
    assert forall|k: int| 0 <= k < s.len() - 1 implies #[trigger] r[k] == (if k == pos { s.last() } else { s[k] }) by {}
    if s.no_duplicates() {
        assert forall|i: int, j: int| 0 <= i < r.len() && 0 <= j < r.len() && i != j implies r[i] != r[j] by {
            let si = if i == pos { last } else { i };
            let sj = if j == pos { last } else { j };
            assert(r[i] == s[si]);
            assert(r[j] == s[sj]);
        }
        assert forall|y: T| #[trigger] r.contains(y) <==> (s.contains(y) && y != s[pos]) by {
            if r.contains(y) {
                let k = choose|k: int| 0 <= k < r.len() && r[k] == y;
                let sk = if k == pos { last } else { k };
                assert(s[sk] == y);
                assert(sk != pos);
            }
            if s.contains(y) && y != s[pos] {
                let k = choose|k: int| 0 <= k < s.len() && s[k] == y;
                assert(k != pos);
                if k == last {
                    assert(r[pos] == y);
                } else {
                    assert(r[k] == y);
                }
            }
        }
    }
}

/// Swap-removing an entry of a well-formed row keeps it well formed.
pub proof fn lemma_row_wf_swap_remove(row: Seq<(usize, usize)>, n: int, pos: int)
    requires
        row_wf(row, n),
        0 <= pos < row.len(),
    ensures
        row_wf(row.update(pos, row.last()).drop_last(), n),
{
    let r = row.update(pos, row.last()).drop_last();
    let last = row.len() - 1;
    lemma_swap_remove_elements(row, pos);
    assert forall|k1: int, k2: int| 0 <= k1 < r.len() && 0 <= k2 < r.len() && k1 != k2 implies (#[trigger] r[k1]).0 != (#[trigger] r[k2]).0 by {
        let s1 = if k1 == pos { last } else { k1 };
        let s2 = if k2 == pos { last } else { k2 };
        assert(r[k1] == row[s1]);
        assert(r[k2] == row[s2]);
    }
    assert forall|k: int| 0 <= k < r.len() implies (#[trigger] r[k]).0 < n && r[k].1 > 0 by {
        let s1 = if k == pos { last } else { k };
        assert(r[k] == row[s1]);
    }
}

/// The position of the entry for `to` in a row, if there is one.
fn row_position(row: &Vec<(usize, usize)>, to: usize) -> (r: Option<usize>)
    ensures
        match r {
            Some(k) => k < row@.len() && row@[k as int].0 == to && forall|j: int| 0 <= j < k ==> (#[trigger] row@[j]).0 != to,
            None => forall|j: int| 0 <= j < row@.len() ==> (#[trigger] row@[j]).0 != to,
        },
{
    let mut k: usize = 0;
    while k < row.len()
        invariant
            k <= row@.len(),
            forall|j: int| 0 <= j < k ==> (#[trigger] row@[j]).0 != to,
        decreases row@.len() - k,
    {
        if row[k].0 == to {
            return Some(k);
        }
        k = k + 1;
    }
    None
}

impl ListPrecedenceState {
    /// Whether the graph holds at least one arc `edge.0 -> edge.1`.
    pub fn contains_edge(&self, edge: Edge) -> (r: bool)
        requires
            self.graph_wf(),
            edge.0 < self.node_count,
        ensures
            r == (self.arc_count(edge.0, edge.1) > 0),
    {
        let ghost row = self.edge_counts@[edge.0 as int]@;
        proof {
            lemma_row_present(row, self.node_count as int, edge.1);
        }
        let found = row_position(&self.edge_counts[edge.0], edge.1);
        match found {
            Some(k) => {
                assert(row[k as int].1 > 0);
                true
            },
            None => false,
        }
    }
}

} // verus!

verus! {

/// Appends `x` to row `i` of a table.
fn push_to_row<T>(table: &mut Vec<Vec<T>>, i: usize, x: T)
    requires
        i < old(table)@.len(),
    ensures
        final(table)@.len() == old(table)@.len(),
        final(table)@[i as int]@ == old(table)@[i as int]@.push(x),
        forall|j: int| 0 <= j < old(table)@.len() && j != i ==> #[trigger] final(table)@[j] == old(table)@[j],
{
    let mut row: Vec<T> = Vec::new();
    std::mem::swap(&mut row, &mut table[i]);
    row.push(x);
    table[i] = row;
}

/// Removes one occurrence of `x` from row `i` of a table of nodes.
fn remove_from_row(table: &mut Vec<Vec<usize>>, i: usize, x: usize)
    requires
        i < old(table)@.len(),
    ensures
        final(table)@.len() == old(table)@.len(),
        !old(table)@[i as int]@.contains(x) ==> final(table)@[i as int]@ == old(table)@[i as int]@,
        old(table)@[i as int]@.contains(x) ==> exists|pos: int|
            0 <= pos < old(table)@[i as int]@.len() && old(table)@[i as int]@[pos] == x
                && final(table)@[i as int]@ == old(table)@[i as int]@.update(pos, old(table)@[i as int]@.last()).drop_last(),
        forall|j: int| 0 <= j < old(table)@.len() && j != i ==> #[trigger] final(table)@[j] == old(table)@[j],
{
    let mut row: Vec<usize> = Vec::new();
    std::mem::swap(&mut row, &mut table[i]);
    remove_node(&mut row, x);
    table[i] = row;
}

impl ListPrecedenceState {
    /// Every field but the arc multigraph is the same in both states.
    pub open spec fn same_but_graph(&self, other: &Self) -> bool {
        &&& self.node_count == other.node_count
        &&& self.durations == other.durations
        &&& self.assigned_counts == other.assigned_counts
        &&& self.owner_elements == other.owner_elements
        &&& self.owner_edges == other.owner_edges
        &&& self.owner_invalid_counts == other.owner_invalid_counts
        &&& self.owner_violation_counts == other.owner_violation_counts
        &&& self.invalid_fixed_edges == other.invalid_fixed_edges
        &&& self.owner_invalid_total == other.owner_invalid_total
        &&& self.owner_violation_total == other.owner_violation_total
        &&& self.assignment_penalty == other.assignment_penalty
        &&& self.cycle_penalty == other.cycle_penalty
        &&& self.cycle_added_edges == other.cycle_added_edges
        &&& self.earliest == other.earliest
        &&& self.finishes == other.finishes
        &&& self.score == other.score
        &&& self.hard_penalty == other.hard_penalty
        &&& self.makespan == other.makespan
        &&& self.release == other.release
        &&& self.pin == other.pin
        &&& self.disruption_baseline == other.disruption_baseline
    }

    /// Adds one arc `edge.0 -> edge.1`; returns whether it is the first such arc.
    pub fn add_edge(&mut self, edge: Edge) -> (r: bool)
        requires
            old(self).graph_wf(),
            edge.0 < old(self).node_count,
            edge.1 < old(self).node_count,
        ensures
            final(self).graph_wf(),
            final(self).same_but_graph(old(self)),
            r == (old(self).arc_count(edge.0, edge.1) == 0),
            final(self).arc_count(edge.0, edge.1) == (if old(self).arc_count(edge.0, edge.1) == usize::MAX {
                usize::MAX as int
            } else {
                old(self).arc_count(edge.0, edge.1) + 1
            }),
            forall|u: usize, v: usize| (u, v) != edge ==> #[trigger] final(self).arc_count(u, v) == old(self).arc_count(u, v),
    {
        let (u, v) = edge;
        let ghost n = self.node_count as int;
        let ghost row = self.edge_counts@[u as int]@;
        proof {
            lemma_row_present(row, n, v);
        }
        let found = row_position(&self.edge_counts[u], v);
        let mut entries: Vec<(usize, usize)> = Vec::new();
        std::mem::swap(&mut entries, &mut self.edge_counts[u]);
        match found {
            Some(k) => {
                let c = entries[k].1;
                let c2 = if c == usize::MAX { c } else { c + 1 };
                entries.set(k, (v, c2));
                proof {
                    lemma_row_count_at(row, n, v, k as int);
                    assert forall|w: usize| #[trigger] row_count(entries@, w) == row_count(row, w) + (if w == v { c2 - c } else { 0 }) by {
                        lemma_row_count_update(row, w, k as int, (v, c2));
                    }
                    assert forall|k1: int, k2: int| 0 <= k1 < entries@.len() && 0 <= k2 < entries@.len() && k1 != k2 implies
                        (#[trigger] entries@[k1]).0 != (#[trigger] entries@[k2]).0 by {
                        assert(entries@[k1].0 == row[k1].0);
                        assert(entries@[k2].0 == row[k2].0);
                    }
                    assert(row_wf(entries@, n));
                }
                self.edge_counts[u] = entries;
                proof {
                    assert forall|a: usize, b: usize| #[trigger] self.arc(a, b) == old(self).arc(a, b) by {
                        if a == u && a < n {
                            assert(row_count(entries@, b) == row_count(row, b) + (if b == v { c2 - c } else { 0 }));
                        }
                    }
                }
                false
            },
            None => {
                entries.push((v, 1));
                proof {
                    lemma_row_count_absent(row, v);
                    assert forall|w: usize| #[trigger] row_count(entries@, w) == row_count(row, w) + (if w == v { 1int } else { 0 }) by {
                        lemma_row_count_push(row, w, (v, 1));
                    }
                    assert forall|k1: int, k2: int| 0 <= k1 < entries@.len() && 0 <= k2 < entries@.len() && k1 != k2 implies
                        (#[trigger] entries@[k1]).0 != (#[trigger] entries@[k2]).0 by {
                        if k1 < row.len() {
                            assert(entries@[k1] == row[k1]);
                        }
                        if k2 < row.len() {
                            assert(entries@[k2] == row[k2]);
                        }
                    }
                    assert forall|k: int| 0 <= k < entries@.len() implies (#[trigger] entries@[k]).0 < n && entries@[k].1 > 0 by {
                        if k < row.len() {
                            assert(entries@[k] == row[k]);
                        }
                    }
                    assert(!old(self).successors@[u as int]@.contains(v));
                    assert(!old(self).predecessors@[v as int]@.contains(u));
                }
                self.edge_counts[u] = entries;
                push_to_row(&mut self.successors, u, v);
                push_to_row(&mut self.predecessors, v, u);
                proof {
                    assert forall|a: usize, b: usize| #[trigger] self.arc(a, b) == (old(self).arc(a, b) || (a == u && b == v)) by {
                        if a == u && a < n {
                            assert(row_count(entries@, b) == row_count(row, b) + (if b == v { 1int } else { 0 }));
                        }
                    }
                    let succ = self.successors@[u as int]@;
                    let pred = self.predecessors@[v as int]@;
                    assert(succ.no_duplicates()) by {
                        let s0 = old(self).successors@[u as int]@;
                        assert forall|i: int, j: int| 0 <= i < succ.len() && 0 <= j < succ.len() && i != j implies succ[i] != succ[j] by {
                            if i == s0.len() {
                                assert(succ[j] == s0[j]);
                                assert(!s0.contains(v));
                            } else if j == s0.len() {
                                assert(succ[i] == s0[i]);
                                assert(!s0.contains(v));
                            }
                        }
                    }
                    assert(pred.no_duplicates()) by {
                        let p0 = old(self).predecessors@[v as int]@;
                        assert forall|i: int, j: int| 0 <= i < pred.len() && 0 <= j < pred.len() && i != j implies pred[i] != pred[j] by {
                            if i == p0.len() {
                                assert(pred[j] == p0[j]);
                                assert(!p0.contains(u));
                            } else if j == p0.len() {
                                assert(pred[i] == p0[i]);
                                assert(!p0.contains(u));
                            }
                        }
                    }
                    assert forall|a: usize, b: usize| a < n implies (#[trigger] self.successors@[a as int]@.contains(b) <==> self.arc(a, b)) by {
                        if a == u {
                            let s0 = old(self).successors@[u as int]@;
                            assert(self.successors@[a as int]@ == s0.push(v));
                            if s0.push(v).contains(b) && b != v {
                                let k = choose|k: int| 0 <= k < s0.push(v).len() && s0.push(v)[k] == b;
                                assert(s0[k] == b);
                            }
                            if s0.contains(b) {
                                let k = choose|k: int| 0 <= k < s0.len() && s0[k] == b;
                                assert(s0.push(v)[k] == b);
                            }
                            assert(s0.push(v)[s0.len() as int] == v);
                        }
                    }
                    assert forall|a: usize, b: usize| b < n implies (#[trigger] self.predecessors@[b as int]@.contains(a) <==> self.arc(a, b)) by {
                        if b == v {
                            let p0 = old(self).predecessors@[v as int]@;
                            assert(self.predecessors@[b as int]@ == p0.push(u));
                            if p0.push(u).contains(a) && a != u {
                                let k = choose|k: int| 0 <= k < p0.push(u).len() && p0.push(u)[k] == a;
                                assert(p0[k] == a);
                            }
                            if p0.contains(a) {
                                let k = choose|k: int| 0 <= k < p0.len() && p0[k] == a;
                                assert(p0.push(u)[k] == a);
                            }
                            assert(p0.push(u)[p0.len() as int] == u);
                        }
                    }
                    assert forall|a: int, k: int| 0 <= a < n && 0 <= k < self.successors@[a]@.len() implies #[trigger] self.successors@[a]@[k] < n by {
                        if a == u && k < old(self).successors@[a]@.len() {
                            assert(self.successors@[a]@[k] == old(self).successors@[a]@[k]);
                        }
                    }
                    assert forall|a: int, k: int| 0 <= a < n && 0 <= k < self.predecessors@[a]@.len() implies #[trigger] self.predecessors@[a]@[k] < n by {
                        if a == v && k < old(self).predecessors@[a]@.len() {
                            assert(self.predecessors@[a]@[k] == old(self).predecessors@[a]@[k]);
                        }
                    }
                }
                true
            },
        }
    }
}

} // verus!

verus! {

impl ListPrecedenceState {
    /// Removes one arc `edge.0 -> edge.1`, if there is one; returns whether it was the last.
    pub fn remove_edge(&mut self, edge: Edge) -> (r: bool)
        requires
            old(self).graph_wf(),
            edge.0 < old(self).node_count,
            edge.1 < old(self).node_count,
        ensures
            final(self).graph_wf(),
            final(self).same_but_graph(old(self)),
            r == (old(self).arc_count(edge.0, edge.1) == 1),
            final(self).arc_count(edge.0, edge.1) == (if old(self).arc_count(edge.0, edge.1) == 0 {
                0
            } else {
                old(self).arc_count(edge.0, edge.1) - 1
            }),
            forall|u: usize, v: usize| (u, v) != edge ==> #[trigger] final(self).arc_count(u, v) == old(self).arc_count(u, v),
    {
        let (u, v) = edge;
        let ghost n = self.node_count as int;
        let ghost row = self.edge_counts@[u as int]@;
        proof {
            lemma_row_present(row, n, v);
        }
        let found = row_position(&self.edge_counts[u], v);
        let k = match found {
            Some(k) => k,
            None => {
                proof {
                    lemma_row_count_absent(row, v);
                }
                return false;
            },
        };
        proof {
            lemma_row_count_at(row, n, v, k as int);
        }
        let mut entries: Vec<(usize, usize)> = Vec::new();
        std::mem::swap(&mut entries, &mut self.edge_counts[u]);
        let c = entries[k].1;
        if c > 1 {
            entries.set(k, (v, c - 1));
            proof {
                assert forall|w: usize| #[trigger] row_count(entries@, w) == row_count(row, w) - (if w == v { 1int } else { 0 }) by {
                    lemma_row_count_update(row, w, k as int, (v, (c - 1) as usize));
                }
                assert forall|k1: int, k2: int| 0 <= k1 < entries@.len() && 0 <= k2 < entries@.len() && k1 != k2 implies
                    (#[trigger] entries@[k1]).0 != (#[trigger] entries@[k2]).0 by {
                    assert(entries@[k1].0 == row[k1].0);
                    assert(entries@[k2].0 == row[k2].0);
                }
                assert(row_wf(entries@, n));
            }
            self.edge_counts[u] = entries;
            proof {
                assert forall|a: usize, b: usize| #[trigger] self.arc(a, b) == old(self).arc(a, b) by {
                    if a == u && a < n {
                        assert(row_count(entries@, b) == row_count(row, b) - (if b == v { 1int } else { 0 }));
                    }
                }
            }
            false
        } else {
            entries.swap_remove(k);
            proof {
                assert forall|w: usize| #[trigger] row_count(entries@, w) == row_count(row, w) - (if w == v { 1int } else { 0 }) by {
                    lemma_row_count_swap_remove(row, k as int, w);
                }
                lemma_row_wf_swap_remove(row, n, k as int);
                assert(old(self).successors@[u as int]@.contains(v));
                assert(old(self).predecessors@[v as int]@.contains(u));
            }
            self.edge_counts[u] = entries;
            remove_from_row(&mut self.successors, u, v);
            remove_from_row(&mut self.predecessors, v, u);
            proof {
                assert forall|a: usize, b: usize| #[trigger] self.arc(a, b) == (old(self).arc(a, b) && !(a == u && b == v)) by {
                    if a == u && a < n {
                        assert(row_count(entries@, b) == row_count(row, b) - (if b == v { 1int } else { 0 }));
                    }
                }
                let s0 = old(self).successors@[u as int]@;
                let p0 = old(self).predecessors@[v as int]@;
                let spos = choose|pos: int| 0 <= pos < s0.len() && s0[pos] == v
                    && self.successors@[u as int]@ == s0.update(pos, s0.last()).drop_last();
                let ppos = choose|pos: int| 0 <= pos < p0.len() && p0[pos] == u
                    && self.predecessors@[v as int]@ == p0.update(pos, p0.last()).drop_last();
                lemma_swap_remove_elements(s0, spos);
                lemma_swap_remove_elements(p0, ppos);
                assert forall|a: usize, b: usize| a < n implies (#[trigger] self.successors@[a as int]@.contains(b) <==> self.arc(a, b)) by {
                    if a == u {
                        assert(s0.update(spos, s0.last()).drop_last().contains(b) <==> (s0.contains(b) && b != v));
                    }
                }
                assert forall|a: usize, b: usize| b < n implies (#[trigger] self.predecessors@[b as int]@.contains(a) <==> self.arc(a, b)) by {
                    if b == v {
                        assert(p0.update(ppos, p0.last()).drop_last().contains(a) <==> (p0.contains(a) && a != u));
                    }
                }
                assert forall|a: int, j: int| 0 <= a < n && 0 <= j < self.successors@[a]@.len() implies #[trigger] self.successors@[a]@[j] < n by {
                    if a == u {
                        let jj = if j == spos { s0.len() - 1 } else { j };
                        assert(self.successors@[a]@[j] == s0[jj]);
                    }
                }
                assert forall|a: int, j: int| 0 <= a < n && 0 <= j < self.predecessors@[a]@.len() implies #[trigger] self.predecessors@[a]@[j] < n by {
                    if a == v {
                        let jj = if j == ppos { p0.len() - 1 } else { j };
                        assert(self.predecessors@[a]@[j] == p0[jj]);
                    }
                }
            }
            true
        }
    }
}

} // verus!

verus! {

/// The number of occurrences of `x` in `s`.
pub open spec fn occ<T>(s: Seq<T>, x: T) -> nat
    decreases s.len(),
{
    if s.len() == 0 {
        0
    } else {
        occ(s.drop_last(), x) + (if s.last() == x { 1nat } else { 0nat })
    }
}

pub proof fn lemma_occ_contains<T>(s: Seq<T>, x: T)
    ensures
        occ(s, x) <= s.len(),
        (occ(s, x) > 0) == s.contains(x),
    decreases s.len(),
{
    if s.len() > 0 {
        lemma_occ_contains(s.drop_last(), x);
        if s.drop_last().contains(x) {
            let k = choose|k: int| 0 <= k < s.drop_last().len() && s.drop_last()[k] == x;
            assert(s[k] == x);
        }
        if s.contains(x) && s.last() != x {
            let k = choose|k: int| 0 <= k < s.len() && s[k] == x;
            assert(s.drop_last()[k] == x);
        }
    }
}

pub proof fn lemma_occ_prefix<T>(s: Seq<T>, i: int, x: T)
    requires
        0 <= i < s.len(),
    ensures
        occ(s.subrange(0, i + 1), x) == occ(s.subrange(0, i), x) + (if s[i] == x { 1nat } else { 0nat }),
{
    assert(s.subrange(0, i + 1).drop_last() =~= s.subrange(0, i));
}

pub proof fn lemma_prefix_contains<T>(s: Seq<T>, i: int, x: T)
    requires
        0 <= i < s.len(),
    ensures
        s.subrange(0, i + 1).contains(x) == (s.subrange(0, i).contains(x) || s[i] == x),
{
    let a = s.subrange(0, i + 1);
    let b = s.subrange(0, i);
    if b.contains(x) {
        let k = choose|k: int| 0 <= k < b.len() && b[k] == x;
        assert(a[k] == x);
    }
    if s[i] == x {
        assert(a[i] == x);
    }
    if a.contains(x) && s[i] != x {
        let k = choose|k: int| 0 <= k < a.len() && a[k] == x;
        assert(b[k] == x);
    }
}

/// The number of occurrences of `x` in `s`.
fn count_node(s: &Vec<usize>, x: usize) -> (r: usize)
    ensures
        r == occ(s@, x),
{
    let mut c: usize = 0;
    let mut i: usize = 0;
    while i < s.len()
        invariant
            i <= s@.len(),
            c == occ(s@.subrange(0, i as int), x),
            c <= i,
        decreases s@.len() - i,
    {
        proof {
            lemma_occ_prefix(s@, i as int, x);
        }
        if s[i] == x {
            c = c + 1;
        }
        i = i + 1;
    }
    assert(s@.subrange(0, i as int) =~= s@);
    c
}

/// The number of occurrences of `x` in `s`.
fn count_edge(s: &Vec<Edge>, x: Edge) -> (r: usize)
    ensures
        r == occ(s@, x),
{
    let mut c: usize = 0;
    let mut i: usize = 0;
    while i < s.len()
        invariant
            i <= s@.len(),
            c == occ(s@.subrange(0, i as int), x),
            c <= i,
        decreases s@.len() - i,
    {
        proof {
            lemma_occ_prefix(s@, i as int, x);
        }
        if s[i].0 == x.0 && s[i].1 == x.1 {
            c = c + 1;
        }
        i = i + 1;
    }
    assert(s@.subrange(0, i as int) =~= s@);
    c
}

/// Whether `x` occurs among the first `end` entries of `s`.
fn node_in_prefix(s: &Vec<usize>, end: usize, x: usize) -> (r: bool)
    requires
        end <= s@.len(),
    ensures
        r == s@.subrange(0, end as int).contains(x),
{
    let mut i: usize = 0;
    while i < end
        invariant
            i <= end <= s@.len(),
            !s@.subrange(0, i as int).contains(x),
        decreases end - i,
    {
        proof {
            lemma_prefix_contains(s@, i as int, x);
        }
        if s[i] == x {
            return true;
        }
        i = i + 1;
    }
    false
}

/// Whether `x` occurs among the first `end` entries of `s`.
fn edge_in_prefix(s: &Vec<Edge>, end: usize, x: Edge) -> (r: bool)
    requires
        end <= s@.len(),
    ensures
        r == s@.subrange(0, end as int).contains(x),
{
    let mut i: usize = 0;
    while i < end
        invariant
            i <= end <= s@.len(),
            !s@.subrange(0, i as int).contains(x),
        decreases end - i,
    {
        proof {
            lemma_prefix_contains(s@, i as int, x);
        }
        if s[i].0 == x.0 && s[i].1 == x.1 {
            return true;
        }
        i = i + 1;
    }
    false
}

} // verus!

verus! {

pub proof fn lemma_penalty_sum_zeros(s: Seq<usize>)
    requires
        forall|k: int| 0 <= k < s.len() ==> s[k] == 0,
    ensures
        penalty_sum(s) == s.len(),
    decreases s.len(),
{
    if s.len() > 0 {
        lemma_penalty_sum_zeros(s.drop_last());
    }
}

pub proof fn lemma_sum_counts_zeros(s: Seq<usize>)
    requires
        forall|k: int| 0 <= k < s.len() ==> s[k] == 0,
    ensures
        sum_counts(s) == 0,
    decreases s.len(),
{
    if s.len() > 0 {
        lemma_sum_counts_zeros(s.drop_last());
    }
}

/// The assignment count of a node after a route replacement that took `a` of its occurrences
/// away and put `b` back: unchanged when `a == b`, otherwise saturating arithmetic.
pub open spec fn updated_count(current: usize, a: nat, b: nat) -> usize {
    if a == b {
        current
    } else {
        let down: int = if current >= a { current - a } else { 0 };
        if down + b > usize::MAX { usize::MAX } else { (down + b) as usize }
    }
}

impl ListPrecedenceState {
    /// A state over `node_count` nodes with the given durations and `owner_count` empty routes:
    /// no arcs, every node unassigned.
    pub fn new(node_count: usize, owner_count: usize, durations: Vec<i64>) -> (s: Self)
        requires
            durations@.len() == node_count,
        ensures
            s.wf(),
            s.node_count == node_count,
            s.durations@ == durations@,
            s.owner_elements@.len() == owner_count,
            forall|o: int| 0 <= o < owner_count ==> (#[trigger] s.owner_elements@[o])@.len() == 0,
            forall|o: int| 0 <= o < owner_count ==> (#[trigger] s.owner_edges@[o])@.len() == 0,
            forall|o: int| 0 <= o < owner_count ==> #[trigger] s.owner_invalid_counts@[o] == 0,
            forall|o: int| 0 <= o < owner_count ==> #[trigger] s.owner_violation_counts@[o] == 0,
            forall|u: usize, v: usize| #[trigger] s.arc_count(u, v) == 0,
            forall|v: int| 0 <= v < node_count ==> #[trigger] s.assigned_counts@[v] == 0,
            s.invalid_fixed_edges == 0,
            s.owner_invalid_total == 0,
            s.owner_violation_total == 0,
            s.assignment_penalty == node_count,
            s.cycle_penalty == 0,
            s.cycle_added_edges@.len() == 0,
            forall|v: int| 0 <= v < node_count ==> #[trigger] s.earliest@[v] == 0,
            forall|v: int| 0 <= v < node_count ==> #[trigger] s.finishes@[v] == 0,
            forall|v: int| 0 <= v < node_count ==> #[trigger] s.release@[v] == 0,
            forall|v: int| 0 <= v < node_count ==> #[trigger] s.pin@[v] is None,
            forall|v: int| 0 <= v < node_count ==> #[trigger] s.disruption_baseline@[v] is None,
            s.score.hard == 0 && s.score.soft == 0,
            s.hard_penalty == 0,
            s.makespan == 0,
    {
        let s = ListPrecedenceState {
            node_count,
            durations,
            edge_counts: empty_rows(node_count),
            successors: empty_rows(node_count),
            predecessors: empty_rows(node_count),
            assigned_counts: filled(0usize, node_count),
            owner_elements: empty_rows(owner_count),
            owner_edges: empty_rows(owner_count),
            owner_invalid_counts: filled(0usize, owner_count),
            owner_violation_counts: filled(0usize, owner_count),
            invalid_fixed_edges: 0,
            owner_invalid_total: 0,
            owner_violation_total: 0,
            assignment_penalty: node_count as u128,
            cycle_penalty: 0,
            cycle_added_edges: Vec::new(),
            earliest: filled(0i64, node_count),
            finishes: filled(0i64, node_count),
            score: HardSoftScore::zero(),
            hard_penalty: 0,
            makespan: 0,
            release: filled(0i64, node_count),
            pin: filled(None, node_count),
            disruption_baseline: filled(None, node_count),
        };
        proof {
            lemma_penalty_sum_zeros(s.assigned_counts@);
            lemma_sum_counts_zeros(s.owner_invalid_counts@);
            lemma_sum_counts_zeros(s.owner_violation_counts@);
            assert forall|u: usize, v: usize| #[trigger] s.arc_count(u, v) == 0 by {
                if u < node_count {
                    assert(s.edge_counts@[u as int]@.len() == 0);
                }
            }
            assert forall|u: int| 0 <= u < node_count implies row_wf(#[trigger] s.edge_counts@[u]@, node_count as int) by {
                assert(s.edge_counts@[u]@.len() == 0);
            }
            assert forall|u: usize, v: usize| u < node_count implies
                (#[trigger] s.successors@[u as int]@.contains(v) <==> s.arc(u, v)) by {
                assert(s.successors@[u as int]@.len() == 0);
            }
            assert forall|u: usize, v: usize| v < node_count implies
                (#[trigger] s.predecessors@[v as int]@.contains(u) <==> s.arc(u, v)) by {
                assert(s.predecessors@[v as int]@.len() == 0);
            }
            assert forall|u: int| 0 <= u < node_count implies (#[trigger] s.successors@[u])@.no_duplicates() by {
                assert(s.successors@[u]@.len() == 0);
            }
            assert forall|u: int| 0 <= u < node_count implies (#[trigger] s.predecessors@[u])@.no_duplicates() by {
                assert(s.predecessors@[u]@.len() == 0);
            }
        }
        s
    }

    /// Installs the static per-node release times, pin targets and disruption baselines.
    pub fn set_pin_terms(&mut self, release: Vec<i64>, pin: Vec<Option<i64>>, disruption_baseline: Vec<Option<i64>>)
        requires
            old(self).wf(),
            release@.len() == old(self).node_count,
            pin@.len() == old(self).node_count,
            disruption_baseline@.len() == old(self).node_count,
        ensures
            final(self).wf(),
            final(self).release@ == release@,
            final(self).pin@ == pin@,
            final(self).disruption_baseline@ == disruption_baseline@,
            final(self).graph_same(old(self)),
            final(self).node_count == old(self).node_count,
            final(self).durations == old(self).durations,
            final(self).assigned_counts == old(self).assigned_counts,
            final(self).owner_elements == old(self).owner_elements,
            final(self).owner_edges == old(self).owner_edges,
            final(self).owner_invalid_counts == old(self).owner_invalid_counts,
            final(self).owner_violation_counts == old(self).owner_violation_counts,
            final(self).invalid_fixed_edges == old(self).invalid_fixed_edges,
            final(self).owner_invalid_total == old(self).owner_invalid_total,
            final(self).owner_violation_total == old(self).owner_violation_total,
            final(self).assignment_penalty == old(self).assignment_penalty,
            final(self).cycle_penalty == old(self).cycle_penalty,
            final(self).cycle_added_edges == old(self).cycle_added_edges,
            final(self).earliest == old(self).earliest,
            final(self).finishes == old(self).finishes,
            final(self).score == old(self).score,
            final(self).hard_penalty == old(self).hard_penalty,
            final(self).makespan == old(self).makespan,
    {
        self.release = release;
        self.pin = pin;
        self.disruption_baseline = disruption_baseline;
    }

    /// The arc multigraph (counts and adjacency lists) is the same in both states.
    pub open spec fn graph_same(&self, other: &Self) -> bool {
        &&& self.edge_counts == other.edge_counts
        &&& self.successors == other.successors
        &&& self.predecessors == other.predecessors
    }

    /// Sets the assignment count of `node`, keeping the assignment penalty in step.
    pub fn adjust_assignment(&mut self, node: usize, new_count: usize)
        requires
            old(self).wf(),
            node < old(self).node_count,
        ensures
            final(self).wf(),
            final(self).assigned_counts@ == old(self).assigned_counts@.update(node as int, new_count),
            final(self).assignment_penalty == penalty_sum(final(self).assigned_counts@),
            final(self).same_but_assignments(old(self)),
    {
        let old_count = self.assigned_counts[node];
        if old_count == new_count {
            assert(self.assigned_counts@ =~= old(self).assigned_counts@.update(node as int, new_count));
            return;
        }
        let old_penalty = assignment_penalty(old_count);
        let new_penalty = assignment_penalty(new_count);
        proof {
            lemma_penalty_sum_update(self.assigned_counts@, node as int, new_count);
            lemma_penalty_sum_element(self.assigned_counts@, node as int);
            lemma_penalty_sum_bounds(self.assigned_counts@.update(node as int, new_count));
            lemma_square_fits_u128();
            assert(self.assigned_counts@.len() * (usize::MAX as int) <= (usize::MAX as int) * (usize::MAX as int)) by (nonlinear_arith)
                requires
                    self.assigned_counts@.len() <= usize::MAX,
            ;
        }
        if new_penalty >= old_penalty {
            self.assignment_penalty = self.assignment_penalty + (new_penalty - old_penalty) as u128;
        } else {
            self.assignment_penalty = self.assignment_penalty - (old_penalty - new_penalty) as u128;
        }
        self.assigned_counts.set(node, new_count);
    }

    /// Every field but the assignment counts and the assignment penalty is the same.
    pub open spec fn same_but_assignments(&self, other: &Self) -> bool {
        &&& self.graph_same(other)
        &&& self.node_count == other.node_count
        &&& self.durations == other.durations
        &&& self.owner_elements == other.owner_elements
        &&& self.owner_edges == other.owner_edges
        &&& self.owner_invalid_counts == other.owner_invalid_counts
        &&& self.owner_violation_counts == other.owner_violation_counts
        &&& self.invalid_fixed_edges == other.invalid_fixed_edges
        &&& self.owner_invalid_total == other.owner_invalid_total
        &&& self.owner_violation_total == other.owner_violation_total
        &&& self.cycle_penalty == other.cycle_penalty
        &&& self.cycle_added_edges == other.cycle_added_edges
        &&& self.earliest == other.earliest
        &&& self.finishes == other.finishes
        &&& self.score == other.score
        &&& self.hard_penalty == other.hard_penalty
        &&& self.makespan == other.makespan
        &&& self.release == other.release
        &&& self.pin == other.pin
        &&& self.disruption_baseline == other.disruption_baseline
    }
}

} // verus!

verus! {

impl ListPrecedenceState {
    /// Moves the assignment counts from an owner's old elements to its new ones: each node
    /// whose number of occurrences differs gets `updated_count`.
    pub fn diff_owner_assignments(&mut self, old_elements: &Vec<usize>, new_elements: &Vec<usize>)
        requires
            old(self).wf(),
            forall|k: int| 0 <= k < old_elements@.len() ==> #[trigger] old_elements@[k] < old(self).node_count,
            forall|k: int| 0 <= k < new_elements@.len() ==> #[trigger] new_elements@[k] < old(self).node_count,
        ensures
            final(self).wf(),
            final(self).same_but_assignments(old(self)),
            final(self).assigned_counts@.len() == old(self).assigned_counts@.len(),
            forall|v: usize| v < old(self).node_count ==> #[trigger] final(self).assigned_counts@[v as int] == updated_count(
                old(self).assigned_counts@[v as int],
                occ(old_elements@, v),
                occ(new_elements@, v),
            ),
    {
        let ghost orig = self.assigned_counts@;
        let ghost n = self.node_count as int;
        let mut i: usize = 0;
        while i < old_elements.len()
            invariant
                self.wf(),
                self.same_but_assignments(old(self)),
                self.node_count == n,
                orig == old(self).assigned_counts@,
                orig.len() == n,
                i <= old_elements@.len(),
                forall|k: int| 0 <= k < old_elements@.len() ==> #[trigger] old_elements@[k] < n,
                forall|v: usize| v < n ==> #[trigger] self.assigned_counts@[v as int] == (if old_elements@.subrange(0, i as int).contains(v) {
                    updated_count(orig[v as int], occ(old_elements@, v), occ(new_elements@, v))
                } else {
                    orig[v as int]
                }),
            decreases old_elements@.len() - i,
        {
            let v = old_elements[i];
            proof {
                assert forall|w: usize| #[trigger] old_elements@.subrange(0, i + 1).contains(w)
                    == (old_elements@.subrange(0, i as int).contains(w) || old_elements@[i as int] == w) by {
                    lemma_prefix_contains(old_elements@, i as int, w);
                }
            }
            if !node_in_prefix(old_elements, i, v) {
                let a = count_node(old_elements, v);
                let b = count_node(new_elements, v);
                if a != b {
                    let current = self.assigned_counts[v];
                    let updated = current.saturating_sub(a).saturating_add(b);
                    self.adjust_assignment(v, updated);
                }
            }
            i = i + 1;
        }
        assert(old_elements@.subrange(0, i as int) =~= old_elements@);
        let mut j: usize = 0;
        while j < new_elements.len()
            invariant
                self.wf(),
                self.same_but_assignments(old(self)),
                self.node_count == n,
                orig == old(self).assigned_counts@,
                orig.len() == n,
                j <= new_elements@.len(),
                forall|k: int| 0 <= k < new_elements@.len() ==> #[trigger] new_elements@[k] < n,
                forall|v: usize| v < n ==> #[trigger] self.assigned_counts@[v as int] == (if old_elements@.contains(v)
                    || new_elements@.subrange(0, j as int).contains(v) {
                    updated_count(orig[v as int], occ(old_elements@, v), occ(new_elements@, v))
                } else {
                    orig[v as int]
                }),
            decreases new_elements@.len() - j,
        {
            let v = new_elements[j];
            proof {
                assert forall|w: usize| #[trigger] new_elements@.subrange(0, j + 1).contains(w)
                    == (new_elements@.subrange(0, j as int).contains(w) || new_elements@[j as int] == w) by {
                    lemma_prefix_contains(new_elements@, j as int, w);
                }
                lemma_occ_contains(old_elements@, v);
            }
            if !node_in_prefix(new_elements, j, v) && !node_in_prefix(old_elements, old_elements.len(), v) {
                proof {
                    assert(old_elements@.subrange(0, old_elements@.len() as int) =~= old_elements@);
                }
                let b = count_node(new_elements, v);
                proof {
                    lemma_occ_contains(new_elements@, v);
                    assert(new_elements@[j as int] == v);
                }
                let current = self.assigned_counts[v];
                let updated = current.saturating_add(b);
                self.adjust_assignment(v, updated);
            } else {
                proof {
                    assert(old_elements@.subrange(0, old_elements@.len() as int) =~= old_elements@);
                }
            }
            j = j + 1;
        }
        proof {
            assert(new_elements@.subrange(0, j as int) =~= new_elements@);
            assert forall|v: usize| v < n implies #[trigger] self.assigned_counts@[v as int] == updated_count(
                orig[v as int], occ(old_elements@, v), occ(new_elements@, v)) by {
                lemma_occ_contains(old_elements@, v);
                lemma_occ_contains(new_elements@, v);
            }
        }
    }
}

} // verus!

verus! {

/// An arc count after `a` of its arcs were taken away and `b` put back, one at a time:
/// removals stop at zero, additions saturate at `usize::MAX`.
pub open spec fn shifted_count(c: int, a: nat, b: nat) -> int {
    if a > b {
        if c >= a - b { c - (a - b) } else { 0 }
    } else {
        if c + (b - a) > usize::MAX { usize::MAX as int } else { c + (b - a) }
    }
}

impl ListPrecedenceState {
    /// Removes `times` arcs `edge`; records the arc in `removed` if its last copy went.
    fn remove_edge_times(&mut self, edge: Edge, times: usize, removed: &mut Vec<Edge>)
        requires
            old(self).graph_wf(),
            edge.0 < old(self).node_count,
            edge.1 < old(self).node_count,
        ensures
            final(self).graph_wf(),
            final(self).same_but_graph(old(self)),
            final(self).arc_count(edge.0, edge.1) == shifted_count(old(self).arc_count(edge.0, edge.1), times as nat, 0),
            forall|u: usize, v: usize| (u, v) != edge ==> #[trigger] final(self).arc_count(u, v) == old(self).arc_count(u, v),
            final(removed)@ == old(removed)@ + (if old(self).arc_count(edge.0, edge.1) > 0
                && old(self).arc_count(edge.0, edge.1) <= times { seq![edge] } else { Seq::empty() }),
    {
        let ghost c0 = self.arc_count(edge.0, edge.1);
        proof {
            lemma_row_present(self.edge_counts@[edge.0 as int]@, self.node_count as int, edge.1);
            self.lemma_arc_count_bounded(edge.0, edge.1);
        }
        let mut t: usize = 0;
        while t < times
            invariant
                self.graph_wf(),
                self.same_but_graph(old(self)),
                edge.0 < self.node_count,
                edge.1 < self.node_count,
                c0 == old(self).arc_count(edge.0, edge.1),
                c0 >= 0,
                t <= times,
                self.arc_count(edge.0, edge.1) == (if c0 >= t { c0 - t } else { 0 }),
                forall|u: usize, v: usize| (u, v) != edge ==> #[trigger] self.arc_count(u, v) == old(self).arc_count(u, v),
                removed@ == old(removed)@ + (if c0 > 0 && c0 <= t { seq![edge] } else { Seq::empty() }),
            decreases times - t,
        {
            let last = self.remove_edge(edge);
            if last {
                removed.push(edge);
            }
            t = t + 1;
        }
    }

    /// Adds `times` arcs `edge`; records the arc in `added` if it was absent before.
    fn add_edge_times(&mut self, edge: Edge, times: usize, added: &mut Vec<Edge>)
        requires
            old(self).graph_wf(),
            edge.0 < old(self).node_count,
            edge.1 < old(self).node_count,
        ensures
            final(self).graph_wf(),
            final(self).same_but_graph(old(self)),
            final(self).arc_count(edge.0, edge.1) == shifted_count(old(self).arc_count(edge.0, edge.1), 0, times as nat),
            forall|u: usize, v: usize| (u, v) != edge ==> #[trigger] final(self).arc_count(u, v) == old(self).arc_count(u, v),
            final(added)@ == old(added)@ + (if old(self).arc_count(edge.0, edge.1) == 0 && times > 0 {
                seq![edge]
            } else {
                Seq::empty()
            }),
    {
        let ghost c0 = self.arc_count(edge.0, edge.1);
        proof {
            lemma_row_present(self.edge_counts@[edge.0 as int]@, self.node_count as int, edge.1);
            self.lemma_arc_count_bounded(edge.0, edge.1);
        }
        let mut t: usize = 0;
        while t < times
            invariant
                self.graph_wf(),
                self.same_but_graph(old(self)),
                edge.0 < self.node_count,
                edge.1 < self.node_count,
                c0 == old(self).arc_count(edge.0, edge.1),
                c0 >= 0,
                t <= times,
                self.arc_count(edge.0, edge.1) == (if c0 + t > usize::MAX { usize::MAX as int } else { c0 + t }),
                forall|u: usize, v: usize| (u, v) != edge ==> #[trigger] self.arc_count(u, v) == old(self).arc_count(u, v),
                added@ == old(added)@ + (if c0 == 0 && t > 0 { seq![edge] } else { Seq::empty() }),
            decreases times - t,
        {
            proof {
                lemma_row_present(self.edge_counts@[edge.0 as int]@, self.node_count as int, edge.1);
                assert(row_count(self.edge_counts@[edge.0 as int]@, edge.1) <= usize::MAX) by {
                    self.lemma_arc_count_bounded(edge.0, edge.1);
                }
            }
            let first = self.add_edge(edge);
            if first {
                added.push(edge);
            }
            t = t + 1;
        }
    }

    /// An arc count is never negative.
    pub proof fn lemma_arc_count_nonneg(&self, u: usize, v: usize)
        requires
            self.graph_wf(),
        ensures
            0 <= self.arc_count(u, v) <= usize::MAX,
    {
        self.lemma_arc_count_bounded(u, v);
    }

    /// An arc count fits a `usize`.
    proof fn lemma_arc_count_bounded(&self, u: usize, v: usize)
        requires
            self.graph_wf(),
        ensures
            0 <= self.arc_count(u, v) <= usize::MAX,
    {
        if u < self.node_count {
            let row = self.edge_counts@[u as int]@;
            lemma_row_present(row, self.node_count as int, v);
            if row_count(row, v) > 0 {
                let k = choose|k: int| 0 <= k < row.len() && (#[trigger] row[k]).0 == v;
                lemma_row_count_at(row, self.node_count as int, v, k);
            }
        }
    }
}

} // verus!

verus! {

/// The arcs of `list` that are new: absent before, present after.
pub open spec fn lists_appeared(list: Seq<Edge>, before: &ListPrecedenceState, after: &ListPrecedenceState) -> bool {
    &&& list.no_duplicates()
    &&& forall|u: usize, v: usize| #[trigger] list.contains((u, v)) <==> (u < before.node_count && v < before.node_count
        && before.arc_count(u, v) == 0 && after.arc_count(u, v) > 0)
}

/// The arcs of `list` that are gone: present before, absent after.
pub open spec fn lists_vanished(list: Seq<Edge>, before: &ListPrecedenceState, after: &ListPrecedenceState) -> bool {
    &&& list.no_duplicates()
    &&& forall|u: usize, v: usize| #[trigger] list.contains((u, v)) <==> (u < before.node_count && v < before.node_count
        && before.arc_count(u, v) > 0 && after.arc_count(u, v) == 0)
}

proof fn lemma_push_fresh<T>(s: Seq<T>, x: T)
    requires
        s.no_duplicates(),
        !s.contains(x),
    ensures
        s.push(x).no_duplicates(),
        forall|y: T| #[trigger] s.push(x).contains(y) <==> (s.contains(y) || y == x),
{
    let t = s.push(x);
    assert forall|i: int, j: int| 0 <= i < t.len() && 0 <= j < t.len() && i != j implies t[i] != t[j] by {
        if i == s.len() {
            assert(t[j] == s[j]);
        } else if j == s.len() {
            assert(t[i] == s[i]);
        } else {
            assert(t[i] == s[i] && t[j] == s[j]);
        }
    }
    assert forall|y: T| #[trigger] t.contains(y) <==> (s.contains(y) || y == x) by {
        if t.contains(y) && y != x {
            let k = choose|k: int| 0 <= k < t.len() && t[k] == y;
            assert(s[k] == y);
        }
        if s.contains(y) {
            let k = choose|k: int| 0 <= k < s.len() && s[k] == y;
            assert(t[k] == y);
        }
        assert(t[s.len() as int] == x);
    }
}

proof fn lemma_subrange_push<T>(s: Seq<T>, start: int, x: T)
    requires
        0 <= start <= s.len(),
    ensures
        s.push(x).subrange(start, s.len() as int + 1) == s.subrange(start, s.len() as int).push(x),
        s.push(x).subrange(0, start) == s.subrange(0, start),
        s.subrange(start, s.len() as int).len() == s.len() - start,
{
    assert(s.push(x).subrange(start, s.len() as int + 1) =~= s.subrange(start, s.len() as int).push(x));
    assert(s.push(x).subrange(0, start) =~= s.subrange(0, start));
}

impl ListPrecedenceState {
    /// Replaces the arcs `old_edges` of a route by `new_edges`: each distinct arc is removed or
    /// added as many times as its number of occurrences changed, and `change` gets the arcs
    /// that appeared and the arcs that vanished.
    pub fn diff_owner_edges(&mut self, old_edges: &Vec<Edge>, new_edges: &Vec<Edge>, change: &mut RouteChange)
        requires
            old(self).graph_wf(),
            forall|k: int| 0 <= k < old_edges@.len() ==> (#[trigger] old_edges@[k]).0 < old(self).node_count
                && old_edges@[k].1 < old(self).node_count,
            forall|k: int| 0 <= k < new_edges@.len() ==> (#[trigger] new_edges@[k]).0 < old(self).node_count
                && new_edges@[k].1 < old(self).node_count,
        ensures
            final(self).graph_wf(),
            final(self).same_but_graph(old(self)),
            forall|u: usize, v: usize| #[trigger] final(self).arc_count(u, v) == shifted_count(
                old(self).arc_count(u, v),
                occ(old_edges@, (u, v)),
                occ(new_edges@, (u, v)),
            ),
            final(change).added_edges@.subrange(0, old(change).added_edges@.len() as int) == old(change).added_edges@,
            final(change).removed_edges@.subrange(0, old(change).removed_edges@.len() as int) == old(change).removed_edges@,
            lists_appeared(
                final(change).added_edges@.subrange(old(change).added_edges@.len() as int, final(change).added_edges@.len() as int),
                old(self),
                final(self),
            ),
            lists_vanished(
                final(change).removed_edges@.subrange(old(change).removed_edges@.len() as int, final(change).removed_edges@.len() as int),
                old(self),
                final(self),
            ),
    {
        let ghost n = self.node_count;
        let ghost a0 = change.added_edges@.len() as int;
        let ghost r0 = change.removed_edges@.len() as int;
        let ghost start = *self;
        proof {
            assert forall|u: usize, v: usize| #[trigger] occ(old_edges@, (u, v)) > 0 ==> u < n && v < n by {
                lemma_occ_contains(old_edges@, (u, v));
                if occ(old_edges@, (u, v)) > 0 {
                    let k = choose|k: int| 0 <= k < old_edges@.len() && old_edges@[k] == (u, v);
                }
            }
            assert forall|u: usize, v: usize| #[trigger] occ(new_edges@, (u, v)) > 0 ==> u < n && v < n by {
                lemma_occ_contains(new_edges@, (u, v));
                if occ(new_edges@, (u, v)) > 0 {
                    let k = choose|k: int| 0 <= k < new_edges@.len() && new_edges@[k] == (u, v);
                }
            }
            assert(change.added_edges@.subrange(a0, a0) =~= Seq::<Edge>::empty());
            assert(change.removed_edges@.subrange(r0, r0) =~= Seq::<Edge>::empty());
        }
        let mut i: usize = 0;
        while i < old_edges.len()
            invariant
                self.graph_wf(),
                self.same_but_graph(old(self)),
                start == *old(self),
                start.graph_wf(),
                self.node_count == n,
                i <= old_edges@.len(),
                forall|k: int| 0 <= k < old_edges@.len() ==> (#[trigger] old_edges@[k]).0 < n && old_edges@[k].1 < n,
                forall|u: usize, v: usize| #[trigger] self.arc_count(u, v) == (if old_edges@.subrange(0, i as int).contains((u, v)) {
                    shifted_count(start.arc_count(u, v), occ(old_edges@, (u, v)), occ(new_edges@, (u, v)))
                } else {
                    start.arc_count(u, v)
                }),
                0 <= a0 <= change.added_edges@.len(),
                0 <= r0 <= change.removed_edges@.len(),
                change.added_edges@.subrange(0, a0) == old(change).added_edges@,
                change.removed_edges@.subrange(0, r0) == old(change).removed_edges@,
                change.added_edges@.subrange(a0, change.added_edges@.len() as int).no_duplicates(),
                change.removed_edges@.subrange(r0, change.removed_edges@.len() as int).no_duplicates(),
                forall|u: usize, v: usize| #[trigger] change.added_edges@.subrange(a0, change.added_edges@.len() as int).contains((u, v))
                    <==> (old_edges@.subrange(0, i as int).contains((u, v)) && u < n && v < n && start.arc_count(u, v) == 0
                        && self.arc_count(u, v) > 0),
                forall|u: usize, v: usize| #[trigger] change.removed_edges@.subrange(r0, change.removed_edges@.len() as int).contains((u, v))
                    <==> (old_edges@.subrange(0, i as int).contains((u, v)) && u < n && v < n && start.arc_count(u, v) > 0
                        && self.arc_count(u, v) == 0),
            decreases old_edges@.len() - i,
        {
            let e = old_edges[i];
            let ghost before = *self;
            let ghost added_before = change.added_edges@;
            let ghost removed_before = change.removed_edges@;
            proof {
                assert forall|w: Edge| #[trigger] old_edges@.subrange(0, i + 1).contains(w)
                    == (old_edges@.subrange(0, i as int).contains(w) || old_edges@[i as int] == w) by {
                    lemma_prefix_contains(old_edges@, i as int, w);
                }
                self.lemma_arc_count_bounded(e.0, e.1);
                start.lemma_arc_count_bounded(e.0, e.1);
            }
            if !edge_in_prefix(old_edges, i, e) {
                let a = count_edge(old_edges, e);
                let b = count_edge(new_edges, e);
                proof {
                    assert(e == (e.0, e.1));
                    assert(self.arc_count(e.0, e.1) == start.arc_count(e.0, e.1));
                    assert(!change.added_edges@.subrange(a0, change.added_edges@.len() as int).contains(e));
                    assert(!change.removed_edges@.subrange(r0, change.removed_edges@.len() as int).contains(e));
                }
                if a > b {
                    let mut removed: Vec<Edge> = Vec::new();
                    std::mem::swap(&mut removed, &mut change.removed_edges);
                    self.remove_edge_times(e, a - b, &mut removed);
                    change.removed_edges = removed;
                    proof {
                        let full = change.removed_edges@;
                        assert(r0 <= removed_before.len());
                        let rs = removed_before.subrange(r0, removed_before.len() as int);
                        if start.arc_count(e.0, e.1) > 0 && start.arc_count(e.0, e.1) <= a - b {
                            assert(full =~= removed_before.push(e));
                            lemma_subrange_push(removed_before, r0, e);
                            lemma_push_fresh(rs, e);
                            assert(full.subrange(r0, full.len() as int) =~= rs.push(e));
                        } else {
                            assert(full =~= removed_before);
                            assert(full.subrange(r0, full.len() as int) =~= rs);
                        }
                        assert(full.subrange(0, r0) =~= removed_before.subrange(0, r0));
                    }
                } else if b > a {
                    let mut added: Vec<Edge> = Vec::new();
                    std::mem::swap(&mut added, &mut change.added_edges);
                    self.add_edge_times(e, b - a, &mut added);
                    change.added_edges = added;
                    proof {
                        let full = change.added_edges@;
                        let ads = added_before.subrange(a0, added_before.len() as int);
                        if start.arc_count(e.0, e.1) == 0 {
                            assert(full =~= added_before.push(e));
                            lemma_subrange_push(added_before, a0, e);
                            lemma_push_fresh(ads, e);
                            assert(full.subrange(a0, full.len() as int) =~= ads.push(e));
                        } else {
                            assert(full =~= added_before);
                            assert(full.subrange(a0, full.len() as int) =~= ads);
                        }
                        assert(full.subrange(0, a0) =~= added_before.subrange(0, a0));
                    }
                }
            }
            i = i + 1;
        }
        assert(old_edges@.subrange(0, i as int) =~= old_edges@);
        let mut j: usize = 0;
        while j < new_edges.len()
            invariant
                self.graph_wf(),
                self.same_but_graph(old(self)),
                start == *old(self),
                start.graph_wf(),
                self.node_count == n,
                j <= new_edges@.len(),
                forall|k: int| 0 <= k < new_edges@.len() ==> (#[trigger] new_edges@[k]).0 < n && new_edges@[k].1 < n,
                forall|u: usize, v: usize| #[trigger] self.arc_count(u, v) == (if old_edges@.contains((u, v))
                    || new_edges@.subrange(0, j as int).contains((u, v)) {
                    shifted_count(start.arc_count(u, v), occ(old_edges@, (u, v)), occ(new_edges@, (u, v)))
                } else {
                    start.arc_count(u, v)
                }),
                0 <= a0 <= change.added_edges@.len(),
                0 <= r0 <= change.removed_edges@.len(),
                change.added_edges@.subrange(0, a0) == old(change).added_edges@,
                change.removed_edges@.subrange(0, r0) == old(change).removed_edges@,
                change.added_edges@.subrange(a0, change.added_edges@.len() as int).no_duplicates(),
                change.removed_edges@.subrange(r0, change.removed_edges@.len() as int).no_duplicates(),
                forall|u: usize, v: usize| #[trigger] change.added_edges@.subrange(a0, change.added_edges@.len() as int).contains((u, v))
                    <==> ((old_edges@.contains((u, v)) || new_edges@.subrange(0, j as int).contains((u, v))) && u < n && v < n
                        && start.arc_count(u, v) == 0 && self.arc_count(u, v) > 0),
                forall|u: usize, v: usize| #[trigger] change.removed_edges@.subrange(r0, change.removed_edges@.len() as int).contains((u, v))
                    <==> ((old_edges@.contains((u, v)) || new_edges@.subrange(0, j as int).contains((u, v))) && u < n && v < n
                        && start.arc_count(u, v) > 0 && self.arc_count(u, v) == 0),
            decreases new_edges@.len() - j,
        {
            let e = new_edges[j];
            let ghost added_before = change.added_edges@;
            proof {
                assert forall|w: Edge| #[trigger] new_edges@.subrange(0, j + 1).contains(w)
                    == (new_edges@.subrange(0, j as int).contains(w) || new_edges@[j as int] == w) by {
                    lemma_prefix_contains(new_edges@, j as int, w);
                }
                assert(old_edges@.subrange(0, old_edges@.len() as int) =~= old_edges@);
                lemma_occ_contains(old_edges@, e);
                self.lemma_arc_count_bounded(e.0, e.1);
                start.lemma_arc_count_bounded(e.0, e.1);
            }
            if !edge_in_prefix(new_edges, j, e) && !edge_in_prefix(old_edges, old_edges.len(), e) {
                let b = count_edge(new_edges, e);
                proof {
                    assert(e == (e.0, e.1));
                    assert(!old_edges@.contains(e));
                    assert(self.arc_count(e.0, e.1) == start.arc_count(e.0, e.1));
                    lemma_occ_contains(new_edges@, e);
                    assert(new_edges@[j as int] == e);
                    assert(!change.added_edges@.subrange(a0, change.added_edges@.len() as int).contains(e));
                }
                let mut added: Vec<Edge> = Vec::new();
                std::mem::swap(&mut added, &mut change.added_edges);
                self.add_edge_times(e, b, &mut added);
                change.added_edges = added;
                proof {
                    let full = change.added_edges@;
                    let ads = added_before.subrange(a0, added_before.len() as int);
                    if start.arc_count(e.0, e.1) == 0 {
                        assert(full =~= added_before.push(e));
                        lemma_subrange_push(added_before, a0, e);
                        lemma_push_fresh(ads, e);
                        assert(full.subrange(a0, full.len() as int) =~= ads.push(e));
                    } else {
                        assert(full =~= added_before);
                        assert(full.subrange(a0, full.len() as int) =~= ads);
                    }
                    assert(full.subrange(0, a0) =~= added_before.subrange(0, a0));
                }
            }
            j = j + 1;
        }
        proof {
            assert(new_edges@.subrange(0, j as int) =~= new_edges@);
            assert forall|u: usize, v: usize| #[trigger] self.arc_count(u, v) == shifted_count(
                start.arc_count(u, v), occ(old_edges@, (u, v)), occ(new_edges@, (u, v))) by {
                lemma_occ_contains(old_edges@, (u, v));
                lemma_occ_contains(new_edges@, (u, v));
                start.lemma_arc_count_bounded(u, v);
            }
        }
    }
}

} // verus!

verus! {

/// The list of `owner` in a solution; an owner past the last one has an empty list.
pub open spec fn owner_list(solution: &ListSolution, owner: int) -> Seq<usize> {
    if 0 <= owner < solution.routes@.len() {
        solution.routes@[owner]@
    } else {
        Seq::empty()
    }
}

/// The view of an optional per-node table of expected owners.
pub open spec fn owner_table(t: Option<Vec<Option<usize>>>) -> Option<Seq<Option<usize>>> {
    match t {
        Some(v) => Some(v@),
        None => None,
    }
}

/// An optional per-node table covers the nodes `0..n`.
pub open spec fn owner_table_covers(t: &Option<Vec<Option<usize>>>, n: int) -> bool {
    match t {
        Some(v) => v@.len() >= n,
        None => true,
    }
}

pub proof fn lemma_route_step(l: Seq<usize>, pos: int, n: int, expected: Option<Seq<Option<usize>>>, owner: usize)
    requires
        0 <= pos < l.len(),
    ensures
        route_elements(l.subrange(0, pos + 1), n) == route_elements(l.subrange(0, pos), n)
            + (if l[pos] < n { seq![l[pos]] } else { Seq::empty() }),
        route_invalid(l.subrange(0, pos + 1), n) == route_invalid(l.subrange(0, pos), n) + (if l[pos] < n { 0int } else { 1int }),
        route_violations(l.subrange(0, pos + 1), n, expected, owner) == route_violations(l.subrange(0, pos), n, expected, owner)
            + (if l[pos] < n && (match expected {
                Some(e) => e[l[pos] as int] is Some && e[l[pos] as int]->0 != owner,
                None => false,
            }) { 1int } else { 0int }),
        route_edges(l.subrange(0, pos + 1), n) == route_edges(l.subrange(0, pos), n) + (if pos >= 1 && l[pos - 1] < n
            && l[pos] < n { seq![(l[pos - 1], l[pos])] } else { Seq::empty() }),
{
    let s = l.subrange(0, pos + 1);
    assert(s.drop_last() =~= l.subrange(0, pos));
    assert(s.last() == l[pos]);
    if pos >= 1 {
        assert(s[s.len() - 2] == l[pos - 1]);
    } else {
        assert(l.subrange(0, pos).len() == 0);
    }
}

pub proof fn lemma_route_invalid_bound(l: Seq<usize>, n: int)
    ensures
        0 <= route_invalid(l, n) <= l.len(),
    decreases l.len(),
{
    if l.len() > 0 {
        lemma_route_invalid_bound(l.drop_last(), n);
    }
}

pub proof fn lemma_route_violations_bound(l: Seq<usize>, n: int, expected: Option<Seq<Option<usize>>>, owner: usize)
    ensures
        0 <= route_violations(l, n, expected, owner) <= l.len(),
    decreases l.len(),
{
    if l.len() > 0 {
        lemma_route_violations_bound(l.drop_last(), n, expected, owner);
    }
}

proof fn lemma_route_elements_below(l: Seq<usize>, n: int)
    ensures
        forall|k: int| 0 <= k < route_elements(l, n).len() ==> #[trigger] route_elements(l, n)[k] < n,
    decreases l.len(),
{
    if l.len() > 0 {
        lemma_route_elements_below(l.drop_last(), n);
        let a = route_elements(l.drop_last(), n);
        assert forall|k: int| 0 <= k < route_elements(l, n).len() implies #[trigger] route_elements(l, n)[k] < n by {
            if k < a.len() {
                assert(route_elements(l, n)[k] == a[k]);
            }
        }
    }
}

proof fn lemma_route_edges_below(l: Seq<usize>, n: int)
    ensures
        forall|k: int| 0 <= k < route_edges(l, n).len() ==> (#[trigger] route_edges(l, n)[k]).0 < n && route_edges(l, n)[k].1 < n,
    decreases l.len(),
{
    if l.len() >= 2 {
        lemma_route_edges_below(l.drop_last(), n);
        let a = route_edges(l.drop_last(), n);
        assert forall|k: int| 0 <= k < route_edges(l, n).len() implies (#[trigger] route_edges(l, n)[k]).0 < n
            && route_edges(l, n)[k].1 < n by {
            if k < a.len() {
                assert(route_edges(l, n)[k] == a[k]);
            }
        }
    }
}

impl ListPrecedenceState {
    /// Reads the list of `owner`: its real nodes, the arcs between neighbouring real nodes, the
    /// number of entries that are not real nodes, and the number of real nodes whose expected
    /// owner is another one.
    pub fn owner_route_snapshot(&self, solution: &ListSolution, owner: usize, expected_owner: &Option<Vec<Option<usize>>>) -> (s: OwnerRouteSnapshot)
        requires
            owner_table_covers(expected_owner, self.node_count as int),
        ensures
            s.elements@ == route_elements(owner_list(solution, owner as int), self.node_count as int),
            s.edges@ == route_edges(owner_list(solution, owner as int), self.node_count as int),
            s.invalid_count == route_invalid(owner_list(solution, owner as int), self.node_count as int),
            s.violation_count == route_violations(owner_list(solution, owner as int), self.node_count as int, owner_table(*expected_owner), owner),
            snapshot_wf(&s, self.node_count as int),
    {
        let ghost l = owner_list(solution, owner as int);
        let ghost n = self.node_count as int;
        let ghost ex = owner_table(*expected_owner);
        let mut snapshot = OwnerRouteSnapshot::default();
        let len = solution.list_len(owner);
        let mut previous: Option<usize> = None;
        let mut pos: usize = 0;
        assert(l.subrange(0, 0) =~= Seq::<usize>::empty());
        while pos < len
            invariant
                len == l.len(),
                l == owner_list(solution, owner as int),
                n == self.node_count,
                ex == owner_table(*expected_owner),
                owner_table_covers(expected_owner, n),
                pos <= len,
                snapshot.elements@ == route_elements(l.subrange(0, pos as int), n),
                snapshot.edges@ == route_edges(l.subrange(0, pos as int), n),
                snapshot.invalid_count == route_invalid(l.subrange(0, pos as int), n),
                snapshot.violation_count == route_violations(l.subrange(0, pos as int), n, ex, owner),
                previous == (if pos >= 1 && l[pos - 1] < n { Some(l[pos - 1]) } else { None::<usize> }),
            decreases len - pos,
        {
            proof {
                lemma_route_step(l, pos as int, n, ex, owner);
                lemma_route_invalid_bound(l.subrange(0, pos as int), n);
                lemma_route_violations_bound(l.subrange(0, pos as int), n, ex, owner);
            }
            let got = solution.list_get(owner, pos);
            let node = match got {
                Some(node) => node,
                None => {
                    snapshot.invalid_count = snapshot.invalid_count + 1;
                    previous = None;
                    pos = pos + 1;
                    continue;
                },
            };
            if node >= self.node_count {
                snapshot.invalid_count = snapshot.invalid_count + 1;
                previous = None;
                pos = pos + 1;
                continue;
            }
            snapshot.elements.push(node);
            let violates = match expected_owner {
                Some(table) => match table[node] {
                    Some(expected) => expected != owner,
                    None => false,
                },
                None => false,
            };
            if violates {
                snapshot.violation_count = snapshot.violation_count + 1;
            }
            match previous {
                Some(from) => {
                    snapshot.edges.push((from, node));
                },
                None => {},
            }
            previous = Some(node);
            pos = pos + 1;
        }
        proof {
            assert(l.subrange(0, pos as int) =~= l);
            lemma_route_elements_below(l, n);
            lemma_route_edges_below(l, n);
        }
        snapshot
    }
}

} // verus!

verus! {

impl ListPrecedenceState {
    /// Replaces the cached route of `owner` by `snapshot`, moving assignment counts and arcs
    /// from the old route to the new one; returns the arcs that appeared and vanished.
    pub fn replace_owner_route(&mut self, owner: usize, snapshot: OwnerRouteSnapshot) -> (change: RouteChange)
        requires
            old(self).wf(),
            owner < old(self).owner_elements@.len(),
            snapshot_wf(&snapshot, old(self).node_count as int),
        ensures
            final(self).wf(),
            final(self).node_count == old(self).node_count,
            final(self).owner_elements@.len() == old(self).owner_elements@.len(),
            final(self).owner_elements@[owner as int]@ == snapshot.elements@,
            final(self).owner_edges@[owner as int]@ == snapshot.edges@,
            final(self).owner_invalid_counts@ == old(self).owner_invalid_counts@.update(owner as int, snapshot.invalid_count),
            final(self).owner_violation_counts@ == old(self).owner_violation_counts@.update(owner as int, snapshot.violation_count),
            forall|o: int| 0 <= o < old(self).owner_elements@.len() && o != owner ==> #[trigger] final(self).owner_elements@[o]
                == old(self).owner_elements@[o],
            forall|o: int| 0 <= o < old(self).owner_elements@.len() && o != owner ==> #[trigger] final(self).owner_edges@[o]
                == old(self).owner_edges@[o],
            final(self).assigned_counts@.len() == old(self).assigned_counts@.len(),
            forall|v: usize| v < old(self).node_count ==> #[trigger] final(self).assigned_counts@[v as int] == updated_count(
                old(self).assigned_counts@[v as int],
                occ(old(self).owner_elements@[owner as int]@, v),
                occ(snapshot.elements@, v),
            ),
            forall|u: usize, v: usize| #[trigger] final(self).arc_count(u, v) == shifted_count(
                old(self).arc_count(u, v),
                occ(old(self).owner_edges@[owner as int]@, (u, v)),
                occ(snapshot.edges@, (u, v)),
            ),
            lists_appeared(change.added_edges@, old(self), final(self)),
            lists_vanished(change.removed_edges@, old(self), final(self)),
            final(self).same_schedule(old(self)),
    {
        let mut change = RouteChange::default();
        let OwnerRouteSnapshot { elements, edges, invalid_count, violation_count } = snapshot;
        let ghost n = self.node_count as int;

        let mut old_elements: Vec<usize> = Vec::new();
        std::mem::swap(&mut old_elements, &mut self.owner_elements[owner]);
        assert(old_elements@ == old(self).owner_elements@[owner as int]@);
        self.diff_owner_assignments(&old_elements, &elements);
        self.owner_elements[owner] = elements;

        let ghost mid = *self;
        let mut old_edges: Vec<Edge> = Vec::new();
        std::mem::swap(&mut old_edges, &mut self.owner_edges[owner]);
        assert(old_edges@ == old(self).owner_edges@[owner as int]@);
        proof {
            assert(forall|u: usize, v: usize| #[trigger] self.arc_count(u, v) == old(self).arc_count(u, v));
        }
        self.diff_owner_edges(&old_edges, &edges, &mut change);
        let ghost after_diff = *self;
        self.owner_edges[owner] = edges;
        let count_len = self.owner_invalid_counts.len();
        proof {
            assert(change.added_edges@.subrange(0, 0) =~= Seq::<Edge>::empty());
            assert(change.added_edges@.subrange(0, change.added_edges@.len() as int) =~= change.added_edges@);
            assert(change.removed_edges@.subrange(0, change.removed_edges@.len() as int) =~= change.removed_edges@);
            lemma_sum_counts_update(self.owner_invalid_counts@, owner as int, invalid_count);
            lemma_sum_counts_update(self.owner_violation_counts@, owner as int, violation_count);
            lemma_sum_counts_element(self.owner_invalid_counts@, owner as int);
            lemma_sum_counts_element(self.owner_violation_counts@, owner as int);
            lemma_sum_counts_bounds(self.owner_invalid_counts@.update(owner as int, invalid_count));
            lemma_sum_counts_bounds(self.owner_violation_counts@.update(owner as int, violation_count));
            lemma_square_fits_u128();
            assert(self.owner_invalid_counts@.len() * (usize::MAX as int) <= (usize::MAX as int) * (usize::MAX as int)) by (nonlinear_arith)
                requires
                    self.owner_invalid_counts@.len() <= usize::MAX,
            ;
        }
        self.owner_invalid_total = self.owner_invalid_total - self.owner_invalid_counts[owner] as u128;
        self.owner_invalid_total = self.owner_invalid_total + invalid_count as u128;
        self.owner_invalid_counts.set(owner, invalid_count);

        self.owner_violation_total = self.owner_violation_total - self.owner_violation_counts[owner] as u128;
        self.owner_violation_total = self.owner_violation_total + violation_count as u128;
        self.owner_violation_counts.set(owner, violation_count);
        proof {
            assert forall|o: int, k: int| 0 <= o < self.owner_elements@.len() && 0 <= k < self.owner_elements@[o]@.len() implies
                #[trigger] self.owner_elements@[o]@[k] < n by {
                if o != owner {
                    assert(self.owner_elements@[o] == old(self).owner_elements@[o]);
                }
            }
            assert forall|o: int, k: int| 0 <= o < self.owner_elements@.len() && 0 <= k < self.owner_edges@[o]@.len() implies
                (#[trigger] self.owner_edges@[o]@[k]).0 < n && self.owner_edges@[o]@[k].1 < n by {
                if o != owner {
                    assert(self.owner_edges@[o] == old(self).owner_edges@[o]);
                }
            }
            assert forall|u: usize, v: usize| #[trigger] self.arc_count(u, v) == after_diff.arc_count(u, v) by {}
        }
        change
    }

    /// The cached schedule and structural penalty parts that a route replacement leaves alone.
    pub open spec fn same_schedule(&self, other: &Self) -> bool {
        &&& self.durations == other.durations
        &&& self.invalid_fixed_edges == other.invalid_fixed_edges
        &&& self.cycle_penalty == other.cycle_penalty
        &&& self.cycle_added_edges == other.cycle_added_edges
        &&& self.earliest == other.earliest
        &&& self.finishes == other.finishes
        &&& self.score == other.score
        &&& self.hard_penalty == other.hard_penalty
        &&& self.makespan == other.makespan
        &&& self.release == other.release
        &&& self.pin == other.pin
        &&& self.disruption_baseline == other.disruption_baseline
    }

    /// Reads the list of `owner` from the solution and makes it the owner's cached route.
    pub fn add_owner_route(&mut self, solution: &ListSolution, owner: usize, expected_owner: &Option<Vec<Option<usize>>>) -> (change: RouteChange)
        requires
            old(self).wf(),
            owner < old(self).owner_elements@.len(),
            owner_table_covers(expected_owner, old(self).node_count as int),
        ensures
            final(self).wf(),
            final(self).node_count == old(self).node_count,
            final(self).owner_elements@.len() == old(self).owner_elements@.len(),
            final(self).owner_elements@[owner as int]@ == route_elements(owner_list(solution, owner as int), old(self).node_count as int),
            final(self).owner_edges@[owner as int]@ == route_edges(owner_list(solution, owner as int), old(self).node_count as int),
            final(self).owner_invalid_counts@ == old(self).owner_invalid_counts@.update(
                owner as int,
                route_invalid(owner_list(solution, owner as int), old(self).node_count as int) as usize,
            ),
            final(self).owner_violation_counts@ == old(self).owner_violation_counts@.update(
                owner as int,
                route_violations(owner_list(solution, owner as int), old(self).node_count as int, owner_table(*expected_owner), owner) as usize,
            ),
            forall|o: int| 0 <= o < old(self).owner_elements@.len() && o != owner ==> #[trigger] final(self).owner_elements@[o]
                == old(self).owner_elements@[o],
            forall|o: int| 0 <= o < old(self).owner_elements@.len() && o != owner ==> #[trigger] final(self).owner_edges@[o]
                == old(self).owner_edges@[o],
            forall|v: usize| v < old(self).node_count ==> #[trigger] final(self).assigned_counts@[v as int] == updated_count(
                old(self).assigned_counts@[v as int],
                occ(old(self).owner_elements@[owner as int]@, v),
                occ(final(self).owner_elements@[owner as int]@, v),
            ),
            forall|u: usize, v: usize| #[trigger] final(self).arc_count(u, v) == shifted_count(
                old(self).arc_count(u, v),
                occ(old(self).owner_edges@[owner as int]@, (u, v)),
                occ(final(self).owner_edges@[owner as int]@, (u, v)),
            ),
            lists_appeared(change.added_edges@, old(self), final(self)),
            lists_vanished(change.removed_edges@, old(self), final(self)),
            final(self).same_schedule(old(self)),
    {
        let snapshot = self.owner_route_snapshot(solution, owner, expected_owner);
        self.replace_owner_route(owner, snapshot)
    }

    /// Empties the cached route of `owner`.
    pub fn remove_owner_route(&mut self, owner: usize) -> (change: RouteChange)
        requires
            old(self).wf(),
            owner < old(self).owner_elements@.len(),
        ensures
            final(self).wf(),
            final(self).node_count == old(self).node_count,
            final(self).owner_elements@.len() == old(self).owner_elements@.len(),
            final(self).owner_elements@[owner as int]@.len() == 0,
            final(self).owner_edges@[owner as int]@.len() == 0,
            final(self).owner_invalid_counts@ == old(self).owner_invalid_counts@.update(owner as int, 0),
            final(self).owner_violation_counts@ == old(self).owner_violation_counts@.update(owner as int, 0),
            forall|o: int| 0 <= o < old(self).owner_elements@.len() && o != owner ==> #[trigger] final(self).owner_elements@[o]
                == old(self).owner_elements@[o],
            forall|o: int| 0 <= o < old(self).owner_elements@.len() && o != owner ==> #[trigger] final(self).owner_edges@[o]
                == old(self).owner_edges@[o],
            forall|v: usize| v < old(self).node_count ==> #[trigger] final(self).assigned_counts@[v as int] == updated_count(
                old(self).assigned_counts@[v as int],
                occ(old(self).owner_elements@[owner as int]@, v),
                0,
            ),
            forall|u: usize, v: usize| #[trigger] final(self).arc_count(u, v) == shifted_count(
                old(self).arc_count(u, v),
                occ(old(self).owner_edges@[owner as int]@, (u, v)),
                0,
            ),
            lists_appeared(change.added_edges@, old(self), final(self)),
            lists_vanished(change.removed_edges@, old(self), final(self)),
            final(self).same_schedule(old(self)),
    {
        let snapshot = OwnerRouteSnapshot::default();
        let change = self.replace_owner_route(owner, snapshot);
        proof {
            assert forall|v: usize| v < self.node_count implies occ(self.owner_elements@[owner as int]@, v) == 0 by {}
            assert forall|u: usize, v: usize| #[trigger] occ(self.owner_edges@[owner as int]@, (u, v)) == 0 by {}
        }
        change
    }
}

} // verus!

verus! {

/// A copy of a vector of `i64`.
fn copy_i64s(v: &Vec<i64>) -> (r: Vec<i64>)
    ensures
        r@ == v@,
{
    let mut r: Vec<i64> = Vec::new();
    let mut i: usize = 0;
    while i < v.len()
        invariant
            i <= v@.len(),
            r@ == v@.subrange(0, i as int),
        decreases v@.len() - i,
    {
        r.push(v[i]);
        i = i + 1;
        assert(r@ =~= v@.subrange(0, i as int));
    }
    assert(v@.subrange(0, i as int) =~= v@);
    r
}

impl ListPrecedenceState {
    /// The finish of node `u` for the starts `e`: its start plus its duration, saturating.
    pub open spec fn fin(&self, e: Seq<i64>, u: int) -> i64 {
        clamp_i64(e[u] + self.durations@[u])
    }

    /// Node `v` starts, under `e`, exactly at the later of its release time and the latest
    /// finish of a predecessor.
    pub open spec fn start_ok(&self, e: Seq<i64>, v: usize) -> bool {
        &&& e[v as int] >= self.release@[v as int]
        &&& forall|u: usize| #[trigger] self.arc(u, v) ==> e[v as int] >= self.fin(e, u as int)
        &&& (e[v as int] == self.release@[v as int] || exists|u: usize| #[trigger] self.arc(u, v) && e[v as int] == self.fin(e, u as int))
    }

    /// `e` gives every node the start that its release time and its predecessors force.
    pub open spec fn is_schedule(&self, e: Seq<i64>) -> bool {
        &&& e.len() == self.node_count
        &&& forall|v: usize| v < self.node_count ==> #[trigger] self.start_ok(e, v)
    }

    /// `m` is the makespan of the finishes `f` of the first nodes in `nodes`: the largest of
    /// them, and at least 0.
    pub open spec fn is_makespan_of(m: i64, f: Seq<i64>, nodes: Seq<usize>) -> bool {
        &&& m >= 0
        &&& forall|k: int| 0 <= k < nodes.len() ==> m >= #[trigger] f[nodes[k] as int]
        &&& (m == 0 || exists|k: int| 0 <= k < nodes.len() && m == #[trigger] f[nodes[k] as int])
    }

    /// `rank` orders the nodes so that every arc goes from a lower to a higher rank.
    pub open spec fn is_topological_rank(&self, rank: Seq<nat>) -> bool {
        &&& rank.len() == self.node_count
        &&& forall|u: usize, v: usize| #[trigger] self.arc(u, v) ==> rank[u as int] < rank[v as int]
    }

    /// The arc graph has a topological order, that is, no cycle.
    pub open spec fn is_acyclic(&self) -> bool {
        exists|rank: Seq<nat>| self.is_topological_rank(rank)
    }
}

/// The number of entries of `preds` that are not among the first `head` entries of `queue`.
pub open spec fn pending(preds: Seq<usize>, queue: Seq<usize>, head: int) -> int
    decreases preds.len(),
{
    if preds.len() == 0 {
        0
    } else {
        pending(preds.drop_last(), queue, head) + (if queue.subrange(0, head).contains(preds.last()) { 0int } else { 1int })
    }
}

proof fn lemma_pending_bounds(preds: Seq<usize>, queue: Seq<usize>, head: int)
    ensures
        0 <= pending(preds, queue, head) <= preds.len(),
        pending(preds, queue, head) == 0 <==> forall|k: int| 0 <= k < preds.len() ==> queue.subrange(0, head).contains(#[trigger] preds[k]),
    decreases preds.len(),
{
    if preds.len() > 0 {
        lemma_pending_bounds(preds.drop_last(), queue, head);
        if pending(preds, queue, head) == 0 {
            assert forall|k: int| 0 <= k < preds.len() implies queue.subrange(0, head).contains(#[trigger] preds[k]) by {
                if k < preds.len() - 1 {
                    assert(preds[k] == preds.drop_last()[k]);
                }
            }
        }
        if forall|k: int| 0 <= k < preds.len() ==> queue.subrange(0, head).contains(#[trigger] preds[k]) {
            assert forall|k: int| 0 <= k < preds.drop_last().len() implies queue.subrange(0, head).contains(#[trigger] preds.drop_last()[k]) by {
                assert(preds.drop_last()[k] == preds[k]);
            }
            assert(queue.subrange(0, head).contains(preds[preds.len() - 1]));
        }
    }
}

/// Processing one more queued node lowers the pending count of a repetition-free list by one
/// exactly when the list holds that node.
proof fn lemma_pending_step(preds: Seq<usize>, queue: Seq<usize>, head: int)
    requires
        0 <= head < queue.len(),
        !queue.subrange(0, head).contains(queue[head]),
        preds.no_duplicates(),
    ensures
        pending(preds, queue, head + 1) == pending(preds, queue, head) - (if preds.contains(queue[head]) { 1int } else { 0int }),
    decreases preds.len(),
{
    if preds.len() > 0 {
        let d = preds.drop_last();
        let x = queue[head];
        assert(d.no_duplicates());
        lemma_pending_step(d, queue, head);
        lemma_prefix_contains(queue, head, preds.last());
        if d.contains(x) {
            let k = choose|k: int| 0 <= k < d.len() && d[k] == x;
            assert(preds[k] == x);
            assert(preds.last() != x);
            assert(preds.contains(x));
        }
        if preds.contains(x) && preds.last() != x {
            let k = choose|k: int| 0 <= k < preds.len() && preds[k] == x;
            assert(d[k] == x);
        }
        if preds.last() == x {
            assert(preds[preds.len() - 1] == x);
        }
    }
}

} // verus!

verus! {

proof fn lemma_pending_none(preds: Seq<usize>, queue: Seq<usize>)
    ensures
        pending(preds, queue, 0) == preds.len(),
    decreases preds.len(),
{
    if preds.len() > 0 {
        lemma_pending_none(preds.drop_last(), queue);
        assert(queue.subrange(0, 0) =~= Seq::<usize>::empty());
    }
}

proof fn lemma_pending_extend(preds: Seq<usize>, queue: Seq<usize>, head: int, x: usize)
    requires
        0 <= head <= queue.len(),
    ensures
        pending(preds, queue.push(x), head) == pending(preds, queue, head),
    decreases preds.len(),
{
    if preds.len() > 0 {
        lemma_pending_extend(preds.drop_last(), queue, head, x);
        assert(queue.push(x).subrange(0, head) =~= queue.subrange(0, head));
    }
}

/// A repetition-free sequence of nodes below `n` has at most `n` entries, and exactly `n`
/// when it holds every node below `n`.
pub proof fn lemma_nodup_below(s: Seq<usize>, n: nat)
    requires
        n <= usize::MAX,
        s.no_duplicates(),
        forall|k: int| 0 <= k < s.len() ==> #[trigger] s[k] < n,
    ensures
        s.len() <= n,
        s.len() == n ==> forall|w: usize| w < n ==> #[trigger] s.contains(w),
        (forall|w: usize| w < n ==> #[trigger] s.contains(w)) ==> s.len() == n,
{
    let t = s.map_values(|x: usize| x as int);
    assert(t.no_duplicates()) by {
        assert forall|i: int, j: int| 0 <= i < t.len() && 0 <= j < t.len() && i != j implies t[i] != t[j] by {
            assert(s[i] != s[j]);
        }
    }
    t.unique_seq_to_set();
    let range = vstd::set_lib::set_int_range(0, n as int);
    vstd::set_lib::lemma_int_range(0, n as int);
    assert(t.to_set().subset_of(range)) by {
        assert forall|y: int| t.to_set().contains(y) implies range.contains(y) by {
            let k = choose|k: int| 0 <= k < t.len() && t[k] == y;
            assert(s[k] < n);
        }
    }
    vstd::set_lib::lemma_len_subset(t.to_set(), range);
    if s.len() == n {
        assert forall|w: usize| w < n implies #[trigger] s.contains(w) by {
            if !s.contains(w) {
                assert(t.to_set().subset_of(range.remove(w as int))) by {
                    assert forall|y: int| t.to_set().contains(y) implies range.remove(w as int).contains(y) by {
                        let k = choose|k: int| 0 <= k < t.len() && t[k] == y;
                        assert(s[k] < n);
                        if y == w as int {
                            assert(s[k] == w);
                        }
                    }
                }
                assert(range.contains(w as int));
                vstd::set_lib::lemma_len_subset(t.to_set(), range.remove(w as int));
            }
        }
    }
    if forall|w: usize| w < n ==> #[trigger] s.contains(w) {
        assert(range.subset_of(t.to_set())) by {
            assert forall|y: int| range.contains(y) implies t.to_set().contains(y) by {
                let w = y as usize;
                assert(w as int == y);
                assert(s.contains(w));
                let k = choose|k: int| 0 <= k < s.len() && s[k] == w;
                assert(t[k] == y);
            }
        }
        vstd::set_lib::lemma_len_subset(range, t.to_set());
    }
}

/// Whether node `v` starts as it must depends only on its own start and the starts of its
/// predecessors.
pub proof fn lemma_start_ok_frame(s: &ListPrecedenceState, e1: Seq<i64>, e2: Seq<i64>, v: usize)
    requires
        e1[v as int] == e2[v as int],
        forall|u: usize| #[trigger] s.arc(u, v) ==> e1[u as int] == e2[u as int],
    ensures
        s.start_ok(e1, v) == s.start_ok(e2, v),
{
    assert forall|u: usize| #[trigger] s.arc(u, v) implies s.fin(e1, u as int) == s.fin(e2, u as int) by {}
    if s.start_ok(e1, v) && e1[v as int] != s.release@[v as int] {
        let u = choose|u: usize| #[trigger] s.arc(u, v) && e1[v as int] == s.fin(e1, u as int);
        assert(s.arc(u, v) && e2[v as int] == s.fin(e2, u as int));
    }
    if s.start_ok(e2, v) && e2[v as int] != s.release@[v as int] {
        let u = choose|u: usize| #[trigger] s.arc(u, v) && e2[v as int] == s.fin(e2, u as int);
        assert(s.arc(u, v) && e1[v as int] == s.fin(e1, u as int));
    }
}

/// When every node outside `queue` has a predecessor outside `queue`, no topological rank
/// leaves a node of rank at most `k` outside `queue`.
proof fn lemma_rank_all_queued(s: &ListPrecedenceState, rank: Seq<nat>, queue: Seq<usize>, k: nat)
    requires
        s.is_topological_rank(rank),
        forall|w: usize| w < s.node_count && !queue.contains(w) ==> exists|u: usize| #[trigger] s.arc(u, w) && !queue.contains(u),
    ensures
        forall|w: usize| w < s.node_count && rank[w as int] <= k ==> #[trigger] queue.contains(w),
    decreases k,
{
    if k > 0 {
        lemma_rank_all_queued(s, rank, queue, (k - 1) as nat);
    }
    assert forall|w: usize| w < s.node_count && rank[w as int] <= k implies #[trigger] queue.contains(w) by {
        if !queue.contains(w) {
            let u = choose|u: usize| #[trigger] s.arc(u, w) && !queue.contains(u);
            assert(rank[u as int] < rank[w as int]);
        }
    }
}

/// Node `w` starts, under `e`, at the later of its release time and the latest finish of the
/// predecessors `u` for which `counted(u)` holds.
pub open spec fn partial_start(s: &ListPrecedenceState, e: Seq<i64>, counted: spec_fn(usize) -> bool, w: usize) -> bool {
    &&& e[w as int] >= s.release@[w as int]
    &&& forall|u: usize| #[trigger] s.arc(u, w) && counted(u) ==> e[w as int] >= s.fin(e, u as int)
    &&& (e[w as int] == s.release@[w as int] || exists|u: usize| #[trigger] s.arc(u, w) && counted(u) && e[w as int] == s.fin(e, u as int))
}

/// `partial_start` counting the predecessors in `done`.
pub open spec fn partial_done(s: &ListPrecedenceState, e: Seq<i64>, done: Seq<usize>, w: usize) -> bool {
    partial_start(s, e, |u: usize| done.contains(u), w)
}

/// `partial_start` counting the predecessors in `done`, and `x` when `w` is among `relaxed`.
pub open spec fn partial_relaxed(s: &ListPrecedenceState, e: Seq<i64>, done: Seq<usize>, x: usize, relaxed: Seq<usize>, w: usize) -> bool {
    partial_start(s, e, |u: usize| done.contains(u) || (u == x && relaxed.contains(w)), w)
}

proof fn lemma_partial_congruent(s: &ListPrecedenceState, e: Seq<i64>, c1: spec_fn(usize) -> bool, c2: spec_fn(usize) -> bool, w: usize)
    requires
        forall|u: usize| #[trigger] s.arc(u, w) ==> c1(u) == c2(u),
    ensures
        partial_start(s, e, c1, w) == partial_start(s, e, c2, w),
{
    if partial_start(s, e, c1, w) && e[w as int] != s.release@[w as int] {
        let u = choose|u: usize| #[trigger] s.arc(u, w) && c1(u) && e[w as int] == s.fin(e, u as int);
        assert(s.arc(u, w) && c2(u) && e[w as int] == s.fin(e, u as int));
    }
    if partial_start(s, e, c2, w) && e[w as int] != s.release@[w as int] {
        let u = choose|u: usize| #[trigger] s.arc(u, w) && c2(u) && e[w as int] == s.fin(e, u as int);
        assert(s.arc(u, w) && c1(u) && e[w as int] == s.fin(e, u as int));
    }
}

/// Every arc between queued nodes goes forward in the queue, and every predecessor of a queued
/// node is queued.
pub open spec fn queue_ordered(s: &ListPrecedenceState, queue: Seq<usize>) -> bool {
    &&& forall|i: int, k: int| 0 <= i < queue.len() && 0 <= k < queue.len() && #[trigger] s.arc(queue[i], queue[k]) ==> i < k
    &&& forall|k: int, u: usize| 0 <= k < queue.len() && #[trigger] s.arc(u, queue[k]) ==> queue.contains(u)
}

impl ListPrecedenceState {
    /// Relaxes the successors of the processed node `x`, whose finish is `fx`: each one's start
    /// is raised to `fx` when later, its count of unprocessed predecessors drops by one, and it
    /// is queued when that count reaches zero.
    fn relax_successors(&self, x: usize, fx: i64, head: usize, queue: &mut Vec<usize>, indegree: &mut Vec<usize>, earliest: &mut Vec<i64>)
        requires
            self.graph_wf(),
            self.durations@.len() == self.node_count,
            self.release@.len() == self.node_count,
            old(indegree)@.len() == self.node_count,
            old(earliest)@.len() == self.node_count,
            1 <= head <= old(queue)@.len() <= self.node_count,
            old(queue)@[head - 1] == x,
            x < self.node_count,
            !self.arc(x, x),
            old(queue)@.no_duplicates(),
            forall|k: int| 0 <= k < old(queue)@.len() ==> #[trigger] old(queue)@[k] < self.node_count,
            forall|w: usize| w < self.node_count ==> #[trigger] old(indegree)@[w as int] == pending(self.predecessors@[w as int]@, old(queue)@, head as int)
                + (if self.arc(x, w) { 1int } else { 0int }),
            forall|w: usize| w < self.node_count ==> (#[trigger] old(queue)@.contains(w) <==> old(indegree)@[w as int] == 0),
            queue_ordered(self, old(queue)@),
            forall|k: int| 0 <= k < head ==> !#[trigger] self.arc(x, old(queue)@[k]),
            forall|w: usize| w < self.node_count && !old(queue)@.subrange(0, head as int).contains(w) ==> #[trigger] partial_done(
                self, old(earliest)@, old(queue)@.subrange(0, head - 1), w),
            fx == self.fin(old(earliest)@, x as int),
        ensures
            old(queue)@.len() <= final(queue)@.len() <= self.node_count,
            final(queue)@.subrange(0, old(queue)@.len() as int) == old(queue)@,
            final(queue)@.no_duplicates(),
            forall|k: int| 0 <= k < final(queue)@.len() ==> #[trigger] final(queue)@[k] < self.node_count,
            final(indegree)@.len() == self.node_count,
            final(earliest)@.len() == self.node_count,
            forall|w: usize| w < self.node_count ==> #[trigger] final(indegree)@[w as int] == pending(self.predecessors@[w as int]@, final(queue)@, head as int),
            forall|w: usize| w < self.node_count ==> (#[trigger] final(queue)@.contains(w) <==> final(indegree)@[w as int] == 0),
            queue_ordered(self, final(queue)@),
            forall|v: usize| v < self.node_count && !self.arc(x, v) ==> #[trigger] final(earliest)@[v as int] == old(earliest)@[v as int],
            forall|w: usize| w < self.node_count && !final(queue)@.subrange(0, head as int).contains(w) ==> #[trigger] partial_done(
                self, final(earliest)@, final(queue)@.subrange(0, head as int), w),
    {
        let ghost n = self.node_count;
        let ghost h = head - 1;
        let ghost done = old(queue)@.subrange(0, h);
        let ghost sx = self.successors@[x as int]@;
        let ghost e0 = old(earliest)@;
        let ghost q0 = old(queue)@;
        let succ_len = self.successors[x].len();
        proof {
            assert forall|w: usize| w < n implies #[trigger] sx.subrange(0, sx.len() as int).contains(w) == self.arc(x, w) by {
                assert(sx.subrange(0, sx.len() as int) =~= sx);
            }
            assert(sx.subrange(0, 0) =~= Seq::<usize>::empty());
            assert forall|w: usize| #[trigger] q0.subrange(0, head as int).contains(w) == (done.contains(w) || w == x) by {
                lemma_prefix_contains(q0, h, w);
            }
            assert forall|w: usize| w < n && !q0.subrange(0, head as int).contains(w) implies #[trigger] partial_relaxed(
                self, e0, done, x, sx.subrange(0, 0), w) by {
                assert(partial_done(self, e0, q0.subrange(0, head - 1), w));
                lemma_partial_congruent(self, e0, |u: usize| q0.subrange(0, head - 1).contains(u),
                    |u: usize| done.contains(u) || (u == x && sx.subrange(0, 0).contains(w)), w);
            }
            assert forall|w: usize| w < n implies #[trigger] old(indegree)@[w as int] == pending(self.predecessors@[w as int]@, q0, head as int)
                + (if sx.subrange(0, sx.len() as int).contains(w) { 1int } else { 0int }) by {}
        }
        let mut j: usize = 0;
        while j < succ_len
            invariant
                self.graph_wf(),
                self.durations@.len() == n,
                self.release@.len() == n,
                n == self.node_count,
                x < n,
                !self.arc(x, x),
                sx == self.successors@[x as int]@,
                succ_len == sx.len(),
                sx.no_duplicates(),
                forall|k: int| 0 <= k < sx.len() ==> #[trigger] sx[k] < n,
                forall|w: usize| w < n ==> (#[trigger] sx.contains(w) == self.arc(x, w)),
                j <= succ_len,
                1 <= head <= q0.len(),
                h == head - 1,
                q0[h] == x,
                done == q0.subrange(0, h),
                fx == self.fin(e0, x as int),
                indegree@.len() == n,
                earliest@.len() == n,
                q0.len() <= queue@.len() <= n,
                queue@.subrange(0, q0.len() as int) == q0,
                queue@.no_duplicates(),
                forall|k: int| 0 <= k < queue@.len() ==> #[trigger] queue@[k] < n,
                forall|w: usize| w < n ==> #[trigger] indegree@[w as int] == pending(self.predecessors@[w as int]@, queue@, head as int)
                    + (if sx.subrange(j as int, sx.len() as int).contains(w) { 1int } else { 0int }),
                forall|w: usize| w < n ==> (#[trigger] queue@.contains(w) <==> indegree@[w as int] == 0),
                queue_ordered(self, queue@),
                forall|w: usize| #[trigger] q0.subrange(0, head as int).contains(w) == (done.contains(w) || w == x),
                forall|k: int| 0 <= k < head ==> !#[trigger] self.arc(x, queue@[k]),
                forall|v: usize| v < n && !sx.subrange(0, j as int).contains(v) ==> #[trigger] earliest@[v as int] == e0[v as int],
                forall|w: usize| w < n && !q0.subrange(0, head as int).contains(w) ==> #[trigger] partial_relaxed(
                    self, earliest@, done, x, sx.subrange(0, j as int), w),
            decreases succ_len - j,
        {
            let sv = self.successors[x][j];
            let ghost eb = earliest@;
            let ghost qb = queue@;
            let ghost ib = indegree@;
            proof {
                assert(sx[j as int] == sv);
                assert(sx.subrange(j as int, sx.len() as int)[0] == sv);
                assert(sx.subrange(j as int, sx.len() as int).contains(sv));
                assert forall|w: usize| #[trigger] sx.subrange(j as int + 1, sx.len() as int).contains(w)
                    == (sx.subrange(j as int, sx.len() as int).contains(w) && w != sv) by {
                    let a = sx.subrange(j as int + 1, sx.len() as int);
                    let b = sx.subrange(j as int, sx.len() as int);
                    if a.contains(w) {
                        let k = choose|k: int| 0 <= k < a.len() && #[trigger] a[k] == w;
                        assert(b[k + 1] == w);
                        assert(sx[j + 1 + k] == w);
                        assert(w != sv);
                    }
                    if b.contains(w) && w != sv {
                        let k = choose|k: int| 0 <= k < b.len() && #[trigger] b[k] == w;
                        assert(k != 0);
                        assert(a[k - 1] == w);
                    }
                }
                assert forall|w: usize| #[trigger] sx.subrange(0, j as int + 1).contains(w)
                    == (sx.subrange(0, j as int).contains(w) || w == sv) by {
                    lemma_prefix_contains(sx, j as int, w);
                }
                assert(sx.contains(sv));
                assert(self.arc(x, sv));
                assert(sv != x);
                assert(!q0.subrange(0, head as int).contains(sv)) by {
                    if q0.subrange(0, head as int).contains(sv) {
                        let k = choose|k: int| 0 <= k < head && #[trigger] q0.subrange(0, head as int)[k] == sv;
                        assert(queue@[k] == q0[k]);
                        assert(self.arc(x, queue@[k]));
                    }
                }
                assert(indegree@[sv as int] >= 1) by {
                    lemma_pending_bounds(self.predecessors@[sv as int]@, queue@, head as int);
                }
            }
            if fx > earliest[sv] {
                earliest.set(sv, fx);
            }
            let d = indegree[sv];
            indegree.set(sv, d - 1);
            if d == 1 {
                proof {
                    lemma_pending_bounds(self.predecessors@[sv as int]@, queue@, head as int);
                    assert(!queue@.contains(sv));
                    lemma_push_fresh(queue@, sv);
                    assert forall|w: usize| w < n implies #[trigger] pending(self.predecessors@[w as int]@, queue@.push(sv), head as int)
                        == pending(self.predecessors@[w as int]@, queue@, head as int) by {
                        lemma_pending_extend(self.predecessors@[w as int]@, queue@, head as int, sv);
                    }
                    assert forall|u: usize| #[trigger] self.arc(u, sv) implies queue@.subrange(0, head as int).contains(u) by {
                        assert(self.predecessors@[sv as int]@.contains(u));
                        let k = choose|k: int| 0 <= k < self.predecessors@[sv as int]@.len() && self.predecessors@[sv as int]@[k] == u;
                        assert(queue@.subrange(0, head as int).contains(self.predecessors@[sv as int]@[k]));
                    }
                }
                queue.push(sv);
                proof {
                    lemma_nodup_below(queue@, n as nat);
                    assert(queue@.subrange(0, q0.len() as int) =~= qb.subrange(0, q0.len() as int));
                    assert(queue@.subrange(0, head as int) =~= qb.subrange(0, head as int));
                    let last = qb.len() as int;
                    assert forall|i: int, k: int| 0 <= i < queue@.len() && 0 <= k < queue@.len() && #[trigger] self.arc(queue@[i], queue@[k])
                        implies i < k by {
                        if i == last && k < last {
                            assert(queue@[i] == sv);
                            assert(self.arc(sv, qb[k]));
                            assert(qb.contains(sv));
                        } else if i < last && k < last {
                            assert(self.arc(qb[i], qb[k]));
                        } else if i == last && k == last {
                            assert(self.arc(sv, sv));
                            assert(queue@.subrange(0, head as int).contains(sv));
                        }
                    }
                    assert forall|k: int, u: usize| 0 <= k < queue@.len() && #[trigger] self.arc(u, queue@[k]) implies queue@.contains(u) by {
                        if k < last {
                            assert(self.arc(u, qb[k]));
                            let i = choose|i: int| 0 <= i < qb.len() && qb[i] == u;
                            assert(queue@[i] == u);
                        } else {
                            assert(queue@.subrange(0, head as int).contains(u));
                            let i = choose|i: int| 0 <= i < head && #[trigger] queue@.subrange(0, head as int)[i] == u;
                            assert(queue@[i] == u);
                        }
                    }
                    assert forall|k: int| 0 <= k < head implies !#[trigger] self.arc(x, queue@[k]) by {
                        assert(queue@[k] == qb[k]);
                    }
                }
            }
            proof {
                assert forall|w: usize| w < n implies #[trigger] indegree@[w as int] == pending(self.predecessors@[w as int]@, queue@, head as int)
                    + (if sx.subrange(j as int + 1, sx.len() as int).contains(w) { 1int } else { 0int }) by {
                    if w != sv {
                        assert(indegree@[w as int] == ib[w as int]);
                    }
                }
                assert forall|w: usize| w < n implies (#[trigger] queue@.contains(w) <==> indegree@[w as int] == 0) by {
                    if d != 1 {
                        if w == sv {
                            assert(indegree@[w as int] == d - 1);
                        }
                    }
                }
                assert forall|v: usize| v < n && !sx.subrange(0, j as int + 1).contains(v) implies #[trigger] earliest@[v as int] == e0[v as int] by {
                    assert(v != sv);
                }
                assert forall|w: usize| w < n && !q0.subrange(0, head as int).contains(w) implies #[trigger] partial_relaxed(
                    self, earliest@, done, x, sx.subrange(0, j as int + 1), w) by {
                    let c0 = |u: usize| done.contains(u) || (u == x && sx.subrange(0, j as int).contains(w));
                    let c1 = |u: usize| done.contains(u) || (u == x && sx.subrange(0, j as int + 1).contains(w));
                    assert(partial_relaxed(self, eb, done, x, sx.subrange(0, j as int), w));
                    assert(partial_start(self, eb, c0, w));
                    assert forall|u: usize| #[trigger] self.arc(u, w) && c1(u) implies earliest@[u as int] == eb[u as int] && eb[u as int] == e0[u as int] by {
                        if done.contains(u) {
                            assert(q0.subrange(0, head as int).contains(u));
                            assert(!self.arc(x, u)) by {
                                let k = choose|k: int| 0 <= k < done.len() && done[k] == u;
                                assert(queue@[k] == u);
                            }
                            assert(!sx.subrange(0, j as int + 1).contains(u)) by {
                                if sx.subrange(0, j as int + 1).contains(u) {
                                    let k = choose|k: int| 0 <= k < j + 1 && #[trigger] sx.subrange(0, j as int + 1)[k] == u;
                                    assert(sx[k] == u);
                                    assert(sx.contains(u));
                                }
                            }
                        } else {
                            assert(u == x);
                            assert(!sx.subrange(0, j as int + 1).contains(x)) by {
                                if sx.subrange(0, j as int + 1).contains(x) {
                                    let k = choose|k: int| 0 <= k < j + 1 && #[trigger] sx.subrange(0, j as int + 1)[k] == x;
                                    assert(sx[k] == x);
                                    assert(sx.contains(x));
                                }
                            }
                        }
                    }
                    assert forall|u: usize| #[trigger] self.arc(u, w) && c1(u) implies earliest@[w as int] >= self.fin(earliest@, u as int) by {
                        if !c0(u) {
                            assert(u == x && w == sv);
                        }
                    }
                    if earliest@[w as int] != self.release@[w as int] {
                        if w == sv && earliest@[w as int] == fx {
                            assert(self.arc(x, w) && c1(x) && earliest@[w as int] == self.fin(earliest@, x as int));
                        } else {
                            assert(earliest@[w as int] == eb[w as int]);
                            let u = choose|u: usize| #[trigger] self.arc(u, w) && c0(u) && eb[w as int] == self.fin(eb, u as int);
                            assert(self.arc(u, w) && c1(u) && earliest@[w as int] == self.fin(earliest@, u as int));
                        }
                    }
                }
            }
            j = j + 1;
        }
        proof {
            assert(sx.subrange(j as int, sx.len() as int) =~= Seq::<usize>::empty());
            assert(sx.subrange(0, j as int) =~= sx);
            assert(queue@.subrange(0, head as int) =~= q0.subrange(0, head as int)) by {
                assert forall|k: int| 0 <= k < head implies queue@.subrange(0, head as int)[k] == q0.subrange(0, head as int)[k] by {
                    assert(queue@[k] == queue@.subrange(0, q0.len() as int)[k]);
                }
            }
            assert forall|v: usize| v < n && !self.arc(x, v) implies #[trigger] earliest@[v as int] == e0[v as int] by {
                assert(!sx.contains(v));
            }
            assert forall|w: usize| w < n && !queue@.subrange(0, head as int).contains(w) implies #[trigger] partial_done(
                self, earliest@, queue@.subrange(0, head as int), w) by {
                assert(partial_relaxed(self, earliest@, done, x, sx.subrange(0, j as int), w));
                lemma_partial_congruent(self, earliest@, |u: usize| done.contains(u) || (u == x && sx.subrange(0, j as int).contains(w)),
                    |u: usize| queue@.subrange(0, head as int).contains(u), w);
            }
        }
    }
}

} // verus!

verus! {

/// The state of the topological pass between two processed nodes: `queue[..head]` are
/// processed, `indegree` counts unprocessed predecessors, `earliest` holds final starts for
/// processed nodes and partial ones for the others.
pub open spec fn kahn_inv(
    s: &ListPrecedenceState,
    queue: Seq<usize>,
    head: int,
    indegree: Seq<usize>,
    earliest: Seq<i64>,
    finishes: Seq<i64>,
    makespan: i64,
) -> bool {
    let n = s.node_count;
    &&& s.graph_wf()
    &&& s.durations@.len() == n
    &&& s.release@.len() == n
    &&& indegree.len() == n
    &&& earliest.len() == n
    &&& finishes.len() == n
    &&& 0 <= head <= queue.len() <= n
    &&& queue.no_duplicates()
    &&& forall|k: int| 0 <= k < queue.len() ==> #[trigger] queue[k] < n
    &&& forall|w: usize| w < n ==> #[trigger] indegree[w as int] == pending(s.predecessors@[w as int]@, queue, head)
    &&& forall|w: usize| w < n ==> (#[trigger] queue.contains(w) <==> indegree[w as int] == 0)
    &&& queue_ordered(s, queue)
    &&& forall|w: usize| w < n && !queue.subrange(0, head).contains(w) ==> #[trigger] partial_done(s, earliest, queue.subrange(0, head), w)
    &&& forall|k: int| 0 <= k < head ==> #[trigger] s.start_ok(earliest, queue[k])
    &&& forall|k: int| 0 <= k < head ==> #[trigger] finishes[queue[k] as int] == s.fin(earliest, queue[k] as int)
    &&& ListPrecedenceState::is_makespan_of(makespan, finishes, queue.subrange(0, head))
}

/// Before processing `queue[head]`: it starts as it must, has no arc to itself or to a
/// processed node, and the counts and partial starts are ready for relaxing its successors.
proof fn lemma_kahn_before_step(
    s: &ListPrecedenceState,
    queue: Seq<usize>,
    head: int,
    indegree: Seq<usize>,
    earliest: Seq<i64>,
    finishes: Seq<i64>,
    makespan: i64,
)
    requires
        kahn_inv(s, queue, head, indegree, earliest, finishes, makespan),
        head < queue.len(),
    ensures
        s.start_ok(earliest, queue[head]),
        !s.arc(queue[head], queue[head]),
        forall|k: int| 0 <= k < head + 1 ==> !#[trigger] s.arc(queue[head], queue[k]),
        forall|w: usize| w < s.node_count ==> #[trigger] indegree[w as int] == pending(s.predecessors@[w as int]@, queue, head + 1)
            + (if s.arc(queue[head], w) { 1int } else { 0int }),
        forall|w: usize| w < s.node_count && !queue.subrange(0, head + 1).contains(w) ==> #[trigger] partial_done(
            s, earliest, queue.subrange(0, head + 1 - 1), w),
{
    let x = queue[head];
    let h = head;
    let n = s.node_count;
    let done = queue.subrange(0, h);
    assert(!done.contains(x)) by {
        if done.contains(x) {
            let k = choose|k: int| 0 <= k < done.len() && done[k] == x;
            assert(queue[k] == queue[h]);
        }
    }
    assert(queue.contains(x));
    lemma_pending_bounds(s.predecessors@[x as int]@, queue, h);
    assert(partial_done(s, earliest, done, x));
    assert forall|u: usize| #[trigger] s.arc(u, x) implies done.contains(u) by {
        assert(s.predecessors@[x as int]@.contains(u));
        let k = choose|k: int| 0 <= k < s.predecessors@[x as int]@.len() && s.predecessors@[x as int]@[k] == u;
        assert(done.contains(s.predecessors@[x as int]@[k]));
    }
    assert(!s.arc(x, x)) by {
        if s.arc(x, x) {
            assert(s.arc(queue[h], queue[h]));
        }
    }
    assert forall|k: int| 0 <= k < h + 1 implies !#[trigger] s.arc(x, queue[k]) by {
        if s.arc(x, queue[k]) {
            assert(s.arc(queue[h], queue[k]));
        }
    }
    assert forall|w: usize| w < n implies #[trigger] indegree[w as int] == pending(s.predecessors@[w as int]@, queue, h + 1)
        + (if s.arc(x, w) { 1int } else { 0int }) by {
        lemma_pending_step(s.predecessors@[w as int]@, queue, h);
        assert(s.predecessors@[w as int]@.contains(x) == s.arc(x, w));
    }
    assert forall|w: usize| w < n && !queue.subrange(0, h + 1).contains(w) implies #[trigger] partial_done(
        s, earliest, queue.subrange(0, h + 1 - 1), w) by {
        lemma_prefix_contains(queue, h, w);
        assert(queue.subrange(0, h + 1 - 1) =~= done);
    }
}

/// After processing `q0[head]` and relaxing its successors, the invariant holds one node
/// further.
proof fn lemma_kahn_after_step(
    s: &ListPrecedenceState,
    q0: Seq<usize>,
    head: int,
    e0: Seq<i64>,
    f0: Seq<i64>,
    m0: i64,
    i0: Seq<usize>,
    queue: Seq<usize>,
    indegree: Seq<usize>,
    earliest: Seq<i64>,
    finishes: Seq<i64>,
    makespan: i64,
)
    requires
        kahn_inv(s, q0, head, i0, e0, f0, m0),
        head < q0.len(),
        s.start_ok(e0, q0[head]),
        forall|k: int| 0 <= k < head + 1 ==> !#[trigger] s.arc(q0[head], q0[k]),
        finishes == f0.update(q0[head] as int, s.fin(e0, q0[head] as int)),
        makespan == (if s.fin(e0, q0[head] as int) > m0 { s.fin(e0, q0[head] as int) } else { m0 }),
        q0.len() <= queue.len() <= s.node_count,
        queue.subrange(0, q0.len() as int) == q0,
        queue.no_duplicates(),
        forall|k: int| 0 <= k < queue.len() ==> #[trigger] queue[k] < s.node_count,
        indegree.len() == s.node_count,
        earliest.len() == s.node_count,
        forall|w: usize| w < s.node_count ==> #[trigger] indegree[w as int] == pending(s.predecessors@[w as int]@, queue, head + 1),
        forall|w: usize| w < s.node_count ==> (#[trigger] queue.contains(w) <==> indegree[w as int] == 0),
        queue_ordered(s, queue),
        forall|v: usize| v < s.node_count && !s.arc(q0[head], v) ==> #[trigger] earliest[v as int] == e0[v as int],
        forall|w: usize| w < s.node_count && !queue.subrange(0, head + 1).contains(w) ==> #[trigger] partial_done(
            s, earliest, queue.subrange(0, head + 1), w),
    ensures
        kahn_inv(s, queue, head + 1, indegree, earliest, finishes, makespan),
{
    let x = q0[head];
    let h = head;
    let p1 = queue.subrange(0, h + 1);
    let done = q0.subrange(0, h);
    let fx = s.fin(e0, x as int);
    assert forall|k: int| 0 <= k < q0.len() implies queue[k] == q0[k] by {
        assert(queue.subrange(0, q0.len() as int)[k] == q0[k]);
    }
    assert forall|k: int| 0 <= k < h + 1 implies #[trigger] earliest[queue[k] as int] == e0[queue[k] as int] by {
        assert(queue[k] == q0[k]);
        assert(!s.arc(x, q0[k]));
    }
    assert forall|k: int| 0 <= k < h + 1 implies #[trigger] s.start_ok(earliest, queue[k]) by {
        let v = queue[k];
        assert forall|u: usize| #[trigger] s.arc(u, v) implies earliest[u as int] == e0[u as int] by {
            assert(queue.contains(u));
            let i = choose|i: int| 0 <= i < queue.len() && queue[i] == u;
            assert(s.arc(queue[i], queue[k]));
            assert(earliest[queue[i] as int] == e0[queue[i] as int]);
        }
        lemma_start_ok_frame(s, earliest, e0, v);
        if k < h {
            assert(s.start_ok(e0, q0[k]));
        }
    }
    assert forall|k: int| 0 <= k < h + 1 implies #[trigger] finishes[queue[k] as int] == s.fin(earliest, queue[k] as int) by {
        assert(earliest[queue[k] as int] == e0[queue[k] as int]);
        if k < h {
            assert(queue[k] == q0[k]);
            assert(q0[k] != x) by {
                assert(q0[h] == x);
            }
            assert(f0[q0[k] as int] == s.fin(e0, q0[k] as int));
        }
    }
    assert forall|k: int| 0 <= k < p1.len() implies makespan >= #[trigger] finishes[p1[k] as int] by {
        assert(p1[k] == queue[k]);
        if k < h {
            assert(done[k] == q0[k]);
            assert(q0[k] != x) by {
                assert(q0[h] == x);
            }
        }
    }
    if makespan != 0 {
        if makespan == fx {
            assert(p1[h] == x);
            assert(makespan == finishes[p1[h] as int]);
        } else {
            let k = choose|k: int| 0 <= k < done.len() && m0 == #[trigger] f0[done[k] as int];
            assert(p1[k] == done[k]);
            assert(done[k] != x) by {
                assert(q0[k] != q0[h]);
            }
            assert(makespan == finishes[p1[k] as int]);
        }
    }
}

/// When the queue is exhausted holding every node: the starts form a schedule and the queue
/// order is a topological order.
proof fn lemma_kahn_done_all(
    s: &ListPrecedenceState,
    queue: Seq<usize>,
    indegree: Seq<usize>,
    earliest: Seq<i64>,
    finishes: Seq<i64>,
    makespan: i64,
)
    requires
        kahn_inv(s, queue, queue.len() as int, indegree, earliest, finishes, makespan),
        queue.len() == s.node_count,
    ensures
        s.is_acyclic(),
        s.is_schedule(earliest),
        forall|v: int| 0 <= v < s.node_count ==> #[trigger] finishes[v] == s.fin(earliest, v),
        ListPrecedenceState::is_makespan_of(makespan, finishes, queue),
{
    let n = s.node_count;
    lemma_nodup_below(queue, n as nat);
    assert(queue.subrange(0, queue.len() as int) =~= queue);
    assert forall|w: usize| w < n implies #[trigger] s.start_ok(earliest, w) by {
        assert(queue.contains(w));
        let i = choose|i: int| 0 <= i < queue.len() && queue[i] == w;
        assert(s.start_ok(earliest, queue[i]));
    }
    assert forall|v: int| 0 <= v < n implies #[trigger] finishes[v] == s.fin(earliest, v) by {
        assert(queue.contains(v as usize));
        let i = choose|i: int| 0 <= i < queue.len() && queue[i] == v as usize;
        assert(finishes[queue[i] as int] == s.fin(earliest, queue[i] as int));
    }
    let rank = Seq::new(n as nat, |v: int| queue.index_of(v as usize) as nat);
    assert forall|u: usize, v: usize| #[trigger] s.arc(u, v) implies rank[u as int] < rank[v as int] by {
        assert(queue.contains(v));
        assert(queue.contains(u));
        let i = queue.index_of(u);
        let k = queue.index_of(v);
        assert(queue[i] == u);
        assert(queue[k] == v);
        assert(s.arc(queue[i], queue[k]));
    }
    assert(s.is_topological_rank(rank));
}

/// A node that never reached the queue has a predecessor that never reached it.
proof fn lemma_unqueued_pred(s: &ListPrecedenceState, queue: Seq<usize>, indegree: Seq<usize>, w: usize)
    requires
        s.graph_wf(),
        w < s.node_count,
        indegree.len() == s.node_count,
        indegree[w as int] == pending(s.predecessors@[w as int]@, queue, queue.len() as int),
        queue.contains(w) <==> indegree[w as int] == 0,
        !queue.contains(w),
    ensures
        exists|u: usize| #[trigger] s.arc(u, w) && !queue.contains(u),
{
    lemma_pending_bounds(s.predecessors@[w as int]@, queue, queue.len() as int);
    assert(queue.subrange(0, queue.len() as int) =~= queue);
    let k = choose|k: int| 0 <= k < s.predecessors@[w as int]@.len()
        && !queue.subrange(0, queue.len() as int).contains(#[trigger] s.predecessors@[w as int]@[k]);
    let u = s.predecessors@[w as int]@[k];
    assert(s.predecessors@[w as int]@.contains(u));
    assert(s.arc(u, w) && !queue.contains(u));
}

/// Every node that never reached the queue has a predecessor that never reached it.
proof fn lemma_unqueued_preds(s: &ListPrecedenceState, queue: Seq<usize>, indegree: Seq<usize>)
    requires
        s.graph_wf(),
        indegree.len() == s.node_count,
        forall|w: usize| w < s.node_count ==> #[trigger] indegree[w as int] == pending(s.predecessors@[w as int]@, queue, queue.len() as int),
        forall|w: usize| w < s.node_count ==> (#[trigger] queue.contains(w) <==> indegree[w as int] == 0),
    ensures
        forall|w: usize| w < s.node_count && !queue.contains(w) ==> exists|u: usize| #[trigger] s.arc(u, w) && !queue.contains(u),
{
    assert forall|w: usize| w < s.node_count && !queue.contains(w) implies exists|u: usize| #[trigger] s.arc(u, w) && !queue.contains(u) by {
        lemma_unqueued_pred(s, queue, indegree, w);
    }
}

/// A graph in which some node lies outside a set that every outside node has a predecessor
/// outside of has no topological order.
proof fn lemma_unclosed_cyclic(s: &ListPrecedenceState, queue: Seq<usize>, missing: usize)
    requires
        missing < s.node_count,
        !queue.contains(missing),
        forall|w: usize| w < s.node_count && !queue.contains(w) ==> exists|u: usize| #[trigger] s.arc(u, w) && !queue.contains(u),
    ensures
        !s.is_acyclic(),
{
    if exists|rk: Seq<nat>| s.is_topological_rank(rk) {
        let rk = choose|rk: Seq<nat>| s.is_topological_rank(rk);
        lemma_rank_all_queued(s, rk, queue, rk[missing as int]);
    }
}

impl ListPrecedenceState {
    /// Processes the nodes in topological order (Kahn's algorithm): returns the processed
    /// nodes in order, the starts and finishes they get and the largest finish (at least 0).
    /// Every node is processed exactly when the graph has no cycle.
    fn topological_schedule(&self) -> (r: (Vec<usize>, Vec<i64>, Vec<i64>, i64))
        requires
            self.graph_wf(),
            self.durations@.len() == self.node_count,
            self.release@.len() == self.node_count,
        ensures
            r.0@.no_duplicates(),
            r.0@.len() <= self.node_count,
            forall|k: int| 0 <= k < r.0@.len() ==> #[trigger] r.0@[k] < self.node_count,
            r.0@.len() == self.node_count ==> self.is_acyclic() && self.is_schedule(r.1@)
                && r.2@.len() == self.node_count
                && (forall|v: int| 0 <= v < self.node_count ==> #[trigger] r.2@[v] == self.fin(r.1@, v))
                && Self::is_makespan_of(r.3, r.2@, r.0@),
            r.0@.len() < self.node_count ==> !self.is_acyclic(),
    {
        let n = self.node_count;
        let mut indegree: Vec<usize> = Vec::new();
        let mut queue: Vec<usize> = Vec::new();
        let mut earliest = copy_i64s(&self.release);
        let mut finishes: Vec<i64> = filled(0i64, n);
        let mut v: usize = 0;
        while v < n
            invariant
                self.graph_wf(),
                n == self.node_count,
                v <= n,
                indegree@.len() == v,
                forall|w: int| 0 <= w < v ==> #[trigger] indegree@[w] == self.predecessors@[w]@.len(),
                queue@.no_duplicates(),
                forall|k: int| 0 <= k < queue@.len() ==> #[trigger] queue@[k] < v,
                forall|w: usize| w < v ==> (#[trigger] queue@.contains(w) <==> indegree@[w as int] == 0),
            decreases n - v,
        {
            let d = self.predecessors[v].len();
            indegree.push(d);
            if d == 0 {
                proof {
                    assert(!queue@.contains(v));
                    lemma_push_fresh(queue@, v);
                }
                queue.push(v);
            }
            v = v + 1;
        }
        proof {
            lemma_nodup_below(queue@, n as nat);
            assert forall|w: usize| w < n implies #[trigger] indegree@[w as int] == pending(self.predecessors@[w as int]@, queue@, 0) by {
                lemma_pending_none(self.predecessors@[w as int]@, queue@);
            }
            assert forall|k: int, u: usize| 0 <= k < queue@.len() && #[trigger] self.arc(u, queue@[k]) implies false by {
                let w = queue@[k];
                assert(queue@.contains(w));
                assert(self.predecessors@[w as int]@.contains(u));
            }
            assert(queue_ordered(self, queue@));
            assert(queue@.subrange(0, 0) =~= Seq::<usize>::empty());
            assert forall|w: usize| w < n && !queue@.subrange(0, 0).contains(w) implies #[trigger] partial_done(self, earliest@, queue@.subrange(0, 0), w) by {
                assert(earliest@[w as int] == self.release@[w as int]);
            }
        }
        let mut head: usize = 0;
        let mut makespan: i64 = 0;
        while head < queue.len()
            invariant
                n == self.node_count,
                kahn_inv(self, queue@, head as int, indegree@, earliest@, finishes@, makespan),
            decreases n - head,
        {
            let x = queue[head];
            let ghost q0 = queue@;
            let ghost e0 = earliest@;
            let ghost f0 = finishes@;
            let ghost m0 = makespan;
            let ghost i0 = indegree@;
            let ghost h = head as int;
            proof {
                lemma_kahn_before_step(self, queue@, head as int, indegree@, earliest@, finishes@, makespan);
            }
            head = head + 1;
            let fx = sat_add_i64(earliest[x], self.durations[x]);
            finishes.set(x, fx);
            if fx > makespan {
                makespan = fx;
            }
            self.relax_successors(x, fx, head, &mut queue, &mut indegree, &mut earliest);
            proof {
                lemma_kahn_after_step(self, q0, h, e0, f0, m0, i0, queue@, indegree@, earliest@, finishes@, makespan);
            }
        }
        proof {
            lemma_nodup_below(queue@, n as nat);
            if queue@.len() == n {
                lemma_kahn_done_all(self, queue@, indegree@, earliest@, finishes@, makespan);
            } else {
                lemma_unqueued_preds(self, queue@, indegree@);
                let missing = choose|w: usize| w < n && !#[trigger] queue@.contains(w);
                lemma_unclosed_cyclic(self, queue@, missing);
            }
        }
        (queue, earliest, finishes, makespan)
    }
}

} // verus!

verus! {

/// `m` is the largest entry of `f`, or 0 when `f` is empty.
pub open spec fn is_max_of(m: i64, f: Seq<i64>) -> bool {
    &&& forall|k: int| 0 <= k < f.len() ==> m >= #[trigger] f[k]
    &&& (if f.len() == 0 { m == 0 } else { exists|k: int| 0 <= k < f.len() && m == #[trigger] f[k] })
}

/// A vector of `n` zeros replacing `v`.
fn zeros_like(v: &mut Vec<i64>)
    ensures
        final(v)@.len() == old(v)@.len(),
        forall|k: int| 0 <= k < old(v)@.len() ==> #[trigger] final(v)@[k] == 0,
{
    let mut i: usize = 0;
    while i < v.len()
        invariant
            i <= v@.len(),
            v@.len() == old(v)@.len(),
            forall|k: int| 0 <= k < i ==> #[trigger] v@[k] == 0,
        decreases v@.len() - i,
    {
        v.set(i, 0);
        i = i + 1;
    }
}

/// A copy of a vector of arcs.
fn copy_edges(v: &Vec<Edge>) -> (r: Vec<Edge>)
    ensures
        r@ == v@,
{
    let mut r: Vec<Edge> = Vec::new();
    let mut i: usize = 0;
    while i < v.len()
        invariant
            i <= v@.len(),
            r@ == v@.subrange(0, i as int),
        decreases v@.len() - i,
    {
        r.push(v[i]);
        i = i + 1;
        assert(r@ =~= v@.subrange(0, i as int));
    }
    assert(v@.subrange(0, i as int) =~= v@);
    r
}

impl ListPrecedenceState {
    /// The latest finish, or 0 without nodes.
    pub fn max_finish(&self) -> (r: i64)
        ensures
            is_max_of(r, self.finishes@),
    {
        let mut best: i64 = 0;
        let mut i: usize = 0;
        while i < self.finishes.len()
            invariant
                i <= self.finishes@.len(),
                forall|k: int| 0 <= k < i ==> best >= #[trigger] self.finishes@[k],
                i == 0 ==> best == 0,
                i > 0 ==> exists|k: int| 0 <= k < i && best == #[trigger] self.finishes@[k],
            decreases self.finishes@.len() - i,
        {
            if i == 0 || self.finishes[i] > best {
                best = self.finishes[i];
            }
            i = i + 1;
        }
        best
    }

    /// The fields that the schedule bookkeeping leaves alone.
    pub open spec fn same_structure(&self, other: &Self) -> bool {
        &&& self.graph_same(other)
        &&& self.node_count == other.node_count
        &&& self.durations == other.durations
        &&& self.assigned_counts == other.assigned_counts
        &&& self.owner_elements == other.owner_elements
        &&& self.owner_edges == other.owner_edges
        &&& self.owner_invalid_counts == other.owner_invalid_counts
        &&& self.owner_violation_counts == other.owner_violation_counts
        &&& self.invalid_fixed_edges == other.invalid_fixed_edges
        &&& self.owner_invalid_total == other.owner_invalid_total
        &&& self.owner_violation_total == other.owner_violation_total
        &&& self.assignment_penalty == other.assignment_penalty
        &&& self.score == other.score
        &&& self.hard_penalty == other.hard_penalty
        &&& self.release == other.release
        &&& self.pin == other.pin
        &&& self.disruption_baseline == other.disruption_baseline
    }

    /// Sets the start of `node` (and so its finish), keeping the makespan the latest finish.
    pub fn replace_earliest(&mut self, node: usize, new_earliest: i64)
        requires
            old(self).wf(),
            node < old(self).node_count,
        ensures
            final(self).wf(),
            final(self).same_structure(old(self)),
            final(self).cycle_penalty == old(self).cycle_penalty,
            final(self).cycle_added_edges == old(self).cycle_added_edges,
            final(self).earliest@ == old(self).earliest@.update(node as int, new_earliest),
            final(self).finishes@ == old(self).finishes@.update(node as int, clamp_i64(new_earliest + old(self).durations@[node as int])),
            is_max_of(old(self).makespan, old(self).finishes@) ==> is_max_of(final(self).makespan, final(self).finishes@),
            clamp_i64(new_earliest + old(self).durations@[node as int]) >= old(self).makespan
                ==> final(self).makespan == clamp_i64(new_earliest + old(self).durations@[node as int]),
            clamp_i64(new_earliest + old(self).durations@[node as int]) < old(self).makespan
                && old(self).finishes@[node as int] == old(self).makespan ==> is_max_of(final(self).makespan, final(self).finishes@),
            clamp_i64(new_earliest + old(self).durations@[node as int]) < old(self).makespan
                && old(self).finishes@[node as int] != old(self).makespan ==> final(self).makespan == old(self).makespan,
    {
        let old_finish = self.finishes[node];
        self.earliest.set(node, new_earliest);
        let new_finish = sat_add_i64(new_earliest, self.durations[node]);
        self.finishes.set(node, new_finish);
        if new_finish >= self.makespan {
            self.makespan = new_finish;
            proof {
                if is_max_of(old(self).makespan, old(self).finishes@) {
                    assert(self.finishes@[node as int] == new_finish);
                }
            }
        } else if old_finish == self.makespan {
            self.makespan = self.max_finish();
        } else {
            proof {
                if is_max_of(old(self).makespan, old(self).finishes@) {
                    let k = choose|k: int| 0 <= k < old(self).finishes@.len() && old(self).makespan == #[trigger] old(self).finishes@[k];
                    assert(k != node);
                    assert(self.finishes@[k] == old(self).finishes@[k]);
                }
            }
        }
    }

    /// Marks the graph cyclic because of the arcs a route change added, keeping the cached
    /// starts so that removing exactly those arcs can restore them.
    pub fn mark_cyclic_from_route_change(&mut self, change: &RouteChange)
        requires
            old(self).wf(),
            forall|k: int| 0 <= k < change.added_edges@.len() ==> (#[trigger] change.added_edges@[k]).0 < old(self).node_count
                && change.added_edges@[k].1 < old(self).node_count,
        ensures
            final(self).wf(),
            final(self).same_structure(old(self)),
            final(self).cycle_added_edges@ == change.added_edges@,
            final(self).cycle_penalty == old(self).node_count,
            final(self).makespan == 0,
            final(self).earliest == old(self).earliest,
            final(self).finishes == old(self).finishes,
    {
        self.cycle_added_edges = copy_edges(&change.added_edges);
        self.cycle_penalty = self.node_count;
        self.makespan = 0;
    }

    /// Marks the graph cyclic with no cached starts: every start and finish becomes 0.
    pub fn mark_cyclic_without_cache(&mut self)
        requires
            old(self).wf(),
        ensures
            final(self).wf(),
            final(self).same_structure(old(self)),
            final(self).cycle_added_edges@.len() == 0,
            final(self).cycle_penalty == old(self).node_count,
            final(self).makespan == 0,
            final(self).earliest@.len() == old(self).node_count,
            final(self).finishes@.len() == old(self).node_count,
            forall|v: int| 0 <= v < old(self).node_count ==> #[trigger] final(self).earliest@[v] == 0,
            forall|v: int| 0 <= v < old(self).node_count ==> #[trigger] final(self).finishes@[v] == 0,
    {
        zeros_like(&mut self.earliest);
        zeros_like(&mut self.finishes);
        self.cycle_added_edges = Vec::new();
        self.cycle_penalty = self.node_count;
        self.makespan = 0;
    }

    /// Whether any arc of `edges` is in the graph.
    fn any_edge_present(&self, edges: &Vec<Edge>) -> (r: bool)
        requires
            self.graph_wf(),
            forall|k: int| 0 <= k < edges@.len() ==> (#[trigger] edges@[k]).0 < self.node_count,
        ensures
            r == exists|k: int| 0 <= k < edges@.len() && self.arc_count((#[trigger] edges@[k]).0, edges@[k].1) > 0,
    {
        let mut i: usize = 0;
        while i < edges.len()
            invariant
                self.graph_wf(),
                i <= edges@.len(),
                forall|k: int| 0 <= k < edges@.len() ==> (#[trigger] edges@[k]).0 < self.node_count,
                forall|k: int| 0 <= k < i ==> self.arc_count((#[trigger] edges@[k]).0, edges@[k].1) <= 0,
            decreases edges@.len() - i,
        {
            if self.contains_edge(edges[i]) {
                return true;
            }
            i = i + 1;
        }
        false
    }

    /// Clears a cycle that the arcs of the last change alone caused, when this change only
    /// removes arcs, none of the mark's arcs is left, and every arc it removed is one of the
    /// mark's: the cached starts come back.
    pub fn recover_cached_cycle(&mut self, change: &RouteChange) -> (r: bool)
        requires
            old(self).wf(),
        ensures
            final(self).wf(),
            final(self).same_structure(old(self)),
            r == cycle_recoverable(old(self), change),
            r ==> final(self).cycle_penalty == 0 && final(self).cycle_added_edges@.len() == 0 && final(self).earliest == old(self).earliest
                && final(self).finishes == old(self).finishes && is_max_of(final(self).makespan, final(self).finishes@),
            !r ==> *final(self) == *old(self),
    {
        if self.cycle_added_edges.len() == 0 || change.added_edges.len() > 0 {
            return false;
        }
        if self.any_edge_present(&self.cycle_added_edges) {
            return false;
        }
        if !edges_within(&change.removed_edges, &self.cycle_added_edges) {
            return false;
        }
        self.cycle_penalty = 0;
        self.cycle_added_edges = Vec::new();
        self.makespan = self.max_finish();
        true
    }
}

} // verus!

verus! {

/// `m` is the makespan of the finishes `f`: their largest value, and at least 0.
pub open spec fn is_makespan(m: i64, f: Seq<i64>) -> bool {
    &&& m >= 0
    &&& forall|k: int| 0 <= k < f.len() ==> m >= #[trigger] f[k]
    &&& (m == 0 || exists|k: int| 0 <= k < f.len() && m == #[trigger] f[k])
}

/// Two states with the same nodes, arcs, durations and release times agree on acyclicity
/// and on which starts are schedules.
pub proof fn lemma_same_schedule_inputs(a: &ListPrecedenceState, b: &ListPrecedenceState, e: Seq<i64>)
    requires
        a.node_count == b.node_count,
        a.edge_counts@ == b.edge_counts@,
        a.durations@ == b.durations@,
        a.release@ == b.release@,
    ensures
        a.is_acyclic() == b.is_acyclic(),
        a.is_schedule(e) == b.is_schedule(e),
        forall|u: int| #![trigger a.fin(e, u)] #![trigger b.fin(e, u)] a.fin(e, u) == b.fin(e, u),
        forall|u: usize, v: usize| #![trigger a.arc(u, v)] #![trigger b.arc(u, v)] a.arc(u, v) == b.arc(u, v),
        forall|v: usize| #![trigger a.start_ok(e, v)] #![trigger b.start_ok(e, v)] v < a.node_count ==> a.start_ok(e, v) == b.start_ok(e, v),
{
    assert forall|u: usize, v: usize| #![trigger a.arc(u, v)] #![trigger b.arc(u, v)] a.arc(u, v) == b.arc(u, v) by {}
    assert forall|u: int| #![trigger a.fin(e, u)] #![trigger b.fin(e, u)] a.fin(e, u) == b.fin(e, u) by {}
    if a.is_acyclic() {
        let r = choose|r: Seq<nat>| a.is_topological_rank(r);
        assert(b.is_topological_rank(r));
    }
    if b.is_acyclic() {
        let r = choose|r: Seq<nat>| b.is_topological_rank(r);
        assert(a.is_topological_rank(r));
    }
    assert forall|v: usize| #![trigger a.start_ok(e, v)] #![trigger b.start_ok(e, v)] v < a.node_count implies a.start_ok(e, v) == b.start_ok(e, v) by {
        if a.start_ok(e, v) && e[v as int] != a.release@[v as int] {
            let u = choose|u: usize| #[trigger] a.arc(u, v) && e[v as int] == a.fin(e, u as int);
            assert(b.arc(u, v) && e[v as int] == b.fin(e, u as int));
        }
        if b.start_ok(e, v) && e[v as int] != b.release@[v as int] {
            let u = choose|u: usize| #[trigger] b.arc(u, v) && e[v as int] == b.fin(e, u as int);
            assert(a.arc(u, v) && e[v as int] == a.fin(e, u as int));
        }
    }
}

impl ListPrecedenceState {
    /// Recomputes every start from scratch in topological order. Without a cycle the starts
    /// become the schedule of the graph; with one, the state is marked cyclic.
    pub fn rebuild_graph_summary(&mut self)
        requires
            old(self).wf(),
        ensures
            final(self).wf(),
            final(self).same_structure(old(self)),
            final(self).is_acyclic() == old(self).is_acyclic(),
            final(self).is_acyclic() ==> final(self).cycle_penalty == 0 && final(self).cycle_added_edges@.len() == 0
                && final(self).is_schedule(final(self).earliest@)
                && (forall|v: int| 0 <= v < final(self).node_count ==> #[trigger] final(self).finishes@[v] == final(self).fin(final(self).earliest@, v))
                && is_makespan(final(self).makespan, final(self).finishes@),
            !final(self).is_acyclic() ==> final(self).cycle_penalty == final(self).node_count && final(self).cycle_added_edges@.len() == 0
                && final(self).makespan == 0
                && (forall|v: int| 0 <= v < final(self).node_count ==> #[trigger] final(self).earliest@[v] == 0)
                && (forall|v: int| 0 <= v < final(self).node_count ==> #[trigger] final(self).finishes@[v] == 0),
    {
        let ghost before = *self;
        let (order, earliest, finishes, makespan) = self.topological_schedule();
        if order.len() < self.node_count {
            self.mark_cyclic_without_cache();
            proof {
                lemma_same_schedule_inputs(self, &before, earliest@);
            }
        } else {
            proof {
                let n = self.node_count;
                lemma_nodup_below(order@, n as nat);
                assert forall|k: int| 0 <= k < finishes@.len() implies makespan >= #[trigger] finishes@[k] by {
                    assert(order@.contains(k as usize));
                    let i = choose|i: int| 0 <= i < order@.len() && order@[i] == k as usize;
                    assert(makespan >= finishes@[order@[i] as int]);
                }
                if makespan != 0 {
                    let i = choose|i: int| 0 <= i < order@.len() && makespan == #[trigger] finishes@[order@[i] as int];
                    assert(makespan == finishes@[order@[i] as int]);
                }
            }
            self.earliest = earliest;
            self.finishes = finishes;
            self.cycle_penalty = 0;
            self.cycle_added_edges = Vec::new();
            self.makespan = makespan;
            proof {
                lemma_same_schedule_inputs(self, &before, self.earliest@);
            }
        }
    }
}

} // verus!

verus! {

impl ListPrecedenceState {
    /// Consecutive nodes of `w` are joined by arcs.
    pub open spec fn is_walk(&self, w: Seq<usize>) -> bool {
        &&& w.len() >= 1
        &&& forall|i: int| 0 <= i < w.len() - 1 ==> #[trigger] self.arc(w[i], w[i + 1])
    }

    /// Some walk leads from `a` to `b` (a node reaches itself).
    pub open spec fn reaches(&self, a: usize, b: usize) -> bool {
        exists|w: Seq<usize>| #[trigger] self.is_walk(w) && w[0] == a && w.last() == b
    }
}

proof fn lemma_reaches_step(s: &ListPrecedenceState, a: usize, x: usize, y: usize)
    requires
        s.reaches(a, x),
        s.arc(x, y),
    ensures
        s.reaches(a, y),
{
    let w = choose|w: Seq<usize>| #[trigger] s.is_walk(w) && w[0] == a && w.last() == x;
    let w2 = w.push(y);
    assert forall|i: int| 0 <= i < w2.len() - 1 implies #[trigger] s.arc(w2[i], w2[i + 1]) by {
        if i < w.len() - 1 {
            assert(w2[i] == w[i] && w2[i + 1] == w[i + 1]);
        } else {
            assert(w2[i] == x && w2[i + 1] == y);
        }
    }
    assert(s.is_walk(w2) && w2[0] == a && w2.last() == y);
}

proof fn lemma_reaches_self(s: &ListPrecedenceState, a: usize)
    ensures
        s.reaches(a, a),
{
    let w = seq![a];
    assert(s.is_walk(w) && w[0] == a && w.last() == a);
}

/// A set of nodes that holds `a`, not `b`, and every successor of its members, shows that no
/// walk leads from `a` to `b`.
proof fn lemma_closed_blocks(s: &ListPrecedenceState, inside: spec_fn(usize) -> bool, a: usize, b: usize)
    requires
        inside(a),
        !inside(b),
        forall|u: usize, v: usize| inside(u) && #[trigger] s.arc(u, v) ==> inside(v),
    ensures
        !s.reaches(a, b),
{
    if s.reaches(a, b) {
        let w = choose|w: Seq<usize>| #[trigger] s.is_walk(w) && w[0] == a && w.last() == b;
        lemma_walk_stays(s, inside, w, (w.len() - 1) as nat);
    }
}

proof fn lemma_walk_stays(s: &ListPrecedenceState, inside: spec_fn(usize) -> bool, w: Seq<usize>, k: nat)
    requires
        s.is_walk(w),
        inside(w[0]),
        k < w.len(),
        forall|u: usize, v: usize| inside(u) && #[trigger] s.arc(u, v) ==> inside(v),
    ensures
        inside(w[k as int]),
    decreases k,
{
    if k > 0 {
        lemma_walk_stays(s, inside, w, (k - 1) as nat);
        let i = (k - 1) as int;
        assert(s.arc(w[i], w[i + 1]));
    }
}

impl ListPrecedenceState {
    /// Depth-first search from `start` for `target`, marking visited nodes with `visit_id` in
    /// `visited` and using `stack` as scratch space; true exactly when a walk leads from
    /// `start` to `target`.
    pub fn reaches_with_scratch(&self, start: usize, target: usize, visit_id: usize, visited: &mut Vec<usize>, stack: &mut Vec<usize>) -> (r: bool)
        requires
            self.graph_wf(),
            start < self.node_count,
            target < self.node_count,
            old(visited)@.len() == self.node_count,
            forall|k: int| 0 <= k < old(visited)@.len() ==> #[trigger] old(visited)@[k] < visit_id,
        ensures
            r == self.reaches(start, target),
            final(visited)@.len() == old(visited)@.len(),
            forall|k: int| 0 <= k < final(visited)@.len() ==> #[trigger] final(visited)@[k] <= visit_id,
    {
        if start == target {
            proof {
                lemma_reaches_self(self, start);
            }
            return true;
        }
        let ghost n = self.node_count;
        stack.clear();
        stack.push(start);
        proof {
            lemma_reaches_self(self, start);
            lemma_unmarked_nonneg(visited@, visit_id);
            assert(stack@[0] == start);
        }
        while stack.len() > 0
            invariant
                self.graph_wf(),
                n == self.node_count,
                n == old(visited)@.len(),
                start < n,
                target < n,
                start != target,
                visited@.len() == n,
                forall|k: int| 0 <= k < visited@.len() ==> #[trigger] visited@[k] <= visit_id,
                forall|k: int| 0 <= k < stack@.len() ==> #[trigger] stack@[k] < n,
                forall|k: int| 0 <= k < stack@.len() ==> self.reaches(start, #[trigger] stack@[k]),
                forall|v: usize| v < n && visited@[v as int] == visit_id ==> #[trigger] self.reaches(start, v),
                visited@[start as int] == visit_id || stack@.contains(start),
                forall|u: usize, v: usize| u < n && visited@[u as int] == visit_id && #[trigger] self.arc(u, v)
                    ==> visited@[v as int] == visit_id || stack@.contains(v),
                visited@[target as int] != visit_id,
                !stack@.contains(target),
            decreases unmarked(visited@, visit_id), stack@.len(),
        {
            let ghost sb = stack@;
            let node = stack.pop().unwrap();
            proof {
                assert(sb == stack@.push(node));
                assert(sb[sb.len() - 1] == node);
                assert forall|w: usize| #[trigger] sb.contains(w) == (stack@.contains(w) || w == node) by {
                    if sb.contains(w) && w != node {
                        let k = choose|k: int| 0 <= k < sb.len() && sb[k] == w;
                        assert(stack@[k] == w);
                    }
                    if stack@.contains(w) {
                        let k = choose|k: int| 0 <= k < stack@.len() && stack@[k] == w;
                        assert(sb[k] == w);
                    }
                }
                assert(self.reaches(start, node));
            }
            if visited[node] == visit_id {
                continue;
            }
            let ghost vb = visited@;
            visited.set(node, visit_id);
            proof {
                lemma_unmarked_mark(vb, visit_id, node as int);
                lemma_unmarked_nonneg(visited@, visit_id);
            }
            let succ_len = self.successors[node].len();
            let mut j: usize = 0;
            while j < succ_len
                invariant
                    self.graph_wf(),
                    n == self.node_count,
                    n == old(visited)@.len(),
                    node < n,
                    start < n,
                    target < n,
                    start != target,
                    succ_len == self.successors@[node as int]@.len(),
                    j <= succ_len,
                    visited@.len() == n,
                    visited@[node as int] == visit_id,
                    self.reaches(start, node),
                    unmarked(visited@, visit_id) < unmarked(vb, visit_id),
                    forall|k: int| 0 <= k < visited@.len() ==> #[trigger] visited@[k] <= visit_id,
                    forall|k: int| 0 <= k < stack@.len() ==> #[trigger] stack@[k] < n,
                    forall|k: int| 0 <= k < stack@.len() ==> self.reaches(start, #[trigger] stack@[k]),
                    forall|v: usize| v < n && visited@[v as int] == visit_id ==> #[trigger] self.reaches(start, v),
                    visited@[start as int] == visit_id || stack@.contains(start),
                    forall|u: usize, v: usize| u < n && u != node && visited@[u as int] == visit_id && #[trigger] self.arc(u, v)
                        ==> visited@[v as int] == visit_id || stack@.contains(v),
                    forall|k: int| 0 <= k < j ==> visited@[self.successors@[node as int]@[k] as int] == visit_id
                        || stack@.contains(#[trigger] self.successors@[node as int]@[k]),
                    visited@[target as int] != visit_id,
                    !stack@.contains(target),
                decreases succ_len - j,
            {
                let next = self.successors[node][j];
                proof {
                    assert(self.successors@[node as int]@.contains(next));
                    assert(self.arc(node, next));
                    lemma_reaches_step(self, start, node, next);
                }
                if next == target {
                    return true;
                }
                if visited[next] != visit_id {
                    let ghost sb2 = stack@;
                    stack.push(next);
                    proof {
                        assert forall|w: usize| #[trigger] stack@.contains(w) == (sb2.contains(w) || w == next) by {
                            if stack@.contains(w) && w != next {
                                let k = choose|k: int| 0 <= k < stack@.len() && stack@[k] == w;
                                assert(sb2[k] == w);
                            }
                            if sb2.contains(w) {
                                let k = choose|k: int| 0 <= k < sb2.len() && sb2[k] == w;
                                assert(stack@[k] == w);
                            }
                            assert(stack@[sb2.len() as int] == next);
                        }
                        assert forall|k: int| 0 <= k < stack@.len() implies self.reaches(start, #[trigger] stack@[k]) by {
                            if k < sb2.len() {
                                assert(stack@[k] == sb2[k]);
                            }
                        }
                    }
                }
                j = j + 1;
            }
            proof {
                assert forall|u: usize, v: usize| u < n && visited@[u as int] == visit_id && #[trigger] self.arc(u, v)
                    implies visited@[v as int] == visit_id || stack@.contains(v) by {
                    if u == node {
                        assert(self.successors@[node as int]@.contains(v));
                        let k = choose|k: int| 0 <= k < self.successors@[node as int]@.len() && self.successors@[node as int]@[k] == v;
                        assert(visited@[self.successors@[node as int]@[k] as int] == visit_id
                            || stack@.contains(self.successors@[node as int]@[k]));
                    }
                }
            }
        }
        proof {
            lemma_closed_blocks(self, |v: usize| v < n && visited@[v as int] == visit_id, start, target);
        }
        false
    }
}

} // verus!

verus! {

proof fn lemma_walk_rank(s: &ListPrecedenceState, rank: Seq<nat>, w: Seq<usize>, k: nat)
    requires
        s.is_topological_rank(rank),
        s.is_walk(w),
        k < w.len(),
    ensures
        rank[w[0] as int] <= rank[w[k as int] as int],
    decreases k,
{
    if k > 0 {
        lemma_walk_rank(s, rank, w, (k - 1) as nat);
        let i = (k - 1) as int;
        assert(s.arc(w[i], w[i + 1]));
    }
}

/// An arc `f -> t` together with a walk from `t` back to `f` is a cycle.
pub proof fn lemma_closing_walk_cyclic(s: &ListPrecedenceState, f: usize, t: usize)
    requires
        s.arc(f, t),
        s.reaches(t, f),
    ensures
        !s.is_acyclic(),
{
    if s.is_acyclic() {
        let rank = choose|r: Seq<nat>| s.is_topological_rank(r);
        let w = choose|w: Seq<usize>| #[trigger] s.is_walk(w) && w[0] == t && w.last() == f;
        lemma_walk_rank(s, rank, w, (w.len() - 1) as nat);
        assert(rank[f as int] < rank[t as int]);
    }
}

impl ListPrecedenceState {
    /// Whether some arc `(from, to)` of `added_edges` closes a cycle: a walk leads from `to`
    /// back to `from`.
    pub fn added_edges_introduce_cycle(&self, added_edges: &Vec<Edge>) -> (r: bool)
        requires
            self.graph_wf(),
            forall|k: int| 0 <= k < added_edges@.len() ==> (#[trigger] added_edges@[k]).0 < self.node_count
                && added_edges@[k].1 < self.node_count,
        ensures
            r == exists|k: int| 0 <= k < added_edges@.len() && self.reaches((#[trigger] added_edges@[k]).1, added_edges@[k].0),
            r && (forall|k: int| 0 <= k < added_edges@.len() ==> self.arc((#[trigger] added_edges@[k]).0, added_edges@[k].1))
                ==> !self.is_acyclic(),
    {
        if added_edges.len() == 0 {
            return false;
        }
        let mut visited: Vec<usize> = filled(0usize, self.node_count);
        let mut stack: Vec<usize> = Vec::new();
        let mut i: usize = 0;
        while i < added_edges.len()
            invariant
                self.graph_wf(),
                i <= added_edges@.len(),
                forall|k: int| 0 <= k < added_edges@.len() ==> (#[trigger] added_edges@[k]).0 < self.node_count
                    && added_edges@[k].1 < self.node_count,
                visited@.len() == self.node_count,
                forall|k: int| 0 <= k < visited@.len() ==> #[trigger] visited@[k] <= i,
                forall|k: int| 0 <= k < i ==> !self.reaches((#[trigger] added_edges@[k]).1, added_edges@[k].0),
            decreases added_edges@.len() - i,
        {
            let (from, to) = added_edges[i];
            if self.reaches_with_scratch(to, from, i + 1, &mut visited, &mut stack) {
                proof {
                    if forall|k: int| 0 <= k < added_edges@.len() ==> self.arc((#[trigger] added_edges@[k]).0, added_edges@[k].1) {
                        assert(self.arc(added_edges@[i as int].0, added_edges@[i as int].1));
                        lemma_closing_walk_cyclic(self, from, to);
                    }
                }
                return true;
            }
            i = i + 1;
        }
        false
    }
}

} // verus!

verus! {

/// The nodes whose incoming arcs a route change touched: the heads of its added and removed
/// arcs.
pub open spec fn is_seed(change: &RouteChange, v: usize) -> bool {
    (exists|k: int| 0 <= k < change.added_edges@.len() && (#[trigger] change.added_edges@[k]).1 == v)
    || (exists|k: int| 0 <= k < change.removed_edges@.len() && (#[trigger] change.removed_edges@[k]).1 == v)
}

impl ListPrecedenceState {
    /// The start that the predecessors and release time of `node` give it now: the latest
    /// predecessor finish (0 without predecessors), raised to the release time.
    pub fn pulled_start(&self, node: usize) -> (r: i64)
        requires
            self.wf(),
            node < self.node_count,
        ensures
            r >= self.release@[node as int],
            forall|u: usize| #[trigger] self.arc(u, node) ==> r >= self.fin(self.earliest@, u as int),
            r == self.release@[node as int] || (exists|u: usize| #[trigger] self.arc(u, node) && r == self.fin(self.earliest@, u as int))
                || (r == 0 && self.release@[node as int] < 0),
            r == pulled(self, self.earliest@, node),
    {
        let preds_len = self.predecessors[node].len();
        let mut best: i64 = 0;
        let mut k: usize = 0;
        proof {
            assert(self.predecessors@[node as int]@.subrange(0, 0) =~= Seq::<usize>::empty());
        }
        while k < preds_len
            invariant
                self.wf(),
                node < self.node_count,
                preds_len == self.predecessors@[node as int]@.len(),
                k <= preds_len,
                forall|i: int| 0 <= i < k ==> best >= self.fin(self.earliest@, #[trigger] self.predecessors@[node as int]@[i] as int),
                k == 0 ==> best == 0,
                k > 0 ==> exists|i: int| 0 <= i < k && best == self.fin(self.earliest@, #[trigger] self.predecessors@[node as int]@[i] as int),
                best == max_fin(self, self.earliest@, self.predecessors@[node as int]@.subrange(0, k as int)),
            decreases preds_len - k,
        {
            let p = self.predecessors[node][k];
            let f = sat_add_i64(self.earliest[p], self.durations[p]);
            proof {
                let preds = self.predecessors@[node as int]@;
                assert(preds.subrange(0, k + 1).drop_last() =~= preds.subrange(0, k as int));
                assert(preds.subrange(0, k + 1).last() == p);
            }
            if k == 0 || f > best {
                best = f;
            }
            k = k + 1;
        }
        proof {
            assert(self.predecessors@[node as int]@.subrange(0, k as int) =~= self.predecessors@[node as int]@);
        }
        let r = if self.release[node] > best { self.release[node] } else { best };
        proof {
            let preds = self.predecessors@[node as int]@;
            assert forall|u: usize| #[trigger] self.arc(u, node) implies r >= self.fin(self.earliest@, u as int) by {
                assert(preds.contains(u));
                let i = choose|i: int| 0 <= i < preds.len() && preds[i] == u;
                assert(best >= self.fin(self.earliest@, preds[i] as int));
            }
            if r != self.release@[node as int] && preds_len > 0 {
                let i = choose|i: int| 0 <= i < preds_len && best == self.fin(self.earliest@, #[trigger] preds[i] as int);
                let u = preds[i];
                assert(preds.contains(u));
                assert(self.arc(u, node));
            }
        }
        r
    }
}

} // verus!

verus! {

/// The conditions under which propagating a route change from its seeds yields a schedule:
/// release times are not negative, every node but the seeds already starts as it must, and
/// every finish is its start plus its duration.
pub open spec fn propagation_ready(s: &ListPrecedenceState, change: &RouteChange) -> bool {
    &&& forall|v: int| 0 <= v < s.node_count ==> #[trigger] s.release@[v] >= 0
    &&& forall|v: usize| v < s.node_count && !is_seed(change, v) ==> #[trigger] s.start_ok(s.earliest@, v)
    &&& forall|v: int| 0 <= v < s.node_count ==> #[trigger] s.finishes@[v] == s.fin(s.earliest@, v)
}

impl ListPrecedenceState {
    /// Recomputes starts from the heads of the changed arcs onwards, in FIFO order, requeueing
    /// the successors of every node whose start moved. Returns the number of nodes visited, or
    /// `None` (leaving the starts partly updated) once `n * n + n` visits did not settle it,
    /// which cannot happen on a graph without cycles: a node queued in the `k`-th round ends a
    /// walk of `k` arcs, so there are at most `n` rounds of at most `n` nodes each.
    fn propagate_from_seeds(&mut self, change: &RouteChange) -> (r: Option<usize>)
        requires
            old(self).wf(),
        ensures
            final(self).wf(),
            final(self).same_structure(old(self)),
            final(self).cycle_penalty == old(self).cycle_penalty,
            final(self).cycle_added_edges == old(self).cycle_added_edges,
            r is Some && propagation_ready(old(self), change) ==> final(self).is_schedule(final(self).earliest@)
                && (forall|v: int| 0 <= v < final(self).node_count ==> #[trigger] final(self).finishes@[v] == final(self).fin(final(self).earliest@, v)),
            old(self).is_acyclic() ==> r is Some,
            old(self).is_acyclic() && r is Some ==> r->0 <= old(self).node_count * old(self).node_count,
            r is Some ==> r->0 == propagation_of(old(self), change).head
                && final(self).earliest@ == propagation_of(old(self), change).earliest,
    {
        let n = self.node_count;
        let ghost ok = propagation_ready(self, change);
        let mut queued: Vec<bool> = filled(false, n);
        let mut queue: Vec<usize> = Vec::new();
        let seeds = change.seeds();
        let mut i: usize = 0;
        let ghost no_marks = Seq::new(n as nat, |k: int| false);
        proof {
            assert(queued@ =~= no_marks);
            assert(seeds@.subrange(0, 0) =~= Seq::<usize>::empty());
        }
        while i < seeds.len()
            invariant
                queue@ == offer_nodes(Seq::empty(), no_marks, seeds@.subrange(0, i as int), n as nat).0,
                queued@ == offer_nodes(Seq::empty(), no_marks, seeds@.subrange(0, i as int), n as nat).1,
                no_marks == Seq::new(n as nat, |k: int| false),
                self == old(self),
                n == self.node_count,
                i <= seeds@.len(),
                seeds@ == change.added_edges@.map_values(|e: Edge| e.1) + change.removed_edges@.map_values(|e: Edge| e.1),
                queued@.len() == n,
                queue@.no_duplicates(),
                forall|k: int| 0 <= k < queue@.len() ==> #[trigger] queue@[k] < n,
                forall|v: usize| v < n ==> (#[trigger] queued@[v as int] <==> queue@.contains(v)),
                forall|v: usize| v < n && #[trigger] seeds@.subrange(0, i as int).contains(v) ==> queued@[v as int],
            decreases seeds@.len() - i,
        {
            let node = seeds[i];
            proof {
                assert(seeds@.subrange(0, i + 1).drop_last() =~= seeds@.subrange(0, i as int));
                assert(seeds@.subrange(0, i + 1).last() == node);
                assert forall|v: usize| #[trigger] seeds@.subrange(0, i + 1).contains(v) == (seeds@.subrange(0, i as int).contains(v) || v == node) by {
                    lemma_prefix_contains(seeds@, i as int, v);
                }
            }
            if node < n && !queued[node] {
                proof {
                    lemma_push_fresh(queue@, node);
                }
                queued.set(node, true);
                queue.push(node);
            }
            i = i + 1;
        }
        proof {
            assert(seeds@.subrange(0, i as int) =~= seeds@);
            assert forall|v: usize| v < n && is_seed(change, v) implies #[trigger] queued@[v as int] by {
                let a = change.added_edges@.map_values(|e: Edge| e.1);
                if exists|k: int| 0 <= k < change.added_edges@.len() && (#[trigger] change.added_edges@[k]).1 == v {
                    let k = choose|k: int| 0 <= k < change.added_edges@.len() && (#[trigger] change.added_edges@[k]).1 == v;
                    assert(seeds@[k] == v);
                    assert(seeds@.contains(v));
                } else {
                    let k = choose|k: int| 0 <= k < change.removed_edges@.len() && (#[trigger] change.removed_edges@[k]).1 == v;
                    assert(seeds@[a.len() + k] == v);
                    assert(seeds@.contains(v));
                }
            }
        }
        let budget = match n.checked_mul(n) {
            Some(square) => square.saturating_add(n),
            None => usize::MAX,
        };
        proof {
            assert(budget == propagation_budget(n as nat)) by (nonlinear_arith)
                requires
                    n * n <= usize::MAX ==> budget == (if n * n + n <= usize::MAX { n * n + n } else { usize::MAX as int }),
                    n * n > usize::MAX ==> budget == usize::MAX,
                    n >= 0;
            assert(seeds@ == change_seeds(change));
            assert(Propagation { earliest: self.earliest@, queue: queue@, head: 0, queued: queued@ } == propagation_start(old(self), change));
        }
        let mut head: usize = 0;
        let mut visited: usize = 0;
        let ghost mut rd: Seq<nat> = Seq::new(queue@.len(), |k: int| 0nat);
        let ghost mut base: nat = 0;
        proof {
            assert forall|k: int| 0 <= k < queue@.len() implies walk_of_len(old(self), #[trigger] queue@[k], rd[k]) by {
                let w = seq![queue@[k]];
                assert(old(self).is_walk(w) && w.len() == rd[k] + 1 && w.last() == queue@[k]);
            }
            assert(queue@.subrange(0, queue@.len() as int) =~= queue@);
            if ok {
                assert forall|v: usize| v < n && !queued@[v as int] implies #[trigger] self.start_ok(self.earliest@, v) by {
                    assert(!is_seed(change, v));
                }
            }
        }
        while head < queue.len()
            invariant
                self.wf(),
                self.same_structure(old(self)),
                self.cycle_penalty == old(self).cycle_penalty,
                self.cycle_added_edges == old(self).cycle_added_edges,
                n == self.node_count,
                ok == propagation_ready(old(self), change),
                queued@.len() == n,
                head <= queue@.len(),
                queue@.subrange(head as int, queue@.len() as int).no_duplicates(),
                forall|k: int| 0 <= k < queue@.len() ==> #[trigger] queue@[k] < n,
                forall|v: usize| v < n ==> (#[trigger] queued@[v as int] <==> queue@.subrange(head as int, queue@.len() as int).contains(v)),
                visited <= budget,
                ok ==> forall|v: int| 0 <= v < n ==> #[trigger] self.release@[v] >= 0,
                ok ==> forall|v: usize| v < n && !queued@[v as int] ==> #[trigger] self.start_ok(self.earliest@, v),
                ok ==> forall|v: int| 0 <= v < n ==> #[trigger] self.finishes@[v] == self.fin(self.earliest@, v),
                visited == head,
                budget == propagation_budget(n as nat),
                propagation_run(old(self), Propagation { earliest: self.earliest@, queue: queue@, head: head as nat, queued: queued@ },
                    (budget - visited) as nat) == propagation_of(old(self), change),
                n * n <= usize::MAX ==> budget >= n * n,
                n * n > usize::MAX ==> budget == usize::MAX,
                rd.len() == queue@.len(),
                forall|i: int, j: int| #![trigger rd[i], rd[j]] 0 <= i <= j < queue@.len() ==> rd[i] <= rd[j],
                forall|k: int| 0 <= k < queue@.len() ==> #[trigger] rd[k] <= base + 1,
                head > 0 ==> rd[head - 1] == base,
                head == 0 ==> base == 0,
                forall|i: int, j: int| #![trigger queue@[i], queue@[j]] 0 <= i < j < queue@.len() && rd[i] == rd[j] ==> queue@[i] != queue@[j],
                forall|k: int| 0 <= k < queue@.len() ==> walk_of_len(old(self), #[trigger] queue@[k], rd[k]),
            decreases budget - visited,
        {
            if visited >= budget {
                proof {
                    if old(self).is_acyclic() {
                        assert forall|k: int| 0 <= k < rd.len() implies #[trigger] rd[k] < n by {
                            assert(walk_of_len(old(self), queue@[k], rd[k]));
                            let w = choose|w: Seq<usize>| #[trigger] old(self).is_walk(w) && w.len() == rd[k] + 1 && w.last() == queue@[k];
                            lemma_walk_short(old(self), w);
                        }
                        lemma_round_count(rd, queue@, n as nat, n as nat);
                    }
                }
                return None;
            }
            let node = queue[head];
            let ghost cur = Propagation { earliest: self.earliest@, queue: queue@, head: head as nat, queued: queued@ };
            let ghost nxt = propagation_step(old(self), cur);
            let ghost fuel = (budget - visited) as nat;
            assert(propagation_run(old(self), cur, fuel) == propagation_run(old(self), nxt, (fuel - 1) as nat));
            let ghost q_start = queued@;
            let ghost e_start = self.earliest@;
            let ghost s_start = *self;
            assert(ok ==> forall|v: usize| v < n && !q_start[v as int] ==> #[trigger] s_start.start_ok(e_start, v));
            let ghost pending = queue@.subrange(head as int, queue@.len() as int);
            proof {
                assert(pending[0] == node);
                assert(pending.drop_first() =~= queue@.subrange(head + 1, queue@.len() as int));
                assert forall|v: usize| #[trigger] queue@.subrange(head + 1, queue@.len() as int).contains(v)
                    == (pending.contains(v) && v != node) by {
                    let tail = queue@.subrange(head + 1, queue@.len() as int);
                    if tail.contains(v) {
                        let k = choose|k: int| 0 <= k < tail.len() && tail[k] == v;
                        assert(pending[k + 1] == v);
                        assert(v != node);
                    }
                    if pending.contains(v) && v != node {
                        let k = choose|k: int| 0 <= k < pending.len() && pending[k] == v;
                        assert(k != 0);
                        assert(tail[k - 1] == v);
                    }
                }
            }
            head = head + 1;
            queued.set(node, false);
            visited = visited + 1;
            proof {
                if head > 1 {
                    assert(rd[head - 2] <= rd[head - 1]);
                }
                base = rd[head - 1];
            }
            let ghost e0 = self.earliest@;
            let new_earliest = self.pulled_start(node);
            proof {
                lemma_pulled_same(self, old(self), e0, node);
            }
            if new_earliest == self.earliest[node] {
                proof {
                    assert(Propagation { earliest: self.earliest@, queue: queue@, head: head as nat, queued: queued@ } == nxt);
                }
                continue;
            }
            let ghost s_mid = *self;
            self.replace_earliest(node, new_earliest);
            proof {
                lemma_same_schedule_inputs(self, &s_mid, e0);
                lemma_same_schedule_inputs(self, &s_mid, self.earliest@);
            }
            let succ_len = self.successors[node].len();
            let ghost qs = queued@;
            let ghost q_in = queue@;
            let ghost succs = self.successors@[node as int]@;
            proof {
                assert(succs.subrange(0, 0) =~= Seq::<usize>::empty());
            }
            let mut j: usize = 0;
            while j < succ_len
                invariant
                    self.wf(),
                    n == self.node_count,
                    node < n,
                    succ_len == self.successors@[node as int]@.len(),
                    j <= succ_len,
                    queued@.len() == n,
                    head <= queue@.len(),
                    queue@.subrange(head as int, queue@.len() as int).no_duplicates(),
                    forall|k: int| 0 <= k < queue@.len() ==> #[trigger] queue@[k] < n,
                    forall|v: usize| v < n ==> (#[trigger] queued@[v as int] <==> queue@.subrange(head as int, queue@.len() as int).contains(v)),
                    forall|v: usize| v < n && qs[v as int] ==> #[trigger] queued@[v as int],
                    forall|k: int| 0 <= k < j ==> #[trigger] queued@[self.successors@[node as int]@[k] as int],
                    self.same_structure(old(self)),
                    succs == self.successors@[node as int]@,
                    queue@ == offer_nodes(q_in, qs, succs.subrange(0, j as int), n as nat).0,
                    queued@ == offer_nodes(q_in, qs, succs.subrange(0, j as int), n as nat).1,
                    head > 0,
                    queue@[head - 1] == node,
                    rd.len() == queue@.len(),
                    forall|i: int, j: int| #![trigger rd[i], rd[j]] 0 <= i <= j < queue@.len() ==> rd[i] <= rd[j],
                    forall|k: int| 0 <= k < queue@.len() ==> #[trigger] rd[k] <= base + 1,
                    rd[head - 1] == base,
                    forall|i: int, j: int| #![trigger queue@[i], queue@[j]] 0 <= i < j < queue@.len() && rd[i] == rd[j] ==> queue@[i] != queue@[j],
                    forall|k: int| 0 <= k < queue@.len() ==> walk_of_len(old(self), #[trigger] queue@[k], rd[k]),
                decreases succ_len - j,
            {
                let succ = self.successors[node][j];
                proof {
                    assert(succs.subrange(0, j + 1).drop_last() =~= succs.subrange(0, j as int));
                    assert(succs.subrange(0, j + 1).last() == succ);
                }
                if !queued[succ] {
                    let ghost qb = queue@;
                    proof {
                        lemma_push_fresh(qb.subrange(head as int, qb.len() as int), succ);
                    }
                    queued.set(succ, true);
                    queue.push(succ);
                    proof {
                        assert(queue@.subrange(head as int, queue@.len() as int) =~= qb.subrange(head as int, qb.len() as int).push(succ));
                        let rb = rd;
                        rd = rd.push(base + 1);
                        let last = qb.len() as int;
                        assert(self.successors@[node as int]@.contains(succ));
                        assert(old(self).arc(node, succ));
                        assert(walk_of_len(old(self), qb[head - 1], rb[head - 1]));
                        let w = choose|w: Seq<usize>| #[trigger] old(self).is_walk(w) && w.len() == rb[head - 1] + 1 && w.last() == qb[head - 1];
                        lemma_walk_push(old(self), w, succ);
                        assert(old(self).is_walk(w.push(succ)) && w.push(succ).len() == rd[last] + 1 && w.push(succ).last() == queue@[last]);
                        assert forall|k: int| 0 <= k < queue@.len() implies walk_of_len(old(self), #[trigger] queue@[k], rd[k]) by {
                            if k < last {
                                assert(queue@[k] == qb[k] && rd[k] == rb[k]);
                            }
                        }
                        assert forall|i: int, j: int| #![trigger queue@[i], queue@[j]] 0 <= i < j < queue@.len() && rd[i] == rd[j]
                            implies queue@[i] != queue@[j] by {
                            if j == last {
                                if i < head {
                                    assert(rb[i] <= rb[head - 1]);
                                } else {
                                    assert(qb.subrange(head as int, qb.len() as int)[i - head] == qb[i]);
                                }
                            } else {
                                assert(queue@[i] == qb[i] && queue@[j] == qb[j] && rd[i] == rb[i] && rd[j] == rb[j]);
                            }
                        }
                        assert forall|i: int, j: int| #![trigger rd[i], rd[j]] 0 <= i <= j < queue@.len() implies rd[i] <= rd[j] by {
                            if j < last {
                                assert(rd[i] == rb[i] && rd[j] == rb[j]);
                            }
                        }
                    }
                }
                j = j + 1;
            }
            proof {
                assert(succs.subrange(0, j as int) =~= succs);
                assert(self.earliest@ == e0.update(node as int, new_earliest));
                assert(Propagation { earliest: self.earliest@, queue: queue@, head: head as nat, queued: queued@ } == nxt);
            }
            proof {
                if ok {
                    assert forall|v: usize| v < n && !queued@[v as int] implies #[trigger] self.start_ok(self.earliest@, v) by {
                        assert(!self.arc(node, v)) by {
                            if self.arc(node, v) {
                                assert(self.successors@[node as int]@.contains(v));
                                let k = choose|k: int| 0 <= k < succ_len && self.successors@[node as int]@[k] == v;
                                assert(queued@[self.successors@[node as int]@[k] as int]);
                            }
                        }
                        if v == node {
                            assert forall|u: usize| #[trigger] self.arc(u, node) implies new_earliest >= self.fin(self.earliest@, u as int) by {
                                assert(s_mid.arc(u, node));
                                assert(u != node);
                                assert(self.fin(self.earliest@, u as int) == s_mid.fin(self.earliest@, u as int));
                                assert(s_mid.fin(self.earliest@, u as int) == s_mid.fin(e0, u as int));
                            }
                            if new_earliest != self.release@[node as int] {
                                let u = choose|u: usize| #[trigger] s_mid.arc(u, node) && new_earliest == s_mid.fin(e0, u as int);
                                assert(u != node);
                                assert(s_mid.fin(self.earliest@, u as int) == s_mid.fin(e0, u as int));
                                assert(self.arc(u, node) && self.earliest@[node as int] == self.fin(self.earliest@, u as int));
                            }
                        } else {
                            assert(!qs[v as int]);
                            assert(!q_start[v as int]);
                            assert(e_start == e0);
                            assert(s_start.start_ok(e_start, v));
                            lemma_same_schedule_inputs(self, &s_start, e0);
                            lemma_start_ok_frame(self, self.earliest@, e0, v);
                        }
                    }
                }
            }
        }
        proof {
            if old(self).is_acyclic() {
                assert forall|k: int| 0 <= k < rd.len() implies #[trigger] rd[k] < n by {
                    assert(walk_of_len(old(self), queue@[k], rd[k]));
                    let w = choose|w: Seq<usize>| #[trigger] old(self).is_walk(w) && w.len() == rd[k] + 1 && w.last() == queue@[k];
                    lemma_walk_short(old(self), w);
                }
                lemma_round_count(rd, queue@, n as nat, n as nat);
            }
        }
        proof {
            let fin = Propagation { earliest: self.earliest@, queue: queue@, head: head as nat, queued: queued@ };
            assert(propagation_run(old(self), fin, (budget - visited) as nat) == fin);
        }
        Some(visited)
    }
}

} // verus!

verus! {

/// Some added arc `(from, to)` of the change is closed into a cycle by a walk from `to` back to
/// `from`.
pub open spec fn change_closes_cycle(s: &ListPrecedenceState, change: &RouteChange) -> bool {
    exists|k: int| 0 <= k < change.added_edges@.len() && s.reaches((#[trigger] change.added_edges@[k]).1, change.added_edges@[k].0)
}

/// The cycle-recovery test of `recover_cached_cycle`: the graph carries a cycle mark, the
/// change adds nothing, every arc of the mark is gone, and every arc the change removed is one
/// of the mark, so that the graph is again the one the cached starts were computed for.
pub open spec fn cycle_recoverable(s: &ListPrecedenceState, change: &RouteChange) -> bool {
    &&& s.cycle_added_edges@.len() > 0
    &&& change.added_edges@.len() == 0
    &&& forall|k: int| 0 <= k < s.cycle_added_edges@.len()
        ==> s.arc_count((#[trigger] s.cycle_added_edges@[k]).0, s.cycle_added_edges@[k].1) <= 0
    &&& forall|k: int| 0 <= k < change.removed_edges@.len() ==> s.cycle_added_edges@.contains(#[trigger] change.removed_edges@[k])
}

/// What a full rebuild leaves: the schedule of an acyclic graph, or a cyclic mark.
pub open spec fn rebuilt(s: &ListPrecedenceState) -> bool {
    &&& s.is_acyclic() ==> s.cycle_penalty == 0 && s.cycle_added_edges@.len() == 0 && s.is_schedule(s.earliest@)
        && (forall|v: int| 0 <= v < s.node_count ==> #[trigger] s.finishes@[v] == s.fin(s.earliest@, v))
        && is_makespan(s.makespan, s.finishes@)
    &&& !s.is_acyclic() ==> s.cycle_penalty == s.node_count && s.cycle_added_edges@.len() == 0 && s.makespan == 0
        && (forall|v: int| 0 <= v < s.node_count ==> #[trigger] s.earliest@[v] == 0)
        && (forall|v: int| 0 <= v < s.node_count ==> #[trigger] s.finishes@[v] == 0)
}

/// What folding `change` into the cached schedule of `pre` left in `post`, by the kind `r` of
/// refresh: nothing for an empty change; recovery or a full rebuild when the graph was
/// cyclic; a cyclic mark when an added arc closes a cycle; otherwise propagation, or a full
/// rebuild.
pub open spec fn graph_refreshed(pre: &ListPrecedenceState, post: &ListPrecedenceState, change: &RouteChange, r: GraphRefreshKind) -> bool {
    &&& post.wf()
    &&& post.same_structure(pre)
    &&& (r is Skipped) == (change.added_edges@.len() == 0 && change.removed_edges@.len() == 0)
    &&& r is Skipped ==> *post == *pre
    &&& !(r is Skipped) && pre.cycle_penalty > 0 ==> (r is CycleRecovered) == cycle_recoverable(pre, change)
        && (r is CycleRecovered || r is Full)
    &&& r is CycleRecovered ==> post.cycle_penalty == 0 && post.cycle_added_edges@.len() == 0
        && post.earliest == pre.earliest && post.finishes == pre.finishes
        && is_max_of(post.makespan, post.finishes@)
    &&& r is Full ==> rebuilt(post)
    &&& (r is CycleDetected) == (!(r is Skipped) && pre.cycle_penalty == 0 && change_closes_cycle(pre, change))
    &&& r is CycleDetected ==> post.cycle_penalty == post.node_count && post.makespan == 0
    &&& r is CycleDetected && (forall|k: int| 0 <= k < change.added_edges@.len()
        ==> pre.arc((#[trigger] change.added_edges@[k]).0, change.added_edges@[k].1)) ==> !post.is_acyclic()
    &&& r is CycleDetected && change.removed_edges@.len() == 0 ==> post.cycle_added_edges@ == change.added_edges@
        && post.earliest == pre.earliest && post.finishes == pre.finishes
    &&& r is CycleDetected && change.removed_edges@.len() > 0 ==> post.cycle_added_edges@.len() == 0
        && (forall|v: int| 0 <= v < post.node_count ==> #[trigger] post.earliest@[v] == 0)
        && (forall|v: int| 0 <= v < post.node_count ==> #[trigger] post.finishes@[v] == 0)
    &&& r is Incremental ==> post.cycle_penalty == 0 && pre.cycle_penalty == 0
        && post.cycle_added_edges == pre.cycle_added_edges
        && is_max_of(post.makespan, post.finishes@)
    &&& r is Incremental && propagation_ready(pre, change) ==> post.is_schedule(post.earliest@)
        && (forall|v: int| 0 <= v < post.node_count ==> #[trigger] post.finishes@[v] == post.fin(post.earliest@, v))
    &&& !(r is Skipped) && pre.cycle_penalty == 0 && !change_closes_cycle(pre, change) ==> r is Incremental || r is Full
    &&& !(r is Skipped) && pre.cycle_penalty == 0 && !change_closes_cycle(pre, change) && pre.is_acyclic() ==> r is Incremental
    &&& (r matches GraphRefreshKind::Incremental { visited } ==> (pre.is_acyclic() ==> visited <= pre.node_count * pre.node_count))
    &&& (r matches GraphRefreshKind::Incremental { visited } ==> visited == propagation_of(pre, change).head
        && post.earliest@ == propagation_of(pre, change).earliest)
}

impl ListPrecedenceState {
    /// Folds a route change into the cached schedule (see `graph_refreshed`); propagation
    /// that does not settle within `n * n + n` visits falls back to a full rebuild.
    pub fn refresh_graph_after_route_change(&mut self, change: &RouteChange) -> (r: GraphRefreshKind)
        requires
            old(self).wf(),
            forall|k: int| 0 <= k < change.added_edges@.len() ==> (#[trigger] change.added_edges@[k]).0 < old(self).node_count
                && change.added_edges@[k].1 < old(self).node_count,
        ensures
            graph_refreshed(old(self), final(self), change, r),
    {
        if change.is_empty() {
            return GraphRefreshKind::Skipped;
        }
        if self.cycle_penalty > 0 {
            if self.recover_cached_cycle(change) {
                return GraphRefreshKind::CycleRecovered;
            }
            self.rebuild_graph_summary();
            return GraphRefreshKind::Full;
        }
        if self.added_edges_introduce_cycle(&change.added_edges) {
            let ghost before = *self;
            if change.removed_edges.len() == 0 {
                self.mark_cyclic_from_route_change(change);
            } else {
                self.mark_cyclic_without_cache();
            }
            proof {
                lemma_same_schedule_inputs(self, &before, self.earliest@);
            }
            return GraphRefreshKind::CycleDetected;
        }
        match self.propagate_from_seeds(change) {
            Some(visited) => {
                let ghost before = *self;
                self.makespan = self.max_finish();
                proof {
                    lemma_same_schedule_inputs(self, &before, self.earliest@);
                }
                GraphRefreshKind::Incremental { visited }
            },
            None => {
                self.rebuild_graph_summary();
                GraphRefreshKind::Full
            },
        }
    }
}

} // verus!

verus! {

impl ListPrecedenceState {
    /// The structural hard penalty: invalid fixed arcs, invalid route entries, owner
    /// violations, missing and duplicate assignments, and the cycle penalty.
    pub open spec fn structural_penalty(&self) -> int {
        self.invalid_fixed_edges + self.owner_invalid_total + self.owner_violation_total + self.assignment_penalty + self.cycle_penalty
    }

    /// The summed distance of pinned starts from their pins, counted only without a cycle.
    pub open spec fn pin_penalty(&self) -> i64 {
        if self.cycle_penalty == 0 { pin_total(self.earliest@, self.pin@, self.node_count as int) } else { 0 }
    }

    /// The summed distance of starts from their baselines, counted only without a cycle.
    pub open spec fn disruption(&self) -> i64 {
        if self.cycle_penalty == 0 { pin_total(self.earliest@, self.disruption_baseline@, self.node_count as int) } else { 0 }
    }

    /// The score of the cached state: hard is minus the structural penalty minus the pin
    /// penalty, soft is minus the makespan minus the disruption, all saturating.
    pub open spec fn cached_score(&self) -> HardSoftScore {
        HardSoftScore {
            hard: clamp_i64(-clamp_i64(self.structural_penalty()) - self.pin_penalty()),
            soft: clamp_i64(clamp_i64(-self.makespan) - self.disruption()),
        }
    }

    /// Recomputes the score from the cached penalty totals and schedule.
    pub fn refresh_score_from_cached_graph(&mut self) -> (r: HardSoftScore)
        requires
            old(self).wf(),
        ensures
            final(self).wf(),
            r == old(self).cached_score(),
            final(self).score == r,
            final(self).hard_penalty == (if old(self).structural_penalty() > u128::MAX { u128::MAX as int } else { old(self).structural_penalty() }),
            final(self).graph_same(old(self)),
            final(self).schedule_same(old(self)),
    {
        let hard_penalty = (self.invalid_fixed_edges as u128).saturating_add(self.owner_invalid_total).saturating_add(
            self.owner_violation_total,
        ).saturating_add(self.assignment_penalty).saturating_add(self.cycle_penalty as u128);
        self.hard_penalty = hard_penalty;
        let mut pin_penalty: i64 = 0;
        let mut disruption: i64 = 0;
        if self.cycle_penalty == 0 {
            let mut node: usize = 0;
            while node < self.node_count
                invariant
                    self.wf(),
                    node <= self.node_count,
                    pin_penalty == pin_total(self.earliest@, self.pin@, node as int),
                    disruption == pin_total(self.earliest@, self.disruption_baseline@, node as int),
                decreases self.node_count - node,
            {
                match self.pin[node] {
                    Some(target) => {
                        pin_penalty = sat_add_i64(pin_penalty, sat_abs_diff_i64(self.earliest[node], target));
                    },
                    None => {},
                }
                match self.disruption_baseline[node] {
                    Some(baseline) => {
                        disruption = sat_add_i64(disruption, sat_abs_diff_i64(self.earliest[node], baseline));
                    },
                    None => {},
                }
                node = node + 1;
            }
        }
        let hard = sat_sub_i64(-u128_to_i64(hard_penalty), pin_penalty);
        let soft = sat_sub_i64(sat_sub_i64(0, self.makespan), disruption);
        self.score = HardSoftScore::of(hard, soft);
        proof {
            assert(clamp_i64(hard_penalty as int) == clamp_i64(self.structural_penalty()));
        }
        self.score
    }

    /// The cached schedule (starts, finishes, makespan, cycle mark) is the same in both states.
    pub open spec fn schedule_same(&self, other: &Self) -> bool {
        &&& self.node_count == other.node_count
        &&& self.durations == other.durations
        &&& self.assigned_counts == other.assigned_counts
        &&& self.owner_elements == other.owner_elements
        &&& self.owner_edges == other.owner_edges
        &&& self.owner_invalid_counts == other.owner_invalid_counts
        &&& self.owner_violation_counts == other.owner_violation_counts
        &&& self.invalid_fixed_edges == other.invalid_fixed_edges
        &&& self.owner_invalid_total == other.owner_invalid_total
        &&& self.owner_violation_total == other.owner_violation_total
        &&& self.assignment_penalty == other.assignment_penalty
        &&& self.cycle_penalty == other.cycle_penalty
        &&& self.cycle_added_edges == other.cycle_added_edges
        &&& self.earliest == other.earliest
        &&& self.finishes == other.finishes
        &&& self.makespan == other.makespan
        &&& self.release == other.release
        &&& self.pin == other.pin
        &&& self.disruption_baseline == other.disruption_baseline
    }

    /// Rebuilds the schedule from scratch and scores it.
    pub fn refresh_score_full(&mut self) -> (r: HardSoftScore)
        requires
            old(self).wf(),
        ensures
            final(self).wf(),
            rebuilt(final(self)),
            final(self).is_acyclic() == old(self).is_acyclic(),
            r == final(self).cached_score(),
            final(self).score == r,
            final(self).graph_same(old(self)),
            final(self).node_count == old(self).node_count,
            final(self).durations == old(self).durations,
            final(self).assigned_counts == old(self).assigned_counts,
            final(self).owner_elements == old(self).owner_elements,
            final(self).owner_edges == old(self).owner_edges,
            final(self).owner_invalid_counts == old(self).owner_invalid_counts,
            final(self).owner_violation_counts == old(self).owner_violation_counts,
            final(self).invalid_fixed_edges == old(self).invalid_fixed_edges,
            final(self).owner_invalid_total == old(self).owner_invalid_total,
            final(self).owner_violation_total == old(self).owner_violation_total,
            final(self).assignment_penalty == old(self).assignment_penalty,
            final(self).release == old(self).release,
            final(self).pin == old(self).pin,
            final(self).disruption_baseline == old(self).disruption_baseline,
    {
        self.rebuild_graph_summary();
        let ghost before = *self;
        let r = self.refresh_score_from_cached_graph();
        proof {
            lemma_same_schedule_inputs(self, &before, self.earliest@);
        }
        r
    }

    /// Folds a route change into the cached schedule and scores the result.
    pub fn refresh_score_after_route_change(&mut self, change: &RouteChange) -> (r: HardSoftScore)
        requires
            old(self).wf(),
            forall|k: int| 0 <= k < change.added_edges@.len() ==> (#[trigger] change.added_edges@[k]).0 < old(self).node_count
                && change.added_edges@[k].1 < old(self).node_count,
        ensures
            final(self).wf(),
            r == final(self).cached_score(),
            final(self).score == r,
            final(self).graph_same(old(self)),
            final(self).node_count == old(self).node_count,
            final(self).owner_elements == old(self).owner_elements,
            final(self).owner_edges == old(self).owner_edges,
            final(self).release == old(self).release,
            final(self).pin == old(self).pin,
            final(self).disruption_baseline == old(self).disruption_baseline,
            final(self).assigned_counts == old(self).assigned_counts,
            final(self).invalid_fixed_edges == old(self).invalid_fixed_edges,
            final(self).owner_invalid_total == old(self).owner_invalid_total,
            final(self).owner_violation_total == old(self).owner_violation_total,
            final(self).assignment_penalty == old(self).assignment_penalty,
            final(self).durations == old(self).durations,
            final(self).owner_invalid_counts == old(self).owner_invalid_counts,
            final(self).owner_violation_counts == old(self).owner_violation_counts,
            old(self).cycle_penalty == 0 && propagation_ready(old(self), change) && nonneg_terms(old(self))
                && is_makespan(old(self).makespan, old(self).finishes@) && final(self).is_acyclic()
                && (forall|k: int| 0 <= k < change.added_edges@.len() ==> old(self).arc((#[trigger] change.added_edges@[k]).0, change.added_edges@[k].1))
                ==> exact_schedule(final(self)),
            forall|pre: ListPrecedenceState| #[trigger] changed_from(&pre, old(self), change) && cache_ok(&pre) && nonneg_terms(&pre)
                ==> cache_ok(final(self)),
    {
        let ghost before = *self;
        let kind = self.refresh_graph_after_route_change(change);
        let ghost mid = *self;
        let r = self.refresh_score_from_cached_graph();
        proof {
            assert forall|pre: ListPrecedenceState| #[trigger] changed_from(&pre, &before, change) && cache_ok(&pre)
                && nonneg_terms(&pre) implies cache_ok(self) by {
                lemma_refresh_keeps_cache(&pre, &before, &mid, change, kind);
                lemma_cache_ok_same(self, &mid);
            }
            lemma_same_schedule_inputs(self, &mid, self.earliest@);
            lemma_same_schedule_inputs(self, &before, self.earliest@);
            if before.cycle_penalty == 0 && propagation_ready(&before, change) && nonneg_terms(&before)
                && is_makespan(before.makespan, before.finishes@) && self.is_acyclic()
                && (forall|k: int| 0 <= k < change.added_edges@.len() ==> before.arc((#[trigger] change.added_edges@[k]).0, change.added_edges@[k].1)) {
                assert(mid.is_acyclic());
                match kind {
                    GraphRefreshKind::Skipped => {
                        assert forall|v: usize| v < before.node_count implies #[trigger] before.start_ok(before.earliest@, v) by {
                            assert(!is_seed(change, v));
                        }
                        assert(exact_schedule(&mid));
                    },
                    GraphRefreshKind::Incremental { .. } => {
                        lemma_schedule_nonneg(&mid);
                        if mid.node_count > 0 {
                            let k = choose|k: int| 0 <= k < mid.finishes@.len() && mid.makespan == #[trigger] mid.finishes@[k];
                        }
                        assert(exact_schedule(&mid));
                    },
                    GraphRefreshKind::Full => {
                        assert(exact_schedule(&mid));
                    },
                    GraphRefreshKind::CycleDetected => {
                        assert(!mid.is_acyclic());
                    },
                    GraphRefreshKind::CycleRecovered => {},
                }
            }
        }
        r
    }
}

} // verus!

verus! {

/// The cached schedule is exact: no cycle mark, every node starts as it must, every finish is
/// its start plus its duration, and the makespan is the latest finish (at least 0).
pub open spec fn exact_schedule(s: &ListPrecedenceState) -> bool {
    &&& s.cycle_penalty == 0
    &&& s.is_schedule(s.earliest@)
    &&& forall|v: int| 0 <= v < s.node_count ==> #[trigger] s.finishes@[v] == s.fin(s.earliest@, v)
    &&& is_makespan(s.makespan, s.finishes@)
}

/// Release times and durations are not negative.
pub open spec fn nonneg_terms(s: &ListPrecedenceState) -> bool {
    &&& forall|v: int| 0 <= v < s.node_count ==> #[trigger] s.release@[v] >= 0
    &&& forall|v: int| 0 <= v < s.node_count ==> #[trigger] s.durations@[v] >= 0
}

/// Whether node `v` starts as it must depends only on its incoming arcs, its own start, the
/// starts of its predecessors, their durations and its release time.
pub proof fn lemma_start_ok_inarcs(a: &ListPrecedenceState, b: &ListPrecedenceState, e: Seq<i64>, v: usize)
    requires
        a.node_count == b.node_count,
        a.durations@ == b.durations@,
        a.release@ == b.release@,
        forall|u: usize| #![trigger a.arc(u, v)] #![trigger b.arc(u, v)] a.arc(u, v) == b.arc(u, v),
    ensures
        a.start_ok(e, v) == b.start_ok(e, v),
{
    assert forall|u: usize| #![trigger a.fin(e, u as int)] #![trigger b.fin(e, u as int)] a.fin(e, u as int) == b.fin(e, u as int) by {}
    if a.start_ok(e, v) && e[v as int] != a.release@[v as int] {
        let u = choose|u: usize| #[trigger] a.arc(u, v) && e[v as int] == a.fin(e, u as int);
        assert(b.arc(u, v) && e[v as int] == b.fin(e, u as int));
    }
    if b.start_ok(e, v) && e[v as int] != b.release@[v as int] {
        let u = choose|u: usize| #[trigger] b.arc(u, v) && e[v as int] == b.fin(e, u as int);
        assert(a.arc(u, v) && e[v as int] == a.fin(e, u as int));
    }
}

/// After a route replacement from an exact state, propagating from the heads of the changed
/// arcs starts from a ready state.
pub proof fn lemma_route_change_ready(before: &ListPrecedenceState, after: &ListPrecedenceState, change: &RouteChange)
    requires
        before.wf(),
        after.wf(),
        exact_schedule(before),
        nonneg_terms(before),
        after.node_count == before.node_count,
        after.same_schedule(before),
        lists_appeared(change.added_edges@, before, after),
        lists_vanished(change.removed_edges@, before, after),
    ensures
        propagation_ready(after, change),
        after.cycle_penalty == 0,
        is_makespan(after.makespan, after.finishes@),
        change.added_edges@.len() == 0 && change.removed_edges@.len() == 0 ==> after.is_schedule(after.earliest@),
        forall|k: int| 0 <= k < change.added_edges@.len() ==> after.arc((#[trigger] change.added_edges@[k]).0, change.added_edges@[k].1),
        forall|k: int| 0 <= k < change.added_edges@.len() ==> (#[trigger] change.added_edges@[k]).0 < after.node_count
            && change.added_edges@[k].1 < after.node_count,
{
    let n = before.node_count;
    let e = before.earliest@;
    assert forall|k: int| 0 <= k < change.added_edges@.len() implies after.arc((#[trigger] change.added_edges@[k]).0, change.added_edges@[k].1)
        && change.added_edges@[k].0 < n && change.added_edges@[k].1 < n by {
        let ed = change.added_edges@[k];
        assert(change.added_edges@.contains((ed.0, ed.1)));
    }
    assert forall|v: usize| v < n && !is_seed(change, v) implies #[trigger] after.start_ok(after.earliest@, v) by {
        assert forall|u: usize| #![trigger before.arc(u, v)] #![trigger after.arc(u, v)] before.arc(u, v) == after.arc(u, v) by {
            before.lemma_arc_count_bounded(u, v);
            after.lemma_arc_count_bounded(u, v);
            if before.arc(u, v) && !after.arc(u, v) {
                assert(change.removed_edges@.contains((u, v)));
                let k = choose|k: int| 0 <= k < change.removed_edges@.len() && change.removed_edges@[k] == (u, v);
                assert(change.removed_edges@[k].1 == v);
            }
            if !before.arc(u, v) && after.arc(u, v) {
                assert(change.added_edges@.contains((u, v)));
                let k = choose|k: int| 0 <= k < change.added_edges@.len() && change.added_edges@[k] == (u, v);
                assert(change.added_edges@[k].1 == v);
            }
        }
        assert(before.start_ok(e, v));
        lemma_start_ok_inarcs(before, after, e, v);
    }
    if change.added_edges@.len() == 0 && change.removed_edges@.len() == 0 {
        assert forall|v: usize| v < n implies #[trigger] after.start_ok(after.earliest@, v) by {
            assert(!is_seed(change, v));
        }
    }
}

/// A graph whose arcs are all arcs of an acyclic graph is acyclic.
pub proof fn lemma_sub_acyclic(big: &ListPrecedenceState, small: &ListPrecedenceState)
    requires
        big.is_acyclic(),
        big.node_count == small.node_count,
        forall|u: usize, v: usize| #[trigger] small.arc(u, v) ==> big.arc(u, v),
    ensures
        small.is_acyclic(),
{
    let r = choose|r: Seq<nat>| big.is_topological_rank(r);
    assert(small.is_topological_rank(r));
}

/// The finishes of a schedule with releases and durations that are not negative are not
/// negative.
pub proof fn lemma_schedule_nonneg(s: &ListPrecedenceState)
    requires
        s.wf(),
        nonneg_terms(s),
        s.is_schedule(s.earliest@),
        forall|v: int| 0 <= v < s.node_count ==> #[trigger] s.finishes@[v] == s.fin(s.earliest@, v),
    ensures
        forall|v: int| 0 <= v < s.node_count ==> #[trigger] s.finishes@[v] >= 0,
{
    assert forall|v: int| 0 <= v < s.node_count implies #[trigger] s.finishes@[v] >= 0 by {
        assert(s.start_ok(s.earliest@, v as usize));
        assert(s.release@[v] >= 0);
        assert(s.durations@[v] >= 0);
    }
}

} // verus!

verus! {

/// Two starts that both satisfy a node's equation, over the same incoming arcs and the same
/// predecessor finishes, are equal.
proof fn lemma_start_unique(a: &ListPrecedenceState, b: &ListPrecedenceState, e1: Seq<i64>, e2: Seq<i64>, v: usize)
    requires
        a.start_ok(e1, v),
        b.start_ok(e2, v),
        a.release@[v as int] == b.release@[v as int],
        forall|u: usize| #![trigger a.arc(u, v)] #![trigger b.arc(u, v)] a.arc(u, v) == b.arc(u, v),
        forall|u: usize| #[trigger] a.arc(u, v) ==> a.fin(e1, u as int) == b.fin(e2, u as int),
    ensures
        e1[v as int] == e2[v as int],
{
    if e1[v as int] != a.release@[v as int] {
        let u1 = choose|u: usize| #[trigger] a.arc(u, v) && e1[v as int] == a.fin(e1, u as int);
        assert(b.arc(u1, v));
    }
    if e2[v as int] != b.release@[v as int] {
        let u2 = choose|u: usize| #[trigger] b.arc(u, v) && e2[v as int] == b.fin(e2, u as int);
        assert(a.arc(u2, v));
    }
}

proof fn lemma_schedule_agree_upto(
    a: &ListPrecedenceState,
    b: &ListPrecedenceState,
    e1: Seq<i64>,
    e2: Seq<i64>,
    rank: Seq<nat>,
    k: nat,
)
    requires
        a.is_topological_rank(rank),
        a.is_schedule(e1),
        b.is_schedule(e2),
        a.node_count == b.node_count,
        a.durations@ == b.durations@,
        a.release@ == b.release@,
        forall|u: usize, v: usize| #![trigger a.arc(u, v)] #![trigger b.arc(u, v)] a.arc(u, v) == b.arc(u, v),
    ensures
        forall|v: usize| v < a.node_count && rank[v as int] <= k ==> #[trigger] e1[v as int] == e2[v as int],
    decreases k,
{
    if k > 0 {
        lemma_schedule_agree_upto(a, b, e1, e2, rank, (k - 1) as nat);
    }
    assert forall|v: usize| v < a.node_count && rank[v as int] <= k implies #[trigger] e1[v as int] == e2[v as int] by {
        assert forall|u: usize| #[trigger] a.arc(u, v) implies a.fin(e1, u as int) == b.fin(e2, u as int) by {
            assert(rank[u as int] < rank[v as int]);
            assert(e1[u as int] == e2[u as int]);
        }
        assert(a.start_ok(e1, v));
        assert(b.start_ok(e2, v));
        lemma_start_unique(a, b, e1, e2, v);
    }
}

/// On a graph without cycles the schedule is unique: two states with the same nodes, arcs,
/// durations and release times have the same schedule.
pub proof fn lemma_schedule_unique(a: &ListPrecedenceState, b: &ListPrecedenceState, e1: Seq<i64>, e2: Seq<i64>)
    requires
        a.is_acyclic(),
        a.is_schedule(e1),
        b.is_schedule(e2),
        a.node_count == b.node_count,
        a.durations@ == b.durations@,
        a.release@ == b.release@,
        forall|u: usize, v: usize| #![trigger a.arc(u, v)] #![trigger b.arc(u, v)] a.arc(u, v) == b.arc(u, v),
    ensures
        e1 == e2,
{
    let rank = choose|r: Seq<nat>| a.is_topological_rank(r);
    assert forall|i: int| 0 <= i < e1.len() implies e1[i] == e2[i] by {
        let v = i as usize;
        lemma_schedule_agree_upto(a, b, e1, e2, rank, rank[i]);
        assert(e1[v as int] == e2[v as int]);
    }
    assert(e1 =~= e2);
}

/// Two exact states over the same acyclic graph, with the same per-node data and the same
/// structural penalty totals, have the same starts, makespan and score: the score does not
/// depend on how the state was reached.
pub proof fn lemma_exact_scores_agree(a: &ListPrecedenceState, b: &ListPrecedenceState)
    requires
        a.wf(),
        b.wf(),
        exact_schedule(a),
        exact_schedule(b),
        a.is_acyclic(),
        a.node_count == b.node_count,
        a.durations@ == b.durations@,
        a.release@ == b.release@,
        a.pin@ == b.pin@,
        a.disruption_baseline@ == b.disruption_baseline@,
        forall|u: usize, v: usize| #![trigger a.arc(u, v)] #![trigger b.arc(u, v)] a.arc(u, v) == b.arc(u, v),
        a.invalid_fixed_edges == b.invalid_fixed_edges,
        a.owner_invalid_total == b.owner_invalid_total,
        a.owner_violation_total == b.owner_violation_total,
        a.assignment_penalty == b.assignment_penalty,
    ensures
        a.earliest@ == b.earliest@,
        a.makespan == b.makespan,
        a.cached_score() == b.cached_score(),
{
    lemma_schedule_unique(a, b, a.earliest@, b.earliest@);
    assert(a.finishes@ =~= b.finishes@) by {
        assert forall|v: int| 0 <= v < a.node_count implies a.finishes@[v] == b.finishes@[v] by {
            assert(a.fin(a.earliest@, v) == b.fin(b.earliest@, v));
        }
    }
    let f = a.finishes@;
    if a.makespan != b.makespan {
        if a.makespan < b.makespan {
            if b.makespan != 0 {
                let k = choose|k: int| 0 <= k < f.len() && b.makespan == #[trigger] f[k];
                assert(a.makespan >= f[k]);
            }
        } else {
            if a.makespan != 0 {
                let k = choose|k: int| 0 <= k < f.len() && a.makespan == #[trigger] f[k];
                assert(b.makespan >= b.finishes@[k]);
            }
        }
    }
}

} // verus!

verus! {

/// The nodes from which a walk leads to `v`.
pub open spec fn ancestors(s: &ListPrecedenceState, v: usize) -> Set<int> {
    Set::new(|y: int| 0 <= y < s.node_count && s.reaches(y as usize, v))
}

/// When no arc `u -> v` has a walk back from `v` to `u`, numbering each node by its count of
/// ancestors orders the arcs, so the graph has no cycle.
pub proof fn lemma_acyclic_without_closing_walk(s: &ListPrecedenceState)
    requires
        forall|u: usize, v: usize| #[trigger] s.arc(u, v) ==> !s.reaches(v, u),
    ensures
        s.is_acyclic(),
{
    let n = s.node_count as int;
    lemma_int_range(0, n);
    let rank = Seq::new(s.node_count as nat, |i: int| ancestors(s, i as usize).len());
    assert forall|u: usize, v: usize| #[trigger] s.arc(u, v) implies rank[u as int] < rank[v as int] by {
        let au = ancestors(s, u);
        let av = ancestors(s, v);
        assert(av.subset_of(set_int_range(0, n)));
        lemma_len_subset(av, set_int_range(0, n));
        assert forall|y: int| au.contains(y) implies av.remove(v as int).contains(y) by {
            lemma_reaches_step(s, y as usize, u, v);
        }
        lemma_reaches_self(s, v);
        assert(av.contains(v as int));
        lemma_len_subset(au, av.remove(v as int));
    }
    assert(s.is_topological_rank(rank));
}

/// A walk closed by an arc from its last node back to its first can be entered at any of its
/// arcs: the head of that arc reaches its tail.
proof fn lemma_rotated_walk(s: &ListPrecedenceState, w: Seq<usize>, i: int)
    requires
        s.is_walk(w),
        s.arc(w.last(), w[0]),
        0 <= i < w.len() - 1,
    ensures
        s.reaches(w[i + 1], w[i]),
{
    let len = w.len() as int;
    let cut = len - i - 1;
    let w2 = w.subrange(i + 1, len) + w.subrange(0, i + 1);
    assert forall|j: int| 0 <= j < w2.len() - 1 implies #[trigger] s.arc(w2[j], w2[j + 1]) by {
        if j < cut - 1 {
            assert(w2[j] == w[i + 1 + j] && w2[j + 1] == w[i + 2 + j]);
            assert(s.arc(w[i + 1 + j], w[i + 1 + j + 1]));
        } else if j == cut - 1 {
            assert(w2[j] == w[len - 1] && w2[j + 1] == w[0]);
        } else {
            assert(w2[j] == w[j - cut] && w2[j + 1] == w[j - cut + 1]);
            assert(s.arc(w[j - cut], w[j - cut + 1]));
        }
    }
    assert(w2[0] == w[i + 1]);
    assert(w2.last() == w[i]);
    assert(s.is_walk(w2) && w2[0] == w[i + 1] && w2.last() == w[i]);
}

/// Adding arcs to a graph without cycles makes a cycle only through an added arc: when no
/// added arc `u -> v` has a walk back from `v` to `u`, the larger graph has no cycle either.
pub proof fn lemma_new_cycle_needs_added_arc(pre: &ListPrecedenceState, post: &ListPrecedenceState, added: Seq<Edge>)
    requires
        pre.is_acyclic(),
        forall|u: usize, v: usize| #[trigger] post.arc(u, v) ==> pre.arc(u, v) || added.contains((u, v)),
        forall|k: int| 0 <= k < added.len() ==> !post.reaches((#[trigger] added[k]).1, added[k].0),
    ensures
        post.is_acyclic(),
{
    assert forall|u: usize, v: usize| #[trigger] post.arc(u, v) implies !post.reaches(v, u) by {
        if post.reaches(v, u) {
            let w = choose|w: Seq<usize>| #[trigger] post.is_walk(w) && w[0] == v && w.last() == u;
            if !pre.arc(u, v) {
                let k = choose|k: int| 0 <= k < added.len() && added[k] == (u, v);
                assert(!post.reaches(added[k].1, added[k].0));
            } else if exists|i: int| 0 <= i < w.len() - 1 && !pre.arc(#[trigger] w[i], w[i + 1]) {
                let i = choose|i: int| 0 <= i < w.len() - 1 && !pre.arc(#[trigger] w[i], w[i + 1]);
                assert(post.arc(w[i], w[i + 1]));
                let k = choose|k: int| 0 <= k < added.len() && added[k] == (w[i], w[i + 1]);
                lemma_rotated_walk(post, w, i);
                assert(!post.reaches(added[k].1, added[k].0));
            } else {
                assert(pre.is_walk(w));
                assert(pre.reaches(v, u));
                lemma_closing_walk_cyclic(pre, u, v);
            }
        }
    }
    lemma_acyclic_without_closing_walk(post);
}

} // verus!

verus! {

/// `b` has the nodes, durations and release times of `s` and exactly its arcs but those in
/// `s.cycle_added_edges`; it has no cycle, and the cached starts of `s` are its schedule.
pub open spec fn is_base_of(b: &ListPrecedenceState, s: &ListPrecedenceState) -> bool {
    &&& b.node_count == s.node_count
    &&& b.durations@ == s.durations@
    &&& b.release@ == s.release@
    &&& forall|u: usize, v: usize| #[trigger] b.arc(u, v) == (s.arc(u, v) && !s.cycle_added_edges@.contains((u, v)))
    &&& b.is_acyclic()
    &&& b.is_schedule(s.earliest@)
}

/// The cached schedule agrees with the graph: exact when the graph has no cycle; with a
/// cycle, the cycle penalty is the node count and the makespan 0, and starts kept under a cycle
/// mark are the schedule of the graph without the arcs that made the cycle.
pub open spec fn cache_ok(s: &ListPrecedenceState) -> bool {
    &&& s.is_acyclic() ==> exact_schedule(s)
    &&& !s.is_acyclic() ==> s.cycle_penalty == s.node_count && s.makespan == 0
    &&& !s.is_acyclic() && s.cycle_added_edges@.len() > 0 ==> (exists|b: ListPrecedenceState| #[trigger] is_base_of(&b, s))
        && (forall|v: int| 0 <= v < s.node_count ==> #[trigger] s.finishes@[v] == s.fin(s.earliest@, v))
}

/// `post` is `pre` after a route replacement whose new and vanished arcs `change` lists, with
/// the schedule not yet refreshed.
pub open spec fn changed_from(pre: &ListPrecedenceState, post: &ListPrecedenceState, change: &RouteChange) -> bool {
    &&& pre.wf()
    &&& post.wf()
    &&& post.node_count == pre.node_count
    &&& post.same_schedule(pre)
    &&& lists_appeared(change.added_edges@, pre, post)
    &&& lists_vanished(change.removed_edges@, pre, post)
}

/// A graph with no nodes has no cycle.
proof fn lemma_no_nodes_acyclic(s: &ListPrecedenceState)
    requires
        s.node_count == 0,
    ensures
        s.is_acyclic(),
{
    assert(s.is_topological_rank(Seq::<nat>::empty()));
}

/// `a` and `b` agree on arcs, durations, release times and the cached schedule, so the cache of
/// one agrees with its graph exactly when the cache of the other does.
pub proof fn lemma_cache_ok_same(a: &ListPrecedenceState, b: &ListPrecedenceState)
    requires
        a.node_count == b.node_count,
        a.graph_same(b),
        a.schedule_same(b),
        cache_ok(b),
    ensures
        cache_ok(a),
{
    lemma_same_schedule_inputs(a, b, a.earliest@);
    if a.is_acyclic() {
        assert forall|v: int| 0 <= v < a.node_count implies #[trigger] a.finishes@[v] == a.fin(a.earliest@, v) by {
            assert(b.finishes@[v] == b.fin(b.earliest@, v));
        }
        assert(exact_schedule(a));
    }
    if !a.is_acyclic() && a.cycle_added_edges@.len() > 0 {
        let w = choose|w: ListPrecedenceState| #[trigger] is_base_of(&w, b);
        assert(is_base_of(&w, a));
        assert forall|v: int| 0 <= v < a.node_count implies #[trigger] a.finishes@[v] == a.fin(a.earliest@, v) by {
            assert(b.finishes@[v] == b.fin(b.earliest@, v));
        }
    }
}

/// With releases and durations not negative, a schedule whose makespan is its largest finish
/// is exact.
proof fn lemma_max_is_makespan(s: &ListPrecedenceState)
    requires
        s.wf(),
        nonneg_terms(s),
        s.cycle_penalty == 0,
        s.is_schedule(s.earliest@),
        forall|v: int| 0 <= v < s.node_count ==> #[trigger] s.finishes@[v] == s.fin(s.earliest@, v),
        is_max_of(s.makespan, s.finishes@),
    ensures
        exact_schedule(s),
{
    lemma_schedule_nonneg(s);
    if s.node_count > 0 {
        let k = choose|k: int| 0 <= k < s.finishes@.len() && s.makespan == #[trigger] s.finishes@[k];
        assert(s.makespan >= 0);
    }
}

/// Refreshing the schedule after a route replacement keeps the cache in agreement with the
/// graph.
pub proof fn lemma_refresh_keeps_cache(
    pre: &ListPrecedenceState,
    m: &ListPrecedenceState,
    post: &ListPrecedenceState,
    change: &RouteChange,
    r: GraphRefreshKind,
)
    requires
        changed_from(pre, m, change),
        graph_refreshed(m, post, change, r),
        cache_ok(pre),
        nonneg_terms(pre),
    ensures
        cache_ok(post),
{
    let n = pre.node_count;
    let added = change.added_edges@;
    let removed = change.removed_edges@;
    assert forall|u: usize, v: usize| #[trigger] m.arc(u, v) && !pre.arc(u, v) implies added.contains((u, v)) by {
        pre.lemma_arc_count_nonneg(u, v);
    }
    assert forall|u: usize, v: usize| #[trigger] pre.arc(u, v) && !m.arc(u, v) implies removed.contains((u, v)) by {
        m.lemma_arc_count_nonneg(u, v);
    }
    lemma_same_schedule_inputs(post, m, post.earliest@);
    assert(nonneg_terms(post));
    if pre.is_acyclic() {
        lemma_route_change_ready(pre, m, change);
        match r {
            GraphRefreshKind::Skipped => {
                assert forall|u: usize, v: usize| #[trigger] m.arc(u, v) implies pre.arc(u, v) by {}
                lemma_sub_acyclic(pre, m);
                assert forall|v: int| 0 <= v < n implies #[trigger] post.finishes@[v] == post.fin(post.earliest@, v) by {
                    assert(pre.finishes@[v] == pre.fin(pre.earliest@, v));
                }
            },
            GraphRefreshKind::Incremental { .. } => {
                assert forall|k: int| 0 <= k < added.len() implies !m.reaches((#[trigger] added[k]).1, added[k].0) by {}
                lemma_new_cycle_needs_added_arc(pre, m, added);
                lemma_max_is_makespan(post);
            },
            GraphRefreshKind::Full => {},
            GraphRefreshKind::CycleDetected => {
                assert(!post.is_acyclic());
                if removed.len() == 0 {
                    assert forall|u: usize, v: usize| #[trigger] pre.arc(u, v) == (post.arc(u, v) && !post.cycle_added_edges@.contains((u, v))) by {
                        if pre.arc(u, v) && added.contains((u, v)) {
                            assert(pre.arc_count(u, v) == 0);
                        }
                    }
                    assert(is_base_of(pre, post));
                    assert forall|v: int| 0 <= v < n implies #[trigger] post.finishes@[v] == post.fin(post.earliest@, v) by {
                        assert(pre.finishes@[v] == pre.fin(pre.earliest@, v));
                    }
                }
            },
            GraphRefreshKind::CycleRecovered => {},
        }
    } else {
        if n == 0 {
            lemma_no_nodes_acyclic(pre);
        }
        let c = pre.cycle_added_edges@;
        match r {
            GraphRefreshKind::Skipped => {
                assert forall|u: usize, v: usize| #[trigger] pre.arc(u, v) implies m.arc(u, v) by {}
                if post.is_acyclic() {
                    lemma_sub_acyclic(post, pre);
                }
                if c.len() > 0 {
                    let b = choose|b: ListPrecedenceState| #[trigger] is_base_of(&b, pre);
                    assert(is_base_of(&b, post));
                    assert forall|v: int| 0 <= v < n implies #[trigger] post.finishes@[v] == post.fin(post.earliest@, v) by {
                        assert(pre.finishes@[v] == pre.fin(pre.earliest@, v));
                    }
                }
            },
            GraphRefreshKind::CycleRecovered => {
                let b = choose|b: ListPrecedenceState| #[trigger] is_base_of(&b, pre);
                assert forall|k: int| 0 <= k < removed.len() implies c.contains(#[trigger] removed[k]) by {}
                assert forall|u: usize, v: usize| #![trigger b.arc(u, v)] #![trigger post.arc(u, v)] b.arc(u, v) == post.arc(u, v) by {
                    if m.arc(u, v) && c.contains((u, v)) {
                        let k = choose|k: int| 0 <= k < c.len() && c[k] == (u, v);
                        assert(m.arc_count(c[k].0, c[k].1) <= 0);
                    }
                    if pre.arc(u, v) && !m.arc(u, v) {
                        assert(removed.contains((u, v)));
                        let k = choose|k: int| 0 <= k < removed.len() && removed[k] == (u, v);
                        assert(c.contains(removed[k]));
                    }
                }
                lemma_sub_acyclic(&b, post);
                assert forall|v: usize| v < n implies #[trigger] post.start_ok(post.earliest@, v) by {
                    assert(b.start_ok(pre.earliest@, v));
                    lemma_start_ok_inarcs(&b, post, pre.earliest@, v);
                }
                assert forall|v: int| 0 <= v < n implies #[trigger] post.finishes@[v] == post.fin(post.earliest@, v) by {
                    assert(pre.finishes@[v] == pre.fin(pre.earliest@, v));
                }
                lemma_max_is_makespan(post);
            },
            GraphRefreshKind::Full => {},
            GraphRefreshKind::CycleDetected => {},
            GraphRefreshKind::Incremental { .. } => {},
        }
    }
}

} // verus!

verus! {

/// Some walk of `k` arcs ends at `v`.
pub open spec fn walk_of_len(s: &ListPrecedenceState, v: usize, k: nat) -> bool {
    exists|w: Seq<usize>| #[trigger] s.is_walk(w) && w.len() == k + 1 && w.last() == v
}

/// A walk followed by an arc out of its last node is a walk.
proof fn lemma_walk_push(s: &ListPrecedenceState, w: Seq<usize>, x: usize)
    requires
        s.is_walk(w),
        s.arc(w.last(), x),
    ensures
        s.is_walk(w.push(x)),
{
    let w2 = w.push(x);
    assert forall|i: int| 0 <= i < w2.len() - 1 implies #[trigger] s.arc(w2[i], w2[i + 1]) by {
        if i < w.len() - 1 {
            assert(w2[i] == w[i] && w2[i + 1] == w[i + 1]);
        } else {
            assert(w2[i] == w.last() && w2[i + 1] == x);
        }
    }
}

/// Along a walk of a ranked graph the ranks strictly increase.
proof fn lemma_walk_rank_increases(s: &ListPrecedenceState, rank: Seq<nat>, w: Seq<usize>, i: int, j: int)
    requires
        s.is_topological_rank(rank),
        s.is_walk(w),
        0 <= i < j < w.len(),
    ensures
        rank[w[i] as int] < rank[w[j] as int],
    decreases j - i,
{
    let p = j - 1;
    assert(s.arc(w[p], w[p + 1]));
    if j - 1 > i {
        lemma_walk_rank_increases(s, rank, w, i, j - 1);
    }
}

/// In a graph without cycles a walk ending at a node never repeats a node, so it has at most
/// `n` nodes.
proof fn lemma_walk_short(s: &ListPrecedenceState, w: Seq<usize>)
    requires
        s.is_acyclic(),
        s.is_walk(w),
        w.last() < s.node_count,
    ensures
        w.len() <= s.node_count,
{
    let rank = choose|r: Seq<nat>| s.is_topological_rank(r);
    assert forall|i: int, j: int| 0 <= i < w.len() && 0 <= j < w.len() && i != j implies w[i] != w[j] by {
        if i < j {
            lemma_walk_rank_increases(s, rank, w, i, j);
        } else {
            lemma_walk_rank_increases(s, rank, w, j, i);
        }
    }
    assert forall|k: int| 0 <= k < w.len() implies #[trigger] w[k] < s.node_count by {
        if k < w.len() - 1 {
            assert(s.arc(w[k], w[k + 1]));
        }
    }
    lemma_nodup_below(w, s.node_count as nat);
}

/// A sequence of distinct integers in `0..bound` has at most `bound` entries.
proof fn lemma_nodup_ints_below(t: Seq<int>, bound: int)
    requires
        bound >= 0,
        t.no_duplicates(),
        forall|k: int| 0 <= k < t.len() ==> 0 <= #[trigger] t[k] < bound,
    ensures
        t.len() <= bound,
{
    t.unique_seq_to_set();
    lemma_int_range(0, bound);
    assert(t.to_set().subset_of(set_int_range(0, bound))) by {
        assert forall|y: int| t.to_set().contains(y) implies set_int_range(0, bound).contains(y) by {
            let k = choose|k: int| 0 <= k < t.len() && t[k] == y;
        }
    }
    lemma_len_subset(t.to_set(), set_int_range(0, bound));
}

/// Queue entries tagged with rounds below `rounds`, holding nodes below `n`, with no node twice
/// in one round, number at most `rounds * n`.
proof fn lemma_round_count(rd: Seq<nat>, q: Seq<usize>, n: nat, rounds: nat)
    requires
        rd.len() == q.len(),
        forall|k: int| 0 <= k < q.len() ==> #[trigger] q[k] < n,
        forall|k: int| 0 <= k < rd.len() ==> #[trigger] rd[k] < rounds,
        forall|i: int, j: int| 0 <= i < j < q.len() && rd[i] == rd[j] ==> q[i] != q[j],
    ensures
        q.len() <= rounds * n,
{
    let t = Seq::new(q.len(), |k: int| rd[k] * n + q[k]);
    assert forall|k: int| 0 <= k < t.len() implies 0 <= #[trigger] t[k] < rounds * n by {
        let a = rd[k];
        let b = q[k] as int;
        assert(0 <= a * n + b < rounds * n) by (nonlinear_arith)
            requires
                0 <= b < n,
                a < rounds,
                a >= 0,
        {
            assert(a * n + n <= rounds * n);
        }
    }
    assert forall|i: int, j: int| 0 <= i < t.len() && 0 <= j < t.len() && i != j implies t[i] != t[j] by {
        let (x, y) = if i < j { (i, j) } else { (j, i) };
        if rd[x] == rd[y] {
            assert(q[x] != q[y]);
        } else {
            let a1 = rd[x];
            let a2 = rd[y];
            let b1 = q[x] as int;
            let b2 = q[y] as int;
            assert(a1 * n + b1 != a2 * n + b2) by (nonlinear_arith)
                requires
                    a1 != a2,
                    0 <= b1 < n,
                    0 <= b2 < n,
                    a1 >= 0,
                    a2 >= 0,
            {
                if a1 < a2 {
                    assert(a1 * n + n <= a2 * n);
                } else {
                    assert(a2 * n + n <= a1 * n);
                }
            }
        }
    }
    lemma_nodup_ints_below(t, (rounds * n) as int);
}

} // verus!

verus! {

/// Whether every arc of `edges` is among `within`.
fn edges_within(edges: &Vec<Edge>, within: &Vec<Edge>) -> (r: bool)
    ensures
        r == forall|k: int| 0 <= k < edges@.len() ==> within@.contains(#[trigger] edges@[k]),
{
    let mut i: usize = 0;
    while i < edges.len()
        invariant
            i <= edges@.len(),
            forall|k: int| 0 <= k < i ==> within@.contains(#[trigger] edges@[k]),
        decreases edges@.len() - i,
    {
        let e = edges[i];
        let mut j: usize = 0;
        let mut found = false;
        while j < within.len()
            invariant
                j <= within@.len(),
                found == exists|m: int| 0 <= m < j && within@[m] == e,
            decreases within@.len() - j,
        {
            if within[j].0 == e.0 && within[j].1 == e.1 {
                found = true;
            }
            j = j + 1;
        }
        if !found {
            assert(!within@.contains(edges@[i as int]));
            return false;
        }
        i = i + 1;
    }
    true
}

} // verus!

verus! {

/// The latest finish, under the starts `e`, among the nodes of `preds` (0 when there are none).
pub open spec fn max_fin(s: &ListPrecedenceState, e: Seq<i64>, preds: Seq<usize>) -> i64
    decreases preds.len(),
{
    if preds.len() == 0 {
        0
    } else {
        let rest = max_fin(s, e, preds.drop_last());
        let f = s.fin(e, preds.last() as int);
        if preds.len() == 1 || f > rest { f } else { rest }
    }
}

/// The start that the starts `e` pull node `v` to: the latest finish of a predecessor (0
/// without predecessors), raised to the release time.
pub open spec fn pulled(s: &ListPrecedenceState, e: Seq<i64>, v: usize) -> i64 {
    let best = max_fin(s, e, s.predecessors@[v as int]@);
    if s.release@[v as int] > best { s.release@[v as int] } else { best }
}

/// The progress of propagating from seeds: the current starts, the FIFO queue of nodes with
/// the number already taken off it, and which nodes are waiting in it.
pub ghost struct Propagation {
    pub earliest: Seq<i64>,
    pub queue: Seq<usize>,
    pub head: nat,
    pub queued: Seq<bool>,
}

/// The queue and waiting marks after offering each node of `nodes` in turn: a node below `n`
/// that is not waiting joins the back of the queue.
pub open spec fn offer_nodes(queue: Seq<usize>, queued: Seq<bool>, nodes: Seq<usize>, n: nat) -> (Seq<usize>, Seq<bool>)
    decreases nodes.len(),
{
    if nodes.len() == 0 {
        (queue, queued)
    } else {
        let (q, qd) = offer_nodes(queue, queued, nodes.drop_last(), n);
        let x = nodes.last();
        if x < n && !qd[x as int] { (q.push(x), qd.update(x as int, true)) } else { (q, qd) }
    }
}

/// The heads of the arcs a change added, then of those it removed.
pub open spec fn change_seeds(change: &RouteChange) -> Seq<usize> {
    change.added_edges@.map_values(|e: Edge| e.1) + change.removed_edges@.map_values(|e: Edge| e.1)
}

/// Propagation before any visit: the seeds below `n`, each once, in order.
pub open spec fn propagation_start(s: &ListPrecedenceState, change: &RouteChange) -> Propagation {
    let (q, qd) = offer_nodes(Seq::empty(), Seq::new(s.node_count as nat, |i: int| false), change_seeds(change), s.node_count as nat);
    Propagation { earliest: s.earliest@, queue: q, head: 0, queued: qd }
}

/// One visit: the node at the front leaves the queue; when the start it is pulled to differs
/// from its current start, it takes that start and its successors are offered to the queue.
pub open spec fn propagation_step(s: &ListPrecedenceState, p: Propagation) -> Propagation {
    let node = p.queue[p.head as int];
    let queued = p.queued.update(node as int, false);
    let ne = pulled(s, p.earliest, node);
    if ne == p.earliest[node as int] {
        Propagation { head: p.head + 1, queued, ..p }
    } else {
        let (q, qd) = offer_nodes(p.queue, queued, s.successors@[node as int]@, s.node_count as nat);
        Propagation { earliest: p.earliest.update(node as int, ne), queue: q, head: p.head + 1, queued: qd }
    }
}

/// Propagation run for at most `fuel` visits, stopping early once the queue is empty.
pub open spec fn propagation_run(s: &ListPrecedenceState, p: Propagation, fuel: nat) -> Propagation
    decreases fuel,
{
    if fuel == 0 || p.head >= p.queue.len() {
        p
    } else {
        propagation_run(s, propagation_step(s, p), (fuel - 1) as nat)
    }
}

/// The visit budget of propagation over `n` nodes: `n * n + n`, saturating at `usize::MAX`.
pub open spec fn propagation_budget(n: nat) -> nat {
    if n * n + n <= usize::MAX { n * n + n } else { usize::MAX as nat }
}

/// Propagation of `change` through `s`, within its budget.
pub open spec fn propagation_of(s: &ListPrecedenceState, change: &RouteChange) -> Propagation {
    propagation_run(s, propagation_start(s, change), propagation_budget(s.node_count as nat))
}

} // verus!

verus! {

/// The latest predecessor finish depends only on the durations.
proof fn lemma_max_fin_same(a: &ListPrecedenceState, b: &ListPrecedenceState, e: Seq<i64>, preds: Seq<usize>)
    requires
        a.durations@ == b.durations@,
    ensures
        max_fin(a, e, preds) == max_fin(b, e, preds),
    decreases preds.len(),
{
    if preds.len() > 0 {
        lemma_max_fin_same(a, b, e, preds.drop_last());
        assert(a.fin(e, preds.last() as int) == b.fin(e, preds.last() as int));
    }
}

/// The start a node is pulled to depends only on the predecessor lists, durations and release
/// times.
proof fn lemma_pulled_same(a: &ListPrecedenceState, b: &ListPrecedenceState, e: Seq<i64>, v: usize)
    requires
        a.durations@ == b.durations@,
        a.release@ == b.release@,
        a.predecessors@ == b.predecessors@,
    ensures
        pulled(a, e, v) == pulled(b, e, v),
{
    lemma_max_fin_same(a, b, e, a.predecessors@[v as int]@);
}

} // verus!
