use std::rc::Rc;

use vstd::prelude::*;

use crate::config::{MoveSelectorConfig, UnionSelectionOrder};
use crate::family_block_selector::FamilyBlockMoveSelector;
use crate::slot::{IntraDistanceAdapter, copy_opt_vec, copy_opt_table, copy_vec, opt_deep, opt_view, ListVariableSlot};
use crate::solution::{clone_keys, clone_table, deep_table};

verus! {

/// Options of a list ruin neighborhood.
#[derive(Debug, Clone, Copy, PartialEq, Eq)]
pub struct ListRuinOptions {
    pub min_ruin_count: usize,
    pub max_ruin_count: usize,
    pub moves_per_step: usize,
    pub max_source_list_len: Option<usize>,
    pub skip_empty_destinations: bool,
    pub random_seed: Option<u64>,
}

/// The list variable a leaf neighborhood ranges over, as data: every entity of descriptor
/// `descriptor_index` through variable `variable_name`, with the element-owner restriction
/// and the precedence successors (for route hooks) the leaf carries, if any.
pub ghost struct BindingSpec {
    pub descriptor_index: usize,
    pub variable_name: Seq<char>,
    pub element_owners: Option<Seq<Option<usize>>>,
    pub precedence_successors: Option<Seq<Seq<usize>>>,
}

/// The list variable a leaf neighborhood ranges over: the entities of descriptor
/// `descriptor_index` in the solution, through variable `variable_name`, with the required
/// owner of each element and the precedence successors of each element when the leaf uses
/// them.
#[derive(Debug)]
pub struct LeafBinding {
    pub descriptor_index: usize,
    pub variable_name: &'static str,
    pub element_owners: Option<Vec<Option<usize>>>,
    pub precedence_successors: Option<Vec<Vec<usize>>>,
}

impl LeafBinding {
    pub open spec fn spec(&self) -> BindingSpec {
        BindingSpec {
            descriptor_index: self.descriptor_index,
            variable_name: self.variable_name@,
            element_owners: opt_view(self.element_owners),
            precedence_successors: opt_deep(self.precedence_successors),
        }
    }
}

/// What a leaf list neighborhood is, as data.
pub ghost enum LeafSpec {
    NearbyListChange { max_nearby: usize, binding: BindingSpec },
    NearbyListSwap { max_nearby: usize, binding: BindingSpec },
    ListReverse { binding: BindingSpec },
    SublistChange { min_sublist_size: usize, max_sublist_size: usize, binding: BindingSpec },
    KOpt { k: usize, min_segment_len: usize, binding: BindingSpec },
    NearbyKOpt { k: usize, min_segment_len: usize, max_nearby: usize, binding: BindingSpec },
    ListRuin { options: ListRuinOptions, binding: BindingSpec },
    ListChange { binding: BindingSpec },
    ListSwap { binding: BindingSpec },
    ListPermute { min_window_size: usize, max_window_size: usize, binding: BindingSpec },
    ListPrecedence { durations: Seq<usize>, binding: BindingSpec },
    SublistSwap { min_sublist_size: usize, max_sublist_size: usize, binding: BindingSpec },
    FamilyBlock {
        min_block_size: usize,
        family_keys: Seq<Option<u64>>,
        owners: Seq<Seq<usize>>,
        descriptor_index: usize,
        variable_name: Seq<char>,
    },
}

/// A leaf list neighborhood built from configuration.
#[derive(Debug)]
pub enum ListLeafSelector<DM, IDM> {
    NearbyListChange { max_nearby: usize, meter: DM, binding: LeafBinding },
    NearbyListSwap { max_nearby: usize, meter: DM, binding: LeafBinding },
    ListReverse { binding: LeafBinding },
    SublistChange { min_sublist_size: usize, max_sublist_size: usize, binding: LeafBinding },
    KOpt { k: usize, min_segment_len: usize, binding: LeafBinding },
    NearbyKOpt { k: usize, min_segment_len: usize, max_nearby: usize, meter: IntraDistanceAdapter<IDM>, binding: LeafBinding },
    ListRuin { options: ListRuinOptions, binding: LeafBinding },
    ListChange { binding: LeafBinding },
    ListSwap { binding: LeafBinding },
    ListPermute { min_window_size: usize, max_window_size: usize, binding: LeafBinding },
    ListPrecedence { durations: Vec<usize>, binding: LeafBinding },
    SublistSwap { min_sublist_size: usize, max_sublist_size: usize, binding: LeafBinding },
    FamilyBlock(FamilyBlockMoveSelector),
}

impl<DM, IDM> ListLeafSelector<DM, IDM> {
    pub open spec fn spec(&self) -> LeafSpec {
        match self {
            ListLeafSelector::NearbyListChange { max_nearby, binding, .. } => LeafSpec::NearbyListChange {
                max_nearby: *max_nearby,
                binding: binding.spec(),
            },
            ListLeafSelector::NearbyListSwap { max_nearby, binding, .. } => LeafSpec::NearbyListSwap {
                max_nearby: *max_nearby,
                binding: binding.spec(),
            },
            ListLeafSelector::ListReverse { binding } => LeafSpec::ListReverse { binding: binding.spec() },
            ListLeafSelector::SublistChange { min_sublist_size, max_sublist_size, binding } => LeafSpec::SublistChange {
                min_sublist_size: *min_sublist_size,
                max_sublist_size: *max_sublist_size,
                binding: binding.spec(),
            },
            ListLeafSelector::KOpt { k, min_segment_len, binding } => LeafSpec::KOpt {
                k: *k,
                min_segment_len: *min_segment_len,
                binding: binding.spec(),
            },
            ListLeafSelector::NearbyKOpt { k, min_segment_len, max_nearby, binding, .. } => LeafSpec::NearbyKOpt {
                k: *k,
                min_segment_len: *min_segment_len,
                max_nearby: *max_nearby,
                binding: binding.spec(),
            },
            ListLeafSelector::ListRuin { options, binding } => LeafSpec::ListRuin { options: *options, binding: binding.spec() },
            ListLeafSelector::ListChange { binding } => LeafSpec::ListChange { binding: binding.spec() },
            ListLeafSelector::ListSwap { binding } => LeafSpec::ListSwap { binding: binding.spec() },
            ListLeafSelector::ListPermute { min_window_size, max_window_size, binding } => LeafSpec::ListPermute {
                min_window_size: *min_window_size,
                max_window_size: *max_window_size,
                binding: binding.spec(),
            },
            ListLeafSelector::ListPrecedence { durations, binding } => LeafSpec::ListPrecedence {
                durations: durations@,
                binding: binding.spec(),
            },
            ListLeafSelector::SublistSwap { min_sublist_size, max_sublist_size, binding } => LeafSpec::SublistSwap {
                min_sublist_size: *min_sublist_size,
                max_sublist_size: *max_sublist_size,
                binding: binding.spec(),
            },
            ListLeafSelector::FamilyBlock(s) => LeafSpec::FamilyBlock {
                min_block_size: s.min_block(),
                family_keys: s.family_keys(),
                owners: s.owner_table(),
                descriptor_index: s.spec_descriptor_index(),
                variable_name: s.spec_variable_name()@,
            },
        }
    }
}

/// A union of leaf list neighborhoods.
#[derive(Debug)]
pub struct ListFlatSelector<DM, IDM> {
    pub leaves: Vec<ListLeafSelector<DM, IDM>>,
    pub selection_order: UnionSelectionOrder,
}

/// A node of the top-level list neighborhood union.
#[derive(Debug)]
pub enum ListSelectorNode<DM, IDM> {
    Leaf(ListLeafSelector<DM, IDM>),
    Cartesian { left: ListFlatSelector<DM, IDM>, right: ListFlatSelector<DM, IDM>, require_hard_improvement: bool },
}

/// The top-level list neighborhood union.
#[derive(Debug)]
pub struct ListUnionSelector<DM, IDM> {
    pub nodes: Vec<ListSelectorNode<DM, IDM>>,
    pub selection_order: UnionSelectionOrder,
}

/// What a top-level node is, as data.
pub ghost enum NodeSpec {
    Leaf(LeafSpec),
    Cartesian {
        left: Seq<LeafSpec>,
        left_order: UnionSelectionOrder,
        right: Seq<LeafSpec>,
        right_order: UnionSelectionOrder,
        require_hard_improvement: bool,
    },
}

pub open spec fn leaf_specs<DM, IDM>(leaves: Seq<ListLeafSelector<DM, IDM>>) -> Seq<LeafSpec> {
    leaves.map_values(|l: ListLeafSelector<DM, IDM>| l.spec())
}

impl<DM, IDM> ListSelectorNode<DM, IDM> {
    pub open spec fn spec(&self) -> NodeSpec {
        match self {
            ListSelectorNode::Leaf(l) => NodeSpec::Leaf(l.spec()),
            ListSelectorNode::Cartesian { left, right, require_hard_improvement } => NodeSpec::Cartesian {
                left: leaf_specs(left.leaves@),
                left_order: left.selection_order,
                right: leaf_specs(right.leaves@),
                right_order: right.selection_order,
                require_hard_improvement: *require_hard_improvement,
            },
        }
    }
}

pub open spec fn node_specs<DM, IDM>(nodes: Seq<ListSelectorNode<DM, IDM>>) -> Seq<NodeSpec> {
    nodes.map_values(|n: ListSelectorNode<DM, IDM>| n.spec())
}

/// `k` clamped to the supported cut counts `2..=5`.
pub open spec fn clamp_k(k: usize) -> usize {
    if k < 2 { 2 } else if k > 5 { 5 } else { k }
}

/// Whether a selector needs full score evaluation while its moves are previewed.
pub open spec fn requires_score(cfg: MoveSelectorConfig) -> bool
    decreases cfg,
{
    match cfg {
        MoveSelectorConfig::ListRuinMoveSelector(_) => true,
        MoveSelectorConfig::LimitedNeighborhood(limit) => requires_score(*limit.selector),
        MoveSelectorConfig::UnionMoveSelector(u) => any_requires_score(u.selectors@),
        MoveSelectorConfig::CartesianProductMoveSelector(_) => true,
        _ => false,
    }
}

pub open spec fn any_requires_score(s: Seq<MoveSelectorConfig>) -> bool
    decreases s,
{
    if s.len() == 0 {
        false
    } else {
        requires_score(s[0]) || any_requires_score(s.subrange(1, s.len() as int))
    }
}

/// A leaf measures with clones of the slot's distance meters: nearby change and nearby swap
/// with the cross-entity meter, nearby k-opt with the intra-entity meter over positions.
pub open spec fn meters_from<DM: Clone, IDM: Clone, RH>(l: ListLeafSelector<DM, IDM>, ctx: ListVariableSlot<DM, IDM, RH>) -> bool {
    match l {
        ListLeafSelector::NearbyListChange { meter, .. } => cloned(ctx.cross_distance_meter, meter),
        ListLeafSelector::NearbyListSwap { meter, .. } => cloned(ctx.cross_distance_meter, meter),
        ListLeafSelector::NearbyKOpt { meter, .. } => cloned(ctx.intra_distance_meter, meter.0),
        _ => true,
    }
}

/// Every leaf measures with clones of the slot's distance meters.
pub open spec fn all_meters_from<DM: Clone, IDM: Clone, RH>(leaves: Seq<ListLeafSelector<DM, IDM>>, ctx: ListVariableSlot<DM, IDM, RH>) -> bool {
    forall|k: int| 0 <= k < leaves.len() ==> #[trigger] meters_from(leaves[k], ctx)
}

/// Every leaf of the node, or of both sides of a cartesian node, measures with clones of the
/// slot's distance meters.
pub open spec fn node_meters_from<DM: Clone, IDM: Clone, RH>(node: ListSelectorNode<DM, IDM>, ctx: ListVariableSlot<DM, IDM, RH>) -> bool {
    match node {
        ListSelectorNode::Leaf(l) => meters_from(l, ctx),
        ListSelectorNode::Cartesian { left, right, .. } => all_meters_from(left.leaves@, ctx) && all_meters_from(right.leaves@, ctx),
    }
}

/// Every node measures with clones of the slot's distance meters.
pub open spec fn all_node_meters_from<DM: Clone, IDM: Clone, RH>(nodes: Seq<ListSelectorNode<DM, IDM>>, ctx: ListVariableSlot<DM, IDM, RH>) -> bool {
    forall|k: int| 0 <= k < nodes.len() ==> #[trigger] node_meters_from(nodes[k], ctx)
}

/// The slot's hooks that building depends on.
pub ghost struct SlotHooks {
    pub descriptor_index: usize,
    pub variable_name: Seq<char>,
    pub element_owners: Option<Seq<Option<usize>>>,
    pub durations: Option<Seq<usize>>,
    pub successors: Option<Seq<Seq<usize>>>,
    pub has_precedence: bool,
    pub family_keys: Option<Seq<Option<u64>>>,
    pub owners: Option<Seq<Seq<usize>>>,
}

/// The binding of a leaf over the slot, carrying the element owners and the precedence
/// successors when the leaf uses them.
pub open spec fn bound(h: SlotHooks, with_owners: bool, with_routes: bool) -> BindingSpec {
    BindingSpec {
        descriptor_index: h.descriptor_index,
        variable_name: h.variable_name,
        element_owners: if with_owners { h.element_owners } else { None },
        precedence_successors: if with_routes { h.successors } else { None },
    }
}

impl<DM, IDM, RH> ListVariableSlot<DM, IDM, RH> {
    pub open spec fn hooks(&self) -> SlotHooks {
        SlotHooks {
            descriptor_index: self.descriptor_index,
            variable_name: self.variable_name@,
            element_owners: opt_view(self.element_owner_fn),
            durations: opt_view(self.precedence_duration_fn),
            successors: opt_deep(self.precedence_successors_fn),
            has_precedence: self.precedence_duration_fn is Some && self.precedence_successors_fn is Some,
            family_keys: match self.element_family_key_fn {
                Some(v) => Some(v@),
                None => None,
            },
            owners: match self.element_eligible_owners_fn {
                Some(v) => Some(deep_table(v@)),
                None => None,
            },
        }
    }
}

/// A configuration can be built into leaf list neighborhoods without a panic: it names only
/// list selectors (possibly through unions), precedence selectors need precedence hooks, and
/// family-block selectors need both family hooks and a block size of at least 1.
pub open spec fn flat_buildable(cfg: MoveSelectorConfig, hooks: SlotHooks) -> bool
    decreases cfg,
{
    match cfg {
        MoveSelectorConfig::NearbyListChangeMoveSelector(_) => true,
        MoveSelectorConfig::NearbyListSwapMoveSelector(_) => true,
        MoveSelectorConfig::ListReverseMoveSelector(_) => true,
        MoveSelectorConfig::ListPermuteMoveSelector(_) => true,
        MoveSelectorConfig::ListPrecedenceMoveSelector(_) => hooks.has_precedence,
        MoveSelectorConfig::SublistChangeMoveSelector(_) => true,
        MoveSelectorConfig::SublistSwapMoveSelector(_) => true,
        MoveSelectorConfig::FamilyBlockMoveSelector(c) => hooks.family_keys is Some && hooks.owners is Some
            && c.min_block_size >= 1,
        MoveSelectorConfig::KOptMoveSelector(_) => true,
        MoveSelectorConfig::ListRuinMoveSelector(_) => true,
        MoveSelectorConfig::ListChangeMoveSelector(_) => true,
        MoveSelectorConfig::ListSwapMoveSelector(_) => true,
        MoveSelectorConfig::UnionMoveSelector(u) => all_flat_buildable(u.selectors@, hooks),
        _ => false,
    }
}

pub open spec fn all_flat_buildable(s: Seq<MoveSelectorConfig>, hooks: SlotHooks) -> bool
    decreases s,
{
    if s.len() == 0 {
        true
    } else {
        flat_buildable(s[0], hooks) && all_flat_buildable(s.subrange(1, s.len() as int), hooks)
    }
}

/// The leaf neighborhoods a (buildable) configuration yields, in order.
pub open spec fn flat_leaves(cfg: MoveSelectorConfig, hooks: SlotHooks, random_seed: Option<u64>) -> Seq<LeafSpec>
    decreases cfg,
{
    match cfg {
        MoveSelectorConfig::NearbyListChangeMoveSelector(c) => seq![LeafSpec::NearbyListChange { max_nearby: c.max_nearby, binding: bound(hooks, true, true) }],
        MoveSelectorConfig::NearbyListSwapMoveSelector(c) => seq![LeafSpec::NearbyListSwap { max_nearby: c.max_nearby, binding: bound(hooks, true, true) }],
        MoveSelectorConfig::ListReverseMoveSelector(_) => seq![LeafSpec::ListReverse { binding: bound(hooks, false, true) }],
        MoveSelectorConfig::ListPermuteMoveSelector(c) => seq![LeafSpec::ListPermute {
            min_window_size: c.min_window_size,
            max_window_size: c.max_window_size,
            binding: bound(hooks, true, true),
        }],
        MoveSelectorConfig::ListPrecedenceMoveSelector(_) => seq![LeafSpec::ListPrecedence {
            durations: hooks.durations->0,
            binding: bound(hooks, true, true),
        }],
        MoveSelectorConfig::SublistChangeMoveSelector(c) => seq![LeafSpec::SublistChange {
            min_sublist_size: c.min_sublist_size,
            max_sublist_size: c.max_sublist_size,
            binding: bound(hooks, true, true),
        }],
        MoveSelectorConfig::SublistSwapMoveSelector(c) => seq![LeafSpec::SublistSwap {
            min_sublist_size: c.min_sublist_size,
            max_sublist_size: c.max_sublist_size,
            binding: bound(hooks, true, true),
        }],
        MoveSelectorConfig::FamilyBlockMoveSelector(c) => seq![LeafSpec::FamilyBlock {
            min_block_size: c.min_block_size,
            family_keys: hooks.family_keys->0,
            owners: hooks.owners->0,
            descriptor_index: hooks.descriptor_index,
            variable_name: hooks.variable_name,
        }],
        MoveSelectorConfig::KOptMoveSelector(c) => if c.max_nearby > 0 {
            seq![LeafSpec::NearbyKOpt { k: clamp_k(c.k), min_segment_len: c.min_segment_len, max_nearby: c.max_nearby, binding: bound(hooks, false, false) }]
        } else {
            seq![LeafSpec::KOpt { k: clamp_k(c.k), min_segment_len: c.min_segment_len, binding: bound(hooks, false, false) }]
        },
        MoveSelectorConfig::ListRuinMoveSelector(c) => seq![LeafSpec::ListRuin {
            options: ListRuinOptions {
                min_ruin_count: c.min_ruin_count,
                max_ruin_count: c.max_ruin_count,
                moves_per_step: match c.moves_per_step {
                    Some(m) => if m == 0 { 1 } else { m },
                    None => 10,
                },
                max_source_list_len: c.max_source_list_len,
                skip_empty_destinations: c.skip_empty_destinations,
                random_seed,
            },
            binding: bound(hooks, true, true),
        }],
        MoveSelectorConfig::ListChangeMoveSelector(_) => seq![LeafSpec::ListChange { binding: bound(hooks, true, true) }],
        MoveSelectorConfig::ListSwapMoveSelector(_) => seq![LeafSpec::ListSwap { binding: bound(hooks, true, true) }],
        MoveSelectorConfig::UnionMoveSelector(u) => all_flat_leaves(u.selectors@, hooks, random_seed),
        _ => Seq::empty(),
    }
}

pub open spec fn all_flat_leaves(s: Seq<MoveSelectorConfig>, hooks: SlotHooks, random_seed: Option<u64>) -> Seq<LeafSpec>
    decreases s,
{
    if s.len() == 0 {
        Seq::empty()
    } else {
        flat_leaves(s[0], hooks, random_seed) + all_flat_leaves(s.subrange(1, s.len() as int), hooks, random_seed)
    }
}

/// The default list neighborhoods over the slot's entities: nearby change and nearby swap
/// over 20 neighbours, and list reverse.
pub open spec fn default_leaves(hooks: SlotHooks) -> Seq<LeafSpec> {
    seq![
        LeafSpec::NearbyListChange { max_nearby: 20, binding: bound(hooks, true, true) },
        LeafSpec::NearbyListSwap { max_nearby: 20, binding: bound(hooks, true, true) },
        LeafSpec::ListReverse { binding: bound(hooks, false, true) },
    ]
}

/// The selection order of a configuration: a union's own, else sequential.
pub open spec fn order_of(config: Option<MoveSelectorConfig>) -> UnionSelectionOrder {
    match config {
        Some(MoveSelectorConfig::UnionMoveSelector(u)) => u.selection_order,
        _ => UnionSelectionOrder::Sequential,
    }
}

/// `build_flat` succeeds on the configuration: it is absent, or buildable and yields at least
/// one leaf.
pub open spec fn flat_config_ok(config: Option<MoveSelectorConfig>, hooks: SlotHooks, random_seed: Option<u64>) -> bool {
    match config {
        None => true,
        Some(cfg) => flat_buildable(cfg, hooks) && flat_leaves(cfg, hooks, random_seed).len() > 0,
    }
}

pub open spec fn flat_result(config: Option<MoveSelectorConfig>, hooks: SlotHooks, random_seed: Option<u64>) -> Seq<LeafSpec> {
    match config {
        None => default_leaves(hooks),
        Some(cfg) => flat_leaves(cfg, hooks, random_seed),
    }
}

/// The top-level nodes of a configuration: unions are flattened, a cartesian product becomes
/// one node over two flat children, anything else contributes its flat leaves.
pub open spec fn config_nodes(cfg: MoveSelectorConfig, hooks: SlotHooks, random_seed: Option<u64>) -> Seq<NodeSpec>
    decreases cfg,
{
    match cfg {
        MoveSelectorConfig::UnionMoveSelector(u) => all_config_nodes(u.selectors@, hooks, random_seed),
        MoveSelectorConfig::CartesianProductMoveSelector(c) => seq![NodeSpec::Cartesian {
            left: flat_result(Some(c.selectors@[0]), hooks, random_seed),
            left_order: order_of(Some(c.selectors@[0])),
            right: flat_result(Some(c.selectors@[1]), hooks, random_seed),
            right_order: order_of(Some(c.selectors@[1])),
            require_hard_improvement: c.require_hard_improvement,
        }],
        other => flat_leaves(other, hooks, random_seed).map_values(|l: LeafSpec| NodeSpec::Leaf(l)),
    }
}

pub open spec fn all_config_nodes(s: Seq<MoveSelectorConfig>, hooks: SlotHooks, random_seed: Option<u64>) -> Seq<NodeSpec>
    decreases s,
{
    if s.len() == 0 {
        Seq::empty()
    } else {
        config_nodes(s[0], hooks, random_seed) + all_config_nodes(s.subrange(1, s.len() as int), hooks, random_seed)
    }
}

/// The top-level nodes of an optional configuration; without one, the default leaves.
pub open spec fn nodes_of(config: Option<MoveSelectorConfig>, hooks: SlotHooks, random_seed: Option<u64>) -> Seq<NodeSpec> {
    match config {
        Some(cfg) => config_nodes(cfg, hooks, random_seed),
        None => default_leaves(hooks).map_values(|l: LeafSpec| NodeSpec::Leaf(l)),
    }
}

/// `build` does not panic on the configuration's nodes: unions recurse, a cartesian product
/// has exactly two buildable children and a left child that needs no score during preview,
/// and anything else is flat-buildable with at least one leaf.
pub open spec fn nodes_buildable(cfg: MoveSelectorConfig, hooks: SlotHooks, random_seed: Option<u64>) -> bool
    decreases cfg,
{
    match cfg {
        MoveSelectorConfig::UnionMoveSelector(u) => all_nodes_buildable(u.selectors@, hooks, random_seed),
        MoveSelectorConfig::CartesianProductMoveSelector(c) => {
            &&& c.selectors@.len() == 2
            &&& !requires_score(c.selectors@[0])
            &&& flat_config_ok(Some(c.selectors@[0]), hooks, random_seed)
            &&& flat_config_ok(Some(c.selectors@[1]), hooks, random_seed)
        },
        other => flat_config_ok(Some(other), hooks, random_seed),
    }
}

pub open spec fn all_nodes_buildable(s: Seq<MoveSelectorConfig>, hooks: SlotHooks, random_seed: Option<u64>) -> bool
    decreases s,
{
    if s.len() == 0 {
        true
    } else {
        nodes_buildable(s[0], hooks, random_seed) && all_nodes_buildable(s.subrange(1, s.len() as int), hooks, random_seed)
    }
}

/// `build` succeeds: the configuration's nodes are buildable and there is at least one.
pub open spec fn build_ok(config: Option<MoveSelectorConfig>, hooks: SlotHooks, random_seed: Option<u64>) -> bool {
    match config {
        Some(cfg) => nodes_buildable(cfg, hooks, random_seed) && config_nodes(cfg, hooks, random_seed).len() > 0,
        None => true,
    }
}

} // verus!

verus! {

/// The configuration behind an optional reference.
pub open spec fn deref_config(config: Option<&MoveSelectorConfig>) -> Option<MoveSelectorConfig> {
    match config {
        Some(c) => Some(*c),
        None => None,
    }
}

/// Builds the list neighborhoods of a list variable from move selector configuration.
pub struct ListMoveSelectorBuilder;

impl ListMoveSelectorBuilder {
    /// Whether a selector needs full score evaluation while its moves are previewed: list ruin
    /// and cartesian products do, and limits and unions inherit it from their children.
    pub fn selector_requires_score_during_move(config: &MoveSelectorConfig) -> (r: bool)
        ensures
            r == requires_score(*config),
        decreases config,
    {
        match config {
            MoveSelectorConfig::ListRuinMoveSelector(_) => true,
            MoveSelectorConfig::LimitedNeighborhood(limit) => Self::selector_requires_score_during_move(&limit.selector),
            MoveSelectorConfig::UnionMoveSelector(u) => {
                let ghost s = u.selectors@;
                assert(s.subrange(0, s.len() as int) =~= s);
                let mut i: usize = 0;
                while i < u.selectors.len()
                    invariant
                        s == u.selectors@,
                        *config == MoveSelectorConfig::UnionMoveSelector(*u),
                        i <= s.len(),
                        any_requires_score(s) == any_requires_score(s.subrange(i as int, s.len() as int)),
                    decreases s.len() - i,
                {
                    let ghost rest = s.subrange(i as int, s.len() as int);
                    proof {
                        assert(rest[0] == s[i as int]);
                        assert(rest.subrange(1, rest.len() as int) =~= s.subrange(i + 1, s.len() as int));
                        assert(*u == (*config)->UnionMoveSelector_0);
                        assert(decreases_to!(*config => (*config)->UnionMoveSelector_0));
                        assert(decreases_to!(*u => u.selectors));
                        assert(decreases_to!(u.selectors => u.selectors@));
                        assert(decreases_to!(u.selectors@ => u.selectors@[i as int]));
                        assert(decreases_to!(*config => u.selectors@[i as int]));
                    }
                    if Self::selector_requires_score_during_move(&u.selectors[i]) {
                        assert(requires_score(rest[0]));
                        assert(any_requires_score(rest));
                        return true;
                    }
                    i = i + 1;
                }
                proof {
                    assert(s.subrange(i as int, s.len() as int) =~= Seq::<MoveSelectorConfig>::empty());
                }
                false
            },
            MoveSelectorConfig::CartesianProductMoveSelector(_) => true,
            _ => false,
        }
    }

    /// The left child of a cartesian product must not need scores during preview, since
    /// preview directors do not calculate scores.
    pub fn assert_cartesian_left_preview_safe(config: &MoveSelectorConfig)
        requires
            !requires_score(*config),
    {
        let requires_score_during_move = Self::selector_requires_score_during_move(config);
        assert(!requires_score_during_move);
    }

    /// The binding of a leaf over the slot's entities, with copies of the slot's element owners
    /// and precedence successors when the leaf uses them.
    fn bind<DM, IDM, RH>(ctx: &ListVariableSlot<DM, IDM, RH>, with_owners: bool, with_routes: bool) -> (b: LeafBinding)
        ensures
            b.spec() == bound(ctx.hooks(), with_owners, with_routes),
    {
        let element_owners = if with_owners { copy_opt_vec(&ctx.element_owner_fn) } else { None };
        let precedence_successors = if with_routes { copy_opt_table(&ctx.precedence_successors_fn) } else { None };
        LeafBinding {
            descriptor_index: ctx.descriptor_index,
            variable_name: ctx.variable_name,
            element_owners,
            precedence_successors,
        }
    }

    /// Appends the leaf neighborhoods of a buildable configuration to `out`.
    fn collect_leaves<DM: Clone, IDM: Clone, RH>(
        config: &MoveSelectorConfig,
        ctx: &ListVariableSlot<DM, IDM, RH>,
        random_seed: Option<u64>,
        out: &mut Vec<ListLeafSelector<DM, IDM>>,
    )
        requires
            flat_buildable(*config, ctx.hooks()),
        ensures
            leaf_specs(final(out)@) == leaf_specs(old(out)@) + flat_leaves(*config, ctx.hooks(), random_seed),
            all_meters_from(old(out)@, *ctx) ==> all_meters_from(final(out)@, *ctx),
        decreases config,
    {
        let ghost before = leaf_specs(out@);
        match config {
            MoveSelectorConfig::NearbyListChangeMoveSelector(c) => {
                out.push(ListLeafSelector::NearbyListChange {
                    max_nearby: c.max_nearby,
                    meter: ctx.cross_distance_meter.clone(),
                    binding: Self::bind(ctx, true, true),
                });
            },
            MoveSelectorConfig::NearbyListSwapMoveSelector(c) => {
                out.push(ListLeafSelector::NearbyListSwap {
                    max_nearby: c.max_nearby,
                    meter: ctx.cross_distance_meter.clone(),
                    binding: Self::bind(ctx, true, true),
                });
            },
            MoveSelectorConfig::ListReverseMoveSelector(_) => {
                out.push(ListLeafSelector::ListReverse { binding: Self::bind(ctx, false, true) });
            },
            MoveSelectorConfig::ListPermuteMoveSelector(c) => {
                out.push(ListLeafSelector::ListPermute {
                    min_window_size: c.min_window_size,
                    max_window_size: c.max_window_size,
                    binding: Self::bind(ctx, true, true),
                });
            },
            MoveSelectorConfig::ListPrecedenceMoveSelector(_) => {
                let durations = match &ctx.precedence_duration_fn {
                    Some(d) => copy_vec(d),
                    None => {
                        assert(false);
                        Vec::new()
                    },
                };
                out.push(ListLeafSelector::ListPrecedence { durations, binding: Self::bind(ctx, true, true) });
            },
            MoveSelectorConfig::SublistChangeMoveSelector(c) => {
                out.push(ListLeafSelector::SublistChange {
                    min_sublist_size: c.min_sublist_size,
                    max_sublist_size: c.max_sublist_size,
                    binding: Self::bind(ctx, true, true),
                });
            },
            MoveSelectorConfig::SublistSwapMoveSelector(c) => {
                out.push(ListLeafSelector::SublistSwap {
                    min_sublist_size: c.min_sublist_size,
                    max_sublist_size: c.max_sublist_size,
                    binding: Self::bind(ctx, true, true),
                });
            },
            MoveSelectorConfig::FamilyBlockMoveSelector(c) => {
                Self::push_family_block(out, ctx, c.min_block_size);
            },
            MoveSelectorConfig::KOptMoveSelector(c) => {
                Self::push_kopt(out, ctx, c.k, c.min_segment_len, c.max_nearby);
            },
            MoveSelectorConfig::ListRuinMoveSelector(c) => {
                let moves_per_step = match c.moves_per_step {
                    Some(m) => if m == 0 { 1 } else { m },
                    None => 10,
                };
                out.push(ListLeafSelector::ListRuin {
                    options: ListRuinOptions {
                        min_ruin_count: c.min_ruin_count,
                        max_ruin_count: c.max_ruin_count,
                        moves_per_step,
                        max_source_list_len: c.max_source_list_len,
                        skip_empty_destinations: c.skip_empty_destinations,
                        random_seed,
                    },
                    binding: Self::bind(ctx, true, true),
                });
            },
            MoveSelectorConfig::ListChangeMoveSelector(_) => {
                out.push(ListLeafSelector::ListChange { binding: Self::bind(ctx, true, true) });
            },
            MoveSelectorConfig::ListSwapMoveSelector(_) => {
                out.push(ListLeafSelector::ListSwap { binding: Self::bind(ctx, true, true) });
            },
            MoveSelectorConfig::UnionMoveSelector(u) => {
                let ghost s = u.selectors@;
                assert(s.subrange(0, s.len() as int) =~= s);
                let mut i: usize = 0;
                while i < u.selectors.len()
                    invariant
                        s == u.selectors@,
                        *config == MoveSelectorConfig::UnionMoveSelector(*u),
                        i <= s.len(),
                        all_flat_buildable(s, ctx.hooks()) == all_flat_buildable(s.subrange(i as int, s.len() as int), ctx.hooks()),
                        all_flat_buildable(s, ctx.hooks()),
                        leaf_specs(out@) + all_flat_leaves(s.subrange(i as int, s.len() as int), ctx.hooks(), random_seed)
                            == before + all_flat_leaves(s, ctx.hooks(), random_seed),
                        all_meters_from(old(out)@, *ctx) ==> all_meters_from(out@, *ctx),
                    decreases s.len() - i,
                {
                    let ghost rest = s.subrange(i as int, s.len() as int);
                    proof {
                        assert(rest[0] == s[i as int]);
                        assert(rest.subrange(1, rest.len() as int) =~= s.subrange(i + 1, s.len() as int));
                    }
                    let ghost mid = leaf_specs(out@);
                    proof { assert(*u == (*config)->UnionMoveSelector_0);
                        assert(decreases_to!(*config => (*config)->UnionMoveSelector_0));
                        assert(decreases_to!(*u => u.selectors));
                        assert(decreases_to!(u.selectors => u.selectors@));
                        assert(decreases_to!(u.selectors@ => u.selectors@[i as int]));
                        assert(decreases_to!(*config => u.selectors@[i as int])); }
                    Self::collect_leaves(&u.selectors[i], ctx, random_seed, out);
                    proof {
                        assert(all_flat_leaves(rest, ctx.hooks(), random_seed) == flat_leaves(s[i as int], ctx.hooks(), random_seed)
                            + all_flat_leaves(s.subrange(i + 1, s.len() as int), ctx.hooks(), random_seed));
                        assert(leaf_specs(out@) + all_flat_leaves(s.subrange(i + 1, s.len() as int), ctx.hooks(), random_seed)
                            =~= mid + all_flat_leaves(rest, ctx.hooks(), random_seed));
                    }
                    i = i + 1;
                }
                proof {
                    assert(s.subrange(i as int, s.len() as int) =~= Seq::<MoveSelectorConfig>::empty());
                    assert(leaf_specs(out@) =~= leaf_specs(out@) + Seq::<LeafSpec>::empty());
                }
            },
            _ => {
                assert(false);
            },
        }
        proof {
            assert(leaf_specs(out@) =~= before + flat_leaves(*config, ctx.hooks(), random_seed));
        }
    }

    /// Appends a family-block neighborhood over the slot's family hooks.
    fn push_family_block<DM: Clone, IDM: Clone, RH>(
        out: &mut Vec<ListLeafSelector<DM, IDM>>,
        ctx: &ListVariableSlot<DM, IDM, RH>,
        min_block_size: usize,
    )
        requires
            ctx.hooks().family_keys is Some,
            ctx.hooks().owners is Some,
            min_block_size >= 1,
        ensures
            leaf_specs(final(out)@) == leaf_specs(old(out)@).push(LeafSpec::FamilyBlock {
                min_block_size,
                family_keys: ctx.hooks().family_keys->0,
                owners: ctx.hooks().owners->0,
                descriptor_index: ctx.descriptor_index,
                variable_name: ctx.variable_name@,
            }),
            all_meters_from(old(out)@, *ctx) ==> all_meters_from(final(out)@, *ctx),
    {
        let family = match &ctx.element_family_key_fn {
            Some(f) => clone_keys(f),
            None => {
                assert(false);
                Vec::new()
            },
        };
        let eligible = match &ctx.element_eligible_owners_fn {
            Some(f) => clone_table(f),
            None => {
                assert(false);
                Vec::new()
            },
        };
        let inner = FamilyBlockMoveSelector::new(
            min_block_size,
            family,
            eligible,
            ctx.variable_name,
            ctx.descriptor_index,
        );
        out.push(ListLeafSelector::FamilyBlock(inner));
        assert(leaf_specs(out@) =~= leaf_specs(old(out)@).push(LeafSpec::FamilyBlock {
            min_block_size,
            family_keys: ctx.hooks().family_keys->0,
            owners: ctx.hooks().owners->0,
            descriptor_index: ctx.descriptor_index,
            variable_name: ctx.variable_name@,
        }));
    }

    /// Appends a k-opt neighborhood, distance-pruned when `max_nearby` is positive; `k` is
    /// clamped to `2..=5`.
    fn push_kopt<DM: Clone, IDM: Clone, RH>(
        out: &mut Vec<ListLeafSelector<DM, IDM>>,
        ctx: &ListVariableSlot<DM, IDM, RH>,
        k: usize,
        min_segment_len: usize,
        max_nearby: usize,
    )
        ensures
            leaf_specs(final(out)@) == leaf_specs(old(out)@).push(if max_nearby > 0 {
                LeafSpec::NearbyKOpt { k: clamp_k(k), min_segment_len, max_nearby, binding: bound(ctx.hooks(), false, false) }
            } else {
                LeafSpec::KOpt { k: clamp_k(k), min_segment_len, binding: bound(ctx.hooks(), false, false) }
            }),
            all_meters_from(old(out)@, *ctx) ==> all_meters_from(final(out)@, *ctx),
    {
        let k0 = k;
        let k = if k < 2 { 2 } else if k > 5 { 5 } else { k };
        let binding = Self::bind(ctx, false, false);
        if max_nearby > 0 {
            let meter = IntraDistanceAdapter(ctx.intra_distance_meter.clone());
            out.push(ListLeafSelector::NearbyKOpt { k, min_segment_len, max_nearby, meter, binding });
        } else {
            out.push(ListLeafSelector::KOpt { k, min_segment_len, binding });
        }
        assert(leaf_specs(out@) =~= leaf_specs(old(out)@).push(if max_nearby > 0 {
            LeafSpec::NearbyKOpt { k: clamp_k(k0), min_segment_len, max_nearby, binding: bound(ctx.hooks(), false, false) }
        } else {
            LeafSpec::KOpt { k: clamp_k(k0), min_segment_len, binding: bound(ctx.hooks(), false, false) }
        }));
    }

    /// The selection order of an optional configuration: a union's own, else sequential.
    fn selection_order_of(config: Option<&MoveSelectorConfig>) -> (r: UnionSelectionOrder)
        ensures
            r == order_of(deref_config(config)),
    {
        match config {
            Some(MoveSelectorConfig::UnionMoveSelector(u)) => u.selection_order,
            _ => UnionSelectionOrder::Sequential,
        }
    }

    /// Builds the flat union of leaf neighborhoods of a configuration; without configuration,
    /// nearby change and nearby swap over 20 neighbours and list reverse.
    pub fn build_flat<DM: Clone, IDM: Clone, RH>(
        config: Option<&MoveSelectorConfig>,
        ctx: &ListVariableSlot<DM, IDM, RH>,
        random_seed: Option<u64>,
    ) -> (r: ListFlatSelector<DM, IDM>)
        requires
            flat_config_ok(deref_config(config), ctx.hooks(), random_seed),
        ensures
            leaf_specs(r.leaves@) == flat_result(deref_config(config), ctx.hooks(), random_seed),
            r.selection_order == order_of(deref_config(config)),
            all_meters_from(r.leaves@, *ctx),
            forall|k: int| 0 <= k < r.leaves@.len() ==> leaf_bound_to_slot(#[trigger] r.leaves@[k].spec(), ctx.hooks()),
    {
        let mut leaves: Vec<ListLeafSelector<DM, IDM>> = Vec::new();
        match config {
            None => {
                leaves.push(ListLeafSelector::NearbyListChange { max_nearby: 20, meter: ctx.cross_distance_meter.clone(), binding: Self::bind(ctx, true, true) });
                leaves.push(ListLeafSelector::NearbyListSwap { max_nearby: 20, meter: ctx.cross_distance_meter.clone(), binding: Self::bind(ctx, true, true) });
                leaves.push(ListLeafSelector::ListReverse { binding: Self::bind(ctx, false, true) });
                assert(leaf_specs(leaves@) =~= default_leaves(ctx.hooks()));
            },
            Some(cfg) => {
                assert(leaf_specs(leaves@) =~= Seq::<LeafSpec>::empty());
                Self::collect_leaves(cfg, ctx, random_seed, &mut leaves);
                assert(leaf_specs(leaves@) =~= flat_leaves(*cfg, ctx.hooks(), random_seed));
            },
        }
        proof {
            match config {
                Some(cfg) => lemma_leaves_bound_to_slot(*cfg, ctx.hooks(), random_seed),
                None => lemma_default_leaves_bound_to_slot(ctx.hooks()),
            }
            assert forall|k: int| 0 <= k < leaves@.len() implies leaf_bound_to_slot(#[trigger] leaves@[k].spec(), ctx.hooks()) by {
                assert(leaf_specs(leaves@)[k] == leaves@[k].spec());
            }
        }
        let selection_order = Self::selection_order_of(config);
        ListFlatSelector { leaves, selection_order }
    }

    /// Appends the top-level nodes of a buildable configuration to `nodes`.
    fn collect_nodes<DM: Clone, IDM: Clone, RH>(
        config: &MoveSelectorConfig,
        ctx: &ListVariableSlot<DM, IDM, RH>,
        random_seed: Option<u64>,
        nodes: &mut Vec<ListSelectorNode<DM, IDM>>,
    )
        requires
            nodes_buildable(*config, ctx.hooks(), random_seed),
        ensures
            node_specs(final(nodes)@) == node_specs(old(nodes)@) + config_nodes(*config, ctx.hooks(), random_seed),
            all_node_meters_from(old(nodes)@, *ctx) ==> all_node_meters_from(final(nodes)@, *ctx),
        decreases config,
    {
        let ghost before = node_specs(nodes@);
        match config {
            MoveSelectorConfig::UnionMoveSelector(u) => {
                let ghost s = u.selectors@;
                assert(s.subrange(0, s.len() as int) =~= s);
                let mut i: usize = 0;
                while i < u.selectors.len()
                    invariant
                        s == u.selectors@,
                        *config == MoveSelectorConfig::UnionMoveSelector(*u),
                        i <= s.len(),
                        all_nodes_buildable(s, ctx.hooks(), random_seed) == all_nodes_buildable(s.subrange(i as int, s.len() as int), ctx.hooks(), random_seed),
                        all_nodes_buildable(s, ctx.hooks(), random_seed),
                        node_specs(nodes@) + all_config_nodes(s.subrange(i as int, s.len() as int), ctx.hooks(), random_seed)
                            == before + all_config_nodes(s, ctx.hooks(), random_seed),
                        all_node_meters_from(old(nodes)@, *ctx) ==> all_node_meters_from(nodes@, *ctx),
                    decreases s.len() - i,
                {
                    let ghost rest = s.subrange(i as int, s.len() as int);
                    proof {
                        assert(rest[0] == s[i as int]);
                        assert(rest.subrange(1, rest.len() as int) =~= s.subrange(i + 1, s.len() as int));
                    }
                    let ghost mid = node_specs(nodes@);
                    proof { assert(*u == (*config)->UnionMoveSelector_0);
                        assert(decreases_to!(*config => (*config)->UnionMoveSelector_0));
                        assert(decreases_to!(*u => u.selectors));
                        assert(decreases_to!(u.selectors => u.selectors@));
                        assert(decreases_to!(u.selectors@ => u.selectors@[i as int]));
                        assert(decreases_to!(*config => u.selectors@[i as int])); }
                    Self::collect_nodes(&u.selectors[i], ctx, random_seed, nodes);
                    proof {
                        assert(node_specs(nodes@) + all_config_nodes(s.subrange(i + 1, s.len() as int), ctx.hooks(), random_seed)
                            =~= mid + all_config_nodes(rest, ctx.hooks(), random_seed));
                    }
                    i = i + 1;
                }
                proof {
                    assert(s.subrange(i as int, s.len() as int) =~= Seq::<MoveSelectorConfig>::empty());
                    assert(node_specs(nodes@) =~= node_specs(nodes@) + Seq::<NodeSpec>::empty());
                }
            },
            MoveSelectorConfig::CartesianProductMoveSelector(cartesian) => {
                Self::assert_cartesian_left_preview_safe(&cartesian.selectors[0]);
                let left = Self::build_flat(Some(&cartesian.selectors[0]), ctx, random_seed);
                let right = Self::build_flat(Some(&cartesian.selectors[1]), ctx, random_seed);
                let ghost before_nodes = nodes@;
                nodes.push(ListSelectorNode::Cartesian {
                    left,
                    right,
                    require_hard_improvement: cartesian.require_hard_improvement,
                });
                proof {
                    if all_node_meters_from(before_nodes, *ctx) {
                        assert forall|k: int| 0 <= k < nodes@.len() implies #[trigger] node_meters_from(nodes@[k], *ctx) by {
                            if k < before_nodes.len() {
                                assert(nodes@[k] == before_nodes[k]);
                            }
                        }
                    }
                }
            },
            other => {
                let flat = Self::build_flat(Some(other), ctx, random_seed);
                let ghost leaves = flat.leaves@;
                let mut flat_leaves_vec = flat.leaves;
                let mut taken: Vec<ListLeafSelector<DM, IDM>> = Vec::new();
                while flat_leaves_vec.len() > 0
                    invariant
                        all_meters_from(leaves, *ctx),
                        taken@.len() + flat_leaves_vec@.len() == leaves.len(),
                        flat_leaves_vec@ == leaves.subrange(0, flat_leaves_vec@.len() as int),
                        forall|k: int| 0 <= k < taken@.len() ==> #[trigger] taken@[k] == leaves[leaves.len() - 1 - k],
                    decreases flat_leaves_vec@.len(),
                {
                    let leaf = flat_leaves_vec.pop().unwrap();
                    taken.push(leaf);
                }
                let ghost start = nodes@.len();
                while taken.len() > 0
                    invariant
                        all_meters_from(leaves, *ctx),
                        taken@.len() + (nodes@.len() - start) == leaves.len(),
                        start <= nodes@.len(),
                        nodes@.subrange(0, start as int) == old(nodes)@,
                        forall|k: int| 0 <= k < taken@.len() ==> #[trigger] taken@[k] == leaves[leaves.len() - 1 - k],
                        forall|k: int| start <= k < nodes@.len() ==> #[trigger] nodes@[k] == ListSelectorNode::Leaf(leaves[k - start]),
                    decreases taken@.len(),
                {
                    let leaf = taken.pop().unwrap();
                    nodes.push(ListSelectorNode::Leaf(leaf));
                }
                proof {
                    assert(node_specs(nodes@) =~= before + leaf_specs(leaves).map_values(|l: LeafSpec| NodeSpec::Leaf(l)));
                    if all_node_meters_from(old(nodes)@, *ctx) {
                        assert forall|k: int| 0 <= k < nodes@.len() implies #[trigger] node_meters_from(nodes@[k], *ctx) by {
                            if k < start {
                                assert(nodes@[k] == nodes@.subrange(0, start as int)[k]);
                            } else {
                                assert(nodes@[k] == ListSelectorNode::Leaf(leaves[k - start]));
                                assert(meters_from(leaves[k - start], *ctx));
                            }
                        }
                    }
                }
            },
        }
        proof {
            assert(node_specs(nodes@) =~= before + config_nodes(*config, ctx.hooks(), random_seed));
        }
    }

    /// Builds the top-level list neighborhood union from move selector configuration (see
    /// `config_nodes`); without configuration, nearby change and nearby swap over 20
    /// neighbours and list reverse.
    pub fn build<DM: Clone, IDM: Clone, RH>(
        config: Option<&MoveSelectorConfig>,
        ctx: &ListVariableSlot<DM, IDM, RH>,
        random_seed: Option<u64>,
    ) -> (r: ListUnionSelector<DM, IDM>)
        requires
            build_ok(deref_config(config), ctx.hooks(), random_seed),
        ensures
            node_specs(r.nodes@) == nodes_of(deref_config(config), ctx.hooks(), random_seed),
            r.selection_order == order_of(deref_config(config)),
            all_node_meters_from(r.nodes@, *ctx),
    {
        let mut nodes: Vec<ListSelectorNode<DM, IDM>> = Vec::new();
        match config {
            Some(cfg) => {
                assert(node_specs(nodes@) =~= Seq::<NodeSpec>::empty());
                Self::collect_nodes(cfg, ctx, random_seed, &mut nodes);
                assert(node_specs(nodes@) =~= config_nodes(*cfg, ctx.hooks(), random_seed));
            },
            None => {
                nodes.push(ListSelectorNode::Leaf(ListLeafSelector::NearbyListChange { max_nearby: 20, meter: ctx.cross_distance_meter.clone(), binding: Self::bind(ctx, true, true) }));
                nodes.push(ListSelectorNode::Leaf(ListLeafSelector::NearbyListSwap { max_nearby: 20, meter: ctx.cross_distance_meter.clone(), binding: Self::bind(ctx, true, true) }));
                nodes.push(ListSelectorNode::Leaf(ListLeafSelector::ListReverse { binding: Self::bind(ctx, false, true) }));
                assert(node_specs(nodes@) =~= default_leaves(ctx.hooks()).map_values(|l: LeafSpec| NodeSpec::Leaf(l)));
            },
        }
        let selection_order = Self::selection_order_of(config);
        ListUnionSelector { nodes, selection_order }
    }
}

} // verus!

verus! {

/// The descriptor whose entities a leaf ranges over.
pub open spec fn leaf_descriptor(l: LeafSpec) -> usize {
    match l {
        LeafSpec::NearbyListChange { binding, .. } => binding.descriptor_index,
        LeafSpec::NearbyListSwap { binding, .. } => binding.descriptor_index,
        LeafSpec::ListReverse { binding } => binding.descriptor_index,
        LeafSpec::SublistChange { binding, .. } => binding.descriptor_index,
        LeafSpec::KOpt { binding, .. } => binding.descriptor_index,
        LeafSpec::NearbyKOpt { binding, .. } => binding.descriptor_index,
        LeafSpec::ListRuin { binding, .. } => binding.descriptor_index,
        LeafSpec::ListChange { binding } => binding.descriptor_index,
        LeafSpec::ListSwap { binding } => binding.descriptor_index,
        LeafSpec::ListPermute { binding, .. } => binding.descriptor_index,
        LeafSpec::ListPrecedence { binding, .. } => binding.descriptor_index,
        LeafSpec::SublistSwap { binding, .. } => binding.descriptor_index,
        LeafSpec::FamilyBlock { descriptor_index, .. } => descriptor_index,
    }
}

/// Every leaf a configuration yields ranges over the entities of the slot's descriptor, and a
/// configuration that is not a union yields exactly one leaf.
pub proof fn lemma_leaves_range_over_slot(cfg: MoveSelectorConfig, hooks: SlotHooks, random_seed: Option<u64>)
    ensures
        forall|k: int| 0 <= k < flat_leaves(cfg, hooks, random_seed).len()
            ==> leaf_descriptor(#[trigger] flat_leaves(cfg, hooks, random_seed)[k]) == hooks.descriptor_index,
        flat_buildable(cfg, hooks) && !(cfg is UnionMoveSelector) ==> flat_leaves(cfg, hooks, random_seed).len() == 1,
    decreases cfg,
{
    match cfg {
        MoveSelectorConfig::UnionMoveSelector(u) => {
            assert forall|i: int| 0 <= i < u.selectors@.len() implies decreases_to!(cfg => #[trigger] u.selectors@[i]) by {
                assert(decreases_to!(cfg => u));
                assert(decreases_to!(u => u.selectors));
                assert(decreases_to!(u.selectors => u.selectors@));
                assert(decreases_to!(u.selectors@ => u.selectors@[i]));
            }
            lemma_all_leaves_range_over_slot(cfg, u.selectors@, hooks, random_seed);
            assert(flat_leaves(cfg, hooks, random_seed) == all_flat_leaves(u.selectors@, hooks, random_seed));
        },
        _ => {},
    }
}

/// Every leaf of a sequence of child configurations ranges over the slot's descriptor.
proof fn lemma_all_leaves_range_over_slot(
    parent: MoveSelectorConfig,
    s: Seq<MoveSelectorConfig>,
    hooks: SlotHooks,
    random_seed: Option<u64>,
)
    requires
        forall|i: int| 0 <= i < s.len() ==> decreases_to!(parent => #[trigger] s[i]),
    ensures
        forall|k: int| 0 <= k < all_flat_leaves(s, hooks, random_seed).len()
            ==> leaf_descriptor(#[trigger] all_flat_leaves(s, hooks, random_seed)[k]) == hooks.descriptor_index,
    decreases parent, s.len(),
{
    if s.len() > 0 {
        let rest = s.subrange(1, s.len() as int);
        assert forall|i: int| 0 <= i < rest.len() implies decreases_to!(parent => #[trigger] rest[i]) by {
            assert(rest[i] == s[i + 1]);
        }
        assert(decreases_to!(parent => s[0]));
        lemma_leaves_range_over_slot(s[0], hooks, random_seed);
        lemma_all_leaves_range_over_slot(parent, rest, hooks, random_seed);
        let a = flat_leaves(s[0], hooks, random_seed);
        let b = all_flat_leaves(rest, hooks, random_seed);
        assert forall|k: int| 0 <= k < (a + b).len() implies leaf_descriptor(#[trigger] (a + b)[k]) == hooks.descriptor_index by {
            if k < a.len() {
                assert((a + b)[k] == a[k]);
            } else {
                assert((a + b)[k] == b[k - a.len()]);
            }
        }
    }
}

} // verus!

verus! {

/// The leaf kinds that restrict elements to their required owners: every list neighborhood
/// but list reverse, the k-opt kinds and family blocks.
pub open spec fn restricts_owners(l: LeafSpec) -> bool {
    match l {
        LeafSpec::ListReverse { .. } => false,
        LeafSpec::KOpt { .. } => false,
        LeafSpec::NearbyKOpt { .. } => false,
        LeafSpec::FamilyBlock { .. } => false,
        _ => true,
    }
}

/// The leaf kinds that follow precedence successors: every list neighborhood but the k-opt
/// kinds and family blocks.
pub open spec fn follows_precedence(l: LeafSpec) -> bool {
    match l {
        LeafSpec::KOpt { .. } => false,
        LeafSpec::NearbyKOpt { .. } => false,
        LeafSpec::FamilyBlock { .. } => false,
        _ => true,
    }
}

/// The binding a leaf carries, when it is not a family block.
pub open spec fn binding_of(l: LeafSpec) -> BindingSpec {
    match l {
        LeafSpec::NearbyListChange { binding, .. } => binding,
        LeafSpec::NearbyListSwap { binding, .. } => binding,
        LeafSpec::ListReverse { binding } => binding,
        LeafSpec::SublistChange { binding, .. } => binding,
        LeafSpec::KOpt { binding, .. } => binding,
        LeafSpec::NearbyKOpt { binding, .. } => binding,
        LeafSpec::ListRuin { binding, .. } => binding,
        LeafSpec::ListChange { binding } => binding,
        LeafSpec::ListSwap { binding } => binding,
        LeafSpec::ListPermute { binding, .. } => binding,
        LeafSpec::ListPrecedence { binding, .. } => binding,
        LeafSpec::SublistSwap { binding, .. } => binding,
        LeafSpec::FamilyBlock { descriptor_index, variable_name, .. } => BindingSpec {
            descriptor_index,
            variable_name,
            element_owners: None,
            precedence_successors: None,
        },
    }
}

/// A leaf works on the slot's list variable, carries the slot's element owners exactly when
/// its kind restricts owners, and the slot's precedence successors exactly when its kind
/// follows precedence.
pub open spec fn leaf_bound_to_slot(l: LeafSpec, hooks: SlotHooks) -> bool {
    let b = binding_of(l);
    &&& b.descriptor_index == hooks.descriptor_index
    &&& b.variable_name == hooks.variable_name
    &&& b.element_owners == (if restricts_owners(l) { hooks.element_owners } else { None })
    &&& b.precedence_successors == (if follows_precedence(l) { hooks.successors } else { None })
}

/// Every leaf a configuration yields, and every default leaf, works on the slot's list
/// variable with the element owners and precedence successors its kind uses.
pub proof fn lemma_leaves_bound_to_slot(cfg: MoveSelectorConfig, hooks: SlotHooks, random_seed: Option<u64>)
    ensures
        forall|k: int| 0 <= k < flat_leaves(cfg, hooks, random_seed).len()
            ==> leaf_bound_to_slot(#[trigger] flat_leaves(cfg, hooks, random_seed)[k], hooks),
    decreases cfg,
{
    match cfg {
        MoveSelectorConfig::UnionMoveSelector(u) => {
            assert forall|i: int| 0 <= i < u.selectors@.len() implies decreases_to!(cfg => #[trigger] u.selectors@[i]) by {
                assert(decreases_to!(cfg => u));
                assert(decreases_to!(u => u.selectors));
                assert(decreases_to!(u.selectors => u.selectors@));
                assert(decreases_to!(u.selectors@ => u.selectors@[i]));
            }
            lemma_all_leaves_bound_to_slot(cfg, u.selectors@, hooks, random_seed);
            assert(flat_leaves(cfg, hooks, random_seed) == all_flat_leaves(u.selectors@, hooks, random_seed));
        },
        _ => {},
    }
}

/// Every default leaf works on the slot's list variable with the element owners and
/// precedence successors its kind uses.
pub proof fn lemma_default_leaves_bound_to_slot(hooks: SlotHooks)
    ensures
        forall|k: int| 0 <= k < default_leaves(hooks).len() ==> leaf_bound_to_slot(#[trigger] default_leaves(hooks)[k], hooks),
{
}

proof fn lemma_all_leaves_bound_to_slot(
    parent: MoveSelectorConfig,
    s: Seq<MoveSelectorConfig>,
    hooks: SlotHooks,
    random_seed: Option<u64>,
)
    requires
        forall|i: int| 0 <= i < s.len() ==> decreases_to!(parent => #[trigger] s[i]),
    ensures
        forall|k: int| 0 <= k < all_flat_leaves(s, hooks, random_seed).len()
            ==> leaf_bound_to_slot(#[trigger] all_flat_leaves(s, hooks, random_seed)[k], hooks),
    decreases parent, s.len(),
{
    if s.len() > 0 {
        let rest = s.subrange(1, s.len() as int);
        assert forall|i: int| 0 <= i < rest.len() implies decreases_to!(parent => #[trigger] rest[i]) by {
            assert(rest[i] == s[i + 1]);
        }
        assert(decreases_to!(parent => s[0]));
        lemma_leaves_bound_to_slot(s[0], hooks, random_seed);
        lemma_all_leaves_bound_to_slot(parent, rest, hooks, random_seed);
        let a = flat_leaves(s[0], hooks, random_seed);
        let b = all_flat_leaves(rest, hooks, random_seed);
        assert forall|k: int| 0 <= k < (a + b).len() implies leaf_bound_to_slot(#[trigger] (a + b)[k], hooks) by {
            if k < a.len() {
                assert((a + b)[k] == a[k]);
            } else {
                assert((a + b)[k] == b[k - a.len()]);
            }
        }
    }
}

/// Which configurations need full score evaluation while moves are previewed: a cartesian
/// product and a list ruin always do; a union does exactly when one of its children does; a
/// limited neighborhood does exactly when its child does; nothing else does.
pub proof fn lemma_score_during_move(cfg: MoveSelectorConfig)
    ensures
        cfg is CartesianProductMoveSelector ==> requires_score(cfg),
        cfg is ListRuinMoveSelector ==> requires_score(cfg),
        cfg matches MoveSelectorConfig::UnionMoveSelector(u) ==> (requires_score(cfg)
            <==> exists|i: int| 0 <= i < u.selectors@.len() && requires_score(#[trigger] u.selectors@[i])),
        cfg matches MoveSelectorConfig::LimitedNeighborhood(l) ==> requires_score(cfg) == requires_score(*l.selector),
        !(cfg is CartesianProductMoveSelector) && !(cfg is ListRuinMoveSelector) && !(cfg is UnionMoveSelector)
            && !(cfg is LimitedNeighborhood) ==> !requires_score(cfg),
{
    match cfg {
        MoveSelectorConfig::UnionMoveSelector(u) => {
            lemma_any_requires_score(u.selectors@);
        },
        _ => {},
    }
}

/// A sequence of configurations needs score during preview exactly when one of them does.
proof fn lemma_any_requires_score(s: Seq<MoveSelectorConfig>)
    ensures
        any_requires_score(s) <==> exists|i: int| 0 <= i < s.len() && requires_score(#[trigger] s[i]),
    decreases s.len(),
{
    if s.len() > 0 {
        let rest = s.subrange(1, s.len() as int);
        lemma_any_requires_score(rest);
        if exists|i: int| 0 <= i < rest.len() && requires_score(#[trigger] rest[i]) {
            let i = choose|i: int| 0 <= i < rest.len() && requires_score(#[trigger] rest[i]);
            assert(s[i + 1] == rest[i]);
        }
        if exists|i: int| 0 <= i < s.len() && requires_score(#[trigger] s[i]) {
            let i = choose|i: int| 0 <= i < s.len() && requires_score(#[trigger] s[i]);
            if i > 0 {
                assert(rest[i - 1] == s[i]);
            }
        }
    }
}

} // verus!

verus! {

/// Each list configuration that is not a union yields one leaf of its own kind carrying its
/// parameters: nearby change and swap keep `max_nearby`; permute keeps its window sizes;
/// sublist change and swap keep their sublist sizes; family block keeps its block size and the
/// slot's family hooks; k-opt clamps `k` into `2..=5` and turns into nearby k-opt exactly when
/// `max_nearby` is positive; ruin keeps its counts and limits, takes the run's seed, and runs
/// `moves_per_step` moves per step (10 when absent, at least 1).
pub proof fn lemma_leaf_of_list_config(cfg: MoveSelectorConfig, hooks: SlotHooks, random_seed: Option<u64>)
    ensures
        ({
            let leaves = flat_leaves(cfg, hooks, random_seed);
            &&& cfg matches MoveSelectorConfig::NearbyListChangeMoveSelector(c)
                ==> (leaves.len() == 1 && (leaves[0] matches LeafSpec::NearbyListChange { max_nearby, .. } && max_nearby == c.max_nearby))
            &&& cfg matches MoveSelectorConfig::NearbyListSwapMoveSelector(c)
                ==> (leaves.len() == 1 && (leaves[0] matches LeafSpec::NearbyListSwap { max_nearby, .. } && max_nearby == c.max_nearby))
            &&& cfg is ListReverseMoveSelector ==> leaves.len() == 1 && leaves[0] is ListReverse
            &&& cfg is ListChangeMoveSelector ==> leaves.len() == 1 && leaves[0] is ListChange
            &&& cfg is ListSwapMoveSelector ==> leaves.len() == 1 && leaves[0] is ListSwap
            &&& cfg is ListPrecedenceMoveSelector ==> leaves.len() == 1 && leaves[0] is ListPrecedence
            &&& cfg matches MoveSelectorConfig::ListPermuteMoveSelector(c) ==> (leaves.len() == 1
                && (leaves[0] matches LeafSpec::ListPermute { min_window_size, max_window_size, .. }
                && min_window_size == c.min_window_size && max_window_size == c.max_window_size))
            &&& cfg matches MoveSelectorConfig::SublistChangeMoveSelector(c) ==> (leaves.len() == 1
                && (leaves[0] matches LeafSpec::SublistChange { min_sublist_size, max_sublist_size, .. }
                && min_sublist_size == c.min_sublist_size && max_sublist_size == c.max_sublist_size))
            &&& cfg matches MoveSelectorConfig::SublistSwapMoveSelector(c) ==> (leaves.len() == 1
                && (leaves[0] matches LeafSpec::SublistSwap { min_sublist_size, max_sublist_size, .. }
                && min_sublist_size == c.min_sublist_size && max_sublist_size == c.max_sublist_size))
            &&& cfg matches MoveSelectorConfig::FamilyBlockMoveSelector(c) ==> (leaves.len() == 1
                && (leaves[0] matches LeafSpec::FamilyBlock { min_block_size, family_keys, owners, .. }
                && min_block_size == c.min_block_size && family_keys == hooks.family_keys->0 && owners == hooks.owners->0))
            &&& cfg matches MoveSelectorConfig::KOptMoveSelector(c) ==> (leaves.len() == 1 && (if c.max_nearby > 0 {
                leaves[0] matches LeafSpec::NearbyKOpt { k, min_segment_len, max_nearby, .. }
                    && 2 <= k <= 5 && (2 <= c.k <= 5 ==> k == c.k) && (c.k < 2 ==> k == 2) && (c.k > 5 ==> k == 5)
                    && min_segment_len == c.min_segment_len && max_nearby == c.max_nearby
            } else {
                leaves[0] matches LeafSpec::KOpt { k, min_segment_len, .. }
                    && 2 <= k <= 5 && (2 <= c.k <= 5 ==> k == c.k) && (c.k < 2 ==> k == 2) && (c.k > 5 ==> k == 5)
                    && min_segment_len == c.min_segment_len
            }))
            &&& cfg matches MoveSelectorConfig::ListRuinMoveSelector(c) ==> (leaves.len() == 1
                && (leaves[0] matches LeafSpec::ListRuin { options, .. }
                && options.min_ruin_count == c.min_ruin_count && options.max_ruin_count == c.max_ruin_count
                && options.max_source_list_len == c.max_source_list_len
                && options.skip_empty_destinations == c.skip_empty_destinations && options.random_seed == random_seed
                && (c.moves_per_step is None ==> options.moves_per_step == 10)
                && (c.moves_per_step is Some ==> options.moves_per_step == (if c.moves_per_step->0 == 0 { 1 } else { c.moves_per_step->0 }))))
        }),
{
}

} // verus!
