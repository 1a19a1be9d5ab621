use vstd::prelude::*;

verus! {

/// Which list or scalar planning variable a selector targets; `None` matches any.
#[derive(Debug, Clone, PartialEq, Eq)]
pub struct VariableTargetConfig {
    pub entity_class: Option<String>,
    pub variable_name: Option<String>,
}

impl VariableTargetConfig {
    /// Targets every variable.
    pub open spec fn is_any(&self) -> bool {
        self.entity_class is None && self.variable_name is None
    }
}

impl Default for VariableTargetConfig {
    fn default() -> (r: Self)
        ensures
            r.is_any(),
    {
        VariableTargetConfig { entity_class: None, variable_name: None }
    }
}

/// Move selector configuration.
#[derive(Debug)]
pub enum MoveSelectorConfig {
    /// Change move selector (scalar variables).
    ChangeMoveSelector(ChangeMoveConfig),
    /// Swap move selector (scalar variables).
    SwapMoveSelector(SwapMoveConfig),
    /// Nearby change move selector (scalar variables).
    NearbyChangeMoveSelector(NearbyChangeMoveConfig),
    /// Nearby swap move selector (scalar variables).
    NearbySwapMoveSelector(NearbySwapMoveConfig),
    /// Pillar change move selector (scalar variables).
    PillarChangeMoveSelector(PillarChangeMoveConfig),
    /// Pillar swap move selector (scalar variables).
    PillarSwapMoveSelector(PillarSwapMoveConfig),
    /// Ruin-and-recreate move selector (scalar variables).
    RuinRecreateMoveSelector(RuinRecreateMoveSelectorConfig),
    /// Atomic grouped scalar move selector.
    GroupedScalarMoveSelector(GroupedScalarMoveSelectorConfig),
    /// List change move selector: relocates single elements within and between lists.
    ListChangeMoveSelector(ListChangeMoveConfig),
    /// Nearby list change move selector: distance-pruned element relocation.
    NearbyListChangeMoveSelector(NearbyListChangeMoveConfig),
    /// List swap move selector: swaps single elements within and between lists.
    ListSwapMoveSelector(ListSwapMoveConfig),
    /// List permute move selector: permutes contiguous windows within lists.
    ListPermuteMoveSelector(ListPermuteMoveConfig),
    /// List precedence move selector: prioritizes critical list arcs in precedence makespan models.
    ListPrecedenceMoveSelector(ListPrecedenceMoveConfig),
    /// Nearby list swap move selector: distance-pruned element swap.
    NearbyListSwapMoveSelector(NearbyListSwapMoveConfig),
    /// Sublist change move selector (Or-opt): relocates contiguous segments.
    SublistChangeMoveSelector(SublistChangeMoveConfig),
    /// Sublist swap move selector: swaps contiguous segments between lists.
    SublistSwapMoveSelector(SublistSwapMoveConfig),
    /// Family-block move selector: relocates a maximal same-family contiguous run atomically.
    FamilyBlockMoveSelector(FamilyBlockMoveConfig),
    /// List reverse move selector (2-opt): reverses segments within a list.
    ListReverseMoveSelector(ListReverseMoveConfig),
    /// K-opt move selector: generalised route reconnection.
    KOptMoveSelector(KOptMoveSelectorConfig),
    /// List ruin move selector (LNS): removes elements for reinsertion.
    ListRuinMoveSelector(ListRuinMoveSelectorConfig),
    /// Limits the number of candidates yielded by a child selector, keeping its order.
    LimitedNeighborhood(LimitedNeighborhoodConfig),
    /// Union of several selectors.
    UnionMoveSelector(UnionMoveSelectorConfig),
    /// Cartesian product of two selectors: the right child is evaluated on the left preview
    /// state, and left children that need full score evaluation during preview are refused.
    CartesianProductMoveSelector(CartesianProductConfig),
    /// Conflict-directed scalar repair selector.
    ConflictRepairMoveSelector(ConflictRepairMoveSelectorConfig),
    /// Conflict-directed compound scalar repair selector with enforced hard improvement.
    CompoundConflictRepairMoveSelector(CompoundConflictRepairMoveSelectorConfig),
}

/// Change move configuration.
#[derive(Debug, Clone)]
pub struct ChangeMoveConfig {
    pub value_candidate_limit: Option<usize>,
    pub target: VariableTargetConfig,
}

impl Default for ChangeMoveConfig {
    fn default() -> (r: Self)
        ensures
            r.value_candidate_limit is None,
            r.target.is_any(),
    {
        ChangeMoveConfig {
            value_candidate_limit: None,
            target: VariableTargetConfig::default(),
        }
    }
}

/// Swap move configuration.
#[derive(Debug, Clone)]
pub struct SwapMoveConfig {
    pub target: VariableTargetConfig,
}

impl Default for SwapMoveConfig {
    fn default() -> (r: Self)
        ensures
            r.target.is_any(),
    {
        SwapMoveConfig {
            target: VariableTargetConfig::default(),
        }
    }
}

/// Nearby change move configuration.
#[derive(Debug, Clone)]
pub struct NearbyChangeMoveConfig {
    pub max_nearby: usize,
    pub value_candidate_limit: Option<usize>,
    pub target: VariableTargetConfig,
}

impl Default for NearbyChangeMoveConfig {
    fn default() -> (r: Self)
        ensures
            r.max_nearby == 10,
            r.value_candidate_limit is None,
            r.target.is_any(),
    {
        let (max_nearby, target) = default_nearby_target_config();
        NearbyChangeMoveConfig {
            max_nearby: max_nearby,
            value_candidate_limit: None,
            target: target,
        }
    }
}

/// Nearby swap move configuration.
#[derive(Debug, Clone)]
pub struct NearbySwapMoveConfig {
    pub max_nearby: usize,
    pub target: VariableTargetConfig,
}

impl Default for NearbySwapMoveConfig {
    fn default() -> (r: Self)
        ensures
            r.max_nearby == 10,
            r.target.is_any(),
    {
        let (max_nearby, target) = default_nearby_target_config();
        NearbySwapMoveConfig {
            max_nearby: max_nearby,
            target: target,
        }
    }
}

/// Pillar change move configuration.
#[derive(Debug, Clone)]
pub struct PillarChangeMoveConfig {
    pub minimum_sub_pillar_size: usize,
    pub maximum_sub_pillar_size: usize,
    pub value_candidate_limit: Option<usize>,
    pub target: VariableTargetConfig,
}

impl Default for PillarChangeMoveConfig {
    fn default() -> (r: Self)
        ensures
            r.minimum_sub_pillar_size == 0,
            r.maximum_sub_pillar_size == 0,
            r.value_candidate_limit is None,
            r.target.is_any(),
    {
        PillarChangeMoveConfig {
            minimum_sub_pillar_size: 0,
            maximum_sub_pillar_size: 0,
            value_candidate_limit: None,
            target: VariableTargetConfig::default(),
        }
    }
}

/// Pillar swap move configuration.
#[derive(Debug, Clone)]
pub struct PillarSwapMoveConfig {
    pub minimum_sub_pillar_size: usize,
    pub maximum_sub_pillar_size: usize,
    pub target: VariableTargetConfig,
}

impl Default for PillarSwapMoveConfig {
    fn default() -> (r: Self)
        ensures
            r.minimum_sub_pillar_size == 0,
            r.maximum_sub_pillar_size == 0,
            r.target.is_any(),
    {
        PillarSwapMoveConfig {
            minimum_sub_pillar_size: 0,
            maximum_sub_pillar_size: 0,
            target: VariableTargetConfig::default(),
        }
    }
}

/// Recreate heuristic of ruin-and-recreate moves.
#[derive(Debug, Clone, Copy, PartialEq, Eq)]
pub enum RecreateHeuristicType {
    FirstFit,
    CheapestInsertion,
}

impl Default for RecreateHeuristicType {
    fn default() -> (r: Self)
        ensures
            r == RecreateHeuristicType::FirstFit,
    {
        RecreateHeuristicType::FirstFit
    }
}

/// Order in which a union selector draws from its children.
#[derive(Debug, Clone, Copy, PartialEq, Eq)]
pub enum UnionSelectionOrder {
    Sequential,
    RoundRobin,
    RotatingRoundRobin,
    StratifiedRandom,
}

impl Default for UnionSelectionOrder {
    fn default() -> (r: Self)
        ensures
            r == UnionSelectionOrder::Sequential,
    {
        UnionSelectionOrder::Sequential
    }
}

/// Ruin-and-recreate move configuration.
#[derive(Debug, Clone)]
pub struct RuinRecreateMoveSelectorConfig {
    pub min_ruin_count: usize,
    pub max_ruin_count: usize,
    pub moves_per_step: Option<usize>,
    pub value_candidate_limit: Option<usize>,
    pub recreate_heuristic_type: RecreateHeuristicType,
    pub target: VariableTargetConfig,
}

impl Default for RuinRecreateMoveSelectorConfig {
    fn default() -> (r: Self)
        ensures
            r.min_ruin_count == 2,
            r.max_ruin_count == 5,
            r.moves_per_step is None,
            r.value_candidate_limit is None,
            r.recreate_heuristic_type == RecreateHeuristicType::FirstFit,
            r.target.is_any(),
    {
        RuinRecreateMoveSelectorConfig {
            min_ruin_count: 2,
            max_ruin_count: 5,
            moves_per_step: None,
            value_candidate_limit: None,
            recreate_heuristic_type: RecreateHeuristicType::FirstFit,
            target: VariableTargetConfig::default(),
        }
    }
}

/// Configuration of the grouped scalar move selector.
#[derive(Debug, Clone, PartialEq, Eq)]
pub struct GroupedScalarMoveSelectorConfig {
    pub group_name: String,
    pub value_candidate_limit: Option<usize>,
    pub max_moves_per_step: Option<usize>,
    pub require_hard_improvement: bool,
}

/// Configuration of the list change move selector.
#[derive(Debug, Clone)]
pub struct ListChangeMoveConfig {
    pub target: VariableTargetConfig,
}

impl Default for ListChangeMoveConfig {
    fn default() -> (r: Self)
        ensures
            r.target.is_any(),
    {
        ListChangeMoveConfig {
            target: VariableTargetConfig::default(),
        }
    }
}

/// Configuration of the nearby list change move selector.
#[derive(Debug, Clone)]
pub struct NearbyListChangeMoveConfig {
    /// Maximum nearby destination positions considered per source element.
    pub max_nearby: usize,
    pub target: VariableTargetConfig,
}

impl Default for NearbyListChangeMoveConfig {
    fn default() -> (r: Self)
        ensures
            r.max_nearby == 10,
            r.target.is_any(),
    {
        let (max_nearby, target) = default_nearby_target_config();
        NearbyListChangeMoveConfig {
            max_nearby: max_nearby,
            target: target,
        }
    }
}

/// Configuration of the list swap move selector.
#[derive(Debug, Clone)]
pub struct ListSwapMoveConfig {
    pub target: VariableTargetConfig,
}

impl Default for ListSwapMoveConfig {
    fn default() -> (r: Self)
        ensures
            r.target.is_any(),
    {
        ListSwapMoveConfig {
            target: VariableTargetConfig::default(),
        }
    }
}

/// Configuration of the list permute move selector.
#[derive(Debug, Clone)]
pub struct ListPermuteMoveConfig {
    /// Minimum window size (inclusive). Default: 2.
    pub min_window_size: usize,
    /// Maximum window size (inclusive). Default: 5.
    pub max_window_size: usize,
    pub target: VariableTargetConfig,
}

impl Default for ListPermuteMoveConfig {
    fn default() -> (r: Self)
        ensures
            r.min_window_size == 2,
            r.max_window_size == 5,
            r.target.is_any(),
    {
        ListPermuteMoveConfig {
            min_window_size: 2,
            max_window_size: 5,
            target: VariableTargetConfig::default(),
        }
    }
}

/// Configuration of the list precedence move selector.
#[derive(Debug, Clone)]
pub struct ListPrecedenceMoveConfig {
    pub target: VariableTargetConfig,
}

impl Default for ListPrecedenceMoveConfig {
    fn default() -> (r: Self)
        ensures
            r.target.is_any(),
    {
        ListPrecedenceMoveConfig {
            target: VariableTargetConfig::default(),
        }
    }
}

/// Configuration of the nearby list swap move selector.
#[derive(Debug, Clone)]
pub struct NearbyListSwapMoveConfig {
    /// Maximum nearby swap partners considered per source element.
    pub max_nearby: usize,
    pub target: VariableTargetConfig,
}

impl Default for NearbyListSwapMoveConfig {
    fn default() -> (r: Self)
        ensures
            r.max_nearby == 10,
            r.target.is_any(),
    {
        let (max_nearby, target) = default_nearby_target_config();
        NearbyListSwapMoveConfig {
            max_nearby: max_nearby,
            target: target,
        }
    }
}

/// Configuration of the sublist change move selector (Or-opt).
#[derive(Debug, Clone)]
pub struct SublistChangeMoveConfig {
    /// Minimum segment size (inclusive). Default: 1.
    pub min_sublist_size: usize,
    /// Maximum segment size (inclusive). Default: 3.
    pub max_sublist_size: usize,
    pub target: VariableTargetConfig,
}

impl Default for SublistChangeMoveConfig {
    fn default() -> (r: Self)
        ensures
            r.min_sublist_size == 1,
            r.max_sublist_size == 3,
            r.target.is_any(),
    {
        let (min_sublist_size, max_sublist_size, target) = default_sublist_target_config();
        SublistChangeMoveConfig {
            min_sublist_size: min_sublist_size,
            max_sublist_size: max_sublist_size,
            target: target,
        }
    }
}

/// Configuration of the sublist swap move selector.
#[derive(Debug, Clone)]
pub struct SublistSwapMoveConfig {
    /// Minimum segment size (inclusive). Default: 1.
    pub min_sublist_size: usize,
    /// Maximum segment size (inclusive). Default: 3.
    pub max_sublist_size: usize,
    pub target: VariableTargetConfig,
}

impl Default for SublistSwapMoveConfig {
    fn default() -> (r: Self)
        ensures
            r.min_sublist_size == 1,
            r.max_sublist_size == 3,
            r.target.is_any(),
    {
        let (min_sublist_size, max_sublist_size, target) = default_sublist_target_config();
        SublistSwapMoveConfig {
            min_sublist_size: min_sublist_size,
            max_sublist_size: max_sublist_size,
            target: target,
        }
    }
}

/// Configuration of the family-block move selector.
#[derive(Debug, Clone)]
pub struct FamilyBlockMoveConfig {
    /// Minimum contiguous same-family block size (inclusive). Default: 2.
    pub min_block_size: usize,
    pub target: VariableTargetConfig,
}

impl Default for FamilyBlockMoveConfig {
    fn default() -> (r: Self)
        ensures
            r.min_block_size == 2,
            r.target.is_any(),
    {
        FamilyBlockMoveConfig {
            min_block_size: 2,
            target: VariableTargetConfig::default(),
        }
    }
}

/// Configuration of the list reverse move selector (2-opt).
#[derive(Debug, Clone)]
pub struct ListReverseMoveConfig {
    pub target: VariableTargetConfig,
}

impl Default for ListReverseMoveConfig {
    fn default() -> (r: Self)
        ensures
            r.target.is_any(),
    {
        ListReverseMoveConfig {
            target: VariableTargetConfig::default(),
        }
    }
}

/// Configuration of the k-opt move selector.
#[derive(Debug, Clone)]
pub struct KOptMoveSelectorConfig {
    /// K value (number of cuts). Default: 3.
    pub k: usize,
    /// Minimum segment length between cuts. Default: 1.
    pub min_segment_len: usize,
    /// Maximum nearby positions per cut. Default: 0 (full enumeration); above 0 the distance-pruned variant is used.
    pub max_nearby: usize,
    pub target: VariableTargetConfig,
}

impl Default for KOptMoveSelectorConfig {
    fn default() -> (r: Self)
        ensures
            r.k == 3,
            r.min_segment_len == 1,
            r.max_nearby == 0,
            r.target.is_any(),
    {
        KOptMoveSelectorConfig {
            k: 3,
            min_segment_len: 1,
            max_nearby: 0,
            target: VariableTargetConfig::default(),
        }
    }
}

/// Configuration of the list ruin move selector (LNS).
#[derive(Debug, Clone)]
pub struct ListRuinMoveSelectorConfig {
    /// Minimum number of elements ruined per move. Default: 2.
    pub min_ruin_count: usize,
    /// Maximum number of elements ruined per move. Default: 5.
    pub max_ruin_count: usize,
    /// Number of ruin moves generated per step (10 when absent).
    pub moves_per_step: Option<usize>,
    /// Optional maximum source list length eligible for this selector.
    pub max_source_list_len: Option<usize>,
    /// Whether recreate skips currently empty destination lists.
    pub skip_empty_destinations: bool,
    pub target: VariableTargetConfig,
}

impl Default for ListRuinMoveSelectorConfig {
    fn default() -> (r: Self)
        ensures
            r.min_ruin_count == 2,
            r.max_ruin_count == 5,
            r.moves_per_step is None,
            r.max_source_list_len is None,
            !r.skip_empty_destinations,
            r.target.is_any(),
    {
        ListRuinMoveSelectorConfig {
            min_ruin_count: 2,
            max_ruin_count: 5,
            moves_per_step: None,
            max_source_list_len: None,
            skip_empty_destinations: false,
            target: VariableTargetConfig::default(),
        }
    }
}

/// Configuration of a limited neighborhood.
#[derive(Debug)]
pub struct LimitedNeighborhoodConfig {
    /// Maximum number of moves yielded from the child selector.
    pub selected_count_limit: usize,
    /// Child selector.
    pub selector: Box<MoveSelectorConfig>,
}

/// Union move selector configuration.
#[derive(Debug)]
pub struct UnionMoveSelectorConfig {
    pub selection_order: UnionSelectionOrder,
    /// Child selectors.
    pub selectors: Vec<MoveSelectorConfig>,
}

impl Default for UnionMoveSelectorConfig {
    fn default() -> (r: Self)
        ensures
            r.selection_order == UnionSelectionOrder::Sequential,
            r.selectors@.len() == 0,
    {
        UnionMoveSelectorConfig {
            selection_order: UnionSelectionOrder::Sequential,
            selectors: Vec::new(),
        }
    }
}

/// Cartesian product move selector configuration.
#[derive(Debug)]
pub struct CartesianProductConfig {
    /// When true, composed candidates are refused unless the hard score improves.
    pub require_hard_improvement: bool,
    /// Child selectors.
    pub selectors: Vec<MoveSelectorConfig>,
}

impl Default for CartesianProductConfig {
    fn default() -> (r: Self)
        ensures
            !r.require_hard_improvement,
            r.selectors@.len() == 0,
    {
        CartesianProductConfig {
            require_hard_improvement: false,
            selectors: Vec::new(),
        }
    }
}

/// Conflict-directed scalar repair selector configuration.
#[derive(Debug, Clone, PartialEq, Eq)]
pub struct ConflictRepairMoveSelectorConfig {
    pub constraints: Vec<String>,
    pub max_matches_per_step: usize,
    pub max_repairs_per_match: usize,
    pub max_moves_per_step: usize,
    pub require_hard_improvement: bool,
    pub include_soft_matches: bool,
}

impl Default for ConflictRepairMoveSelectorConfig {
    fn default() -> (r: Self)
        ensures
            r.constraints@.len() == 0,
            r.max_matches_per_step == 16,
            r.max_repairs_per_match == 32,
            r.max_moves_per_step == 256,
            !r.require_hard_improvement,
            !r.include_soft_matches,
    {
        ConflictRepairMoveSelectorConfig {
            constraints: Vec::new(),
            max_matches_per_step: default_conflict_repair_max_matches(),
            max_repairs_per_match: default_conflict_repair_max_repairs(),
            max_moves_per_step: default_conflict_repair_max_moves(),
            require_hard_improvement: false,
            include_soft_matches: false,
        }
    }
}

/// Conflict-directed compound scalar repair selector configuration.
#[derive(Debug, Clone, PartialEq, Eq)]
pub struct CompoundConflictRepairMoveSelectorConfig {
    pub constraints: Vec<String>,
    pub max_matches_per_step: usize,
    pub max_repairs_per_match: usize,
    pub max_moves_per_step: usize,
    pub require_hard_improvement: bool,
    pub include_soft_matches: bool,
}

impl Default for CompoundConflictRepairMoveSelectorConfig {
    fn default() -> (r: Self)
        ensures
            r.constraints@.len() == 0,
            r.max_matches_per_step == 16,
            r.max_repairs_per_match == 32,
            r.max_moves_per_step == 256,
            r.require_hard_improvement,
            !r.include_soft_matches,
    {
        CompoundConflictRepairMoveSelectorConfig {
            constraints: Vec::new(),
            max_matches_per_step: default_conflict_repair_max_matches(),
            max_repairs_per_match: default_conflict_repair_max_repairs(),
            max_moves_per_step: default_conflict_repair_max_moves(),
            require_hard_improvement: default_require_hard_improvement(),
            include_soft_matches: false,
        }
    }
}

pub fn default_conflict_repair_max_matches() -> (r: usize)
    ensures
        r == 16,
{
    16
}

pub fn default_conflict_repair_max_repairs() -> (r: usize)
    ensures
        r == 32,
{
    32
}

pub fn default_conflict_repair_max_moves() -> (r: usize)
    ensures
        r == 256,
{
    256
}

pub fn default_require_hard_improvement() -> (r: bool)
    ensures
        r,
{
    true
}

pub fn default_nearby_target_config() -> (r: (usize, VariableTargetConfig))
    ensures
        r.0 == 10,
        r.1.is_any(),
{
    (10, VariableTargetConfig::default())
}

pub fn default_sublist_target_config() -> (r: (usize, usize, VariableTargetConfig))
    ensures
        r.0 == 1,
        r.1 == 3,
        r.2.is_any(),
{
    (1, 3, VariableTargetConfig::default())
}

} // verus!
