use solverforge_lists::config::{
    default_conflict_repair_max_matches, default_conflict_repair_max_moves, default_conflict_repair_max_repairs,
    default_nearby_target_config, default_require_hard_improvement, default_sublist_target_config,
    CompoundConflictRepairMoveSelectorConfig, ConflictRepairMoveSelectorConfig, FamilyBlockMoveConfig,
    KOptMoveSelectorConfig, ListPermuteMoveConfig, ListRuinMoveSelectorConfig, NearbyChangeMoveConfig,
    NearbyListChangeMoveConfig, RuinRecreateMoveSelectorConfig, SublistChangeMoveConfig, SublistSwapMoveConfig,
    UnionSelectionOrder, VariableTargetConfig,
};
use solverforge_lists::solver_config::{ConstructionHeuristicConfig, LocalSearchConfig, PhaseConfig, SolverConfig};

#[test]
fn test_builder() {
    let config = SolverConfig::new()
        .with_random_seed(123)
        .with_termination_seconds(60)
        .with_phase(PhaseConfig::ConstructionHeuristic(ConstructionHeuristicConfig::default()))
        .with_phase(PhaseConfig::LocalSearch(LocalSearchConfig::default()));

    assert_eq!(config.random_seed, Some(123));
    assert_eq!(config.phases.len(), 2);
}

#[test]
fn builder_sets_the_time_limit() {
    let config = SolverConfig::new().with_termination_seconds(30);
    assert_eq!(config.termination.unwrap().seconds_spent_limit, Some(30));
    assert!(config.phases.is_empty());
    assert_eq!(config.random_seed, None);
}

#[test]
fn default_helpers_give_documented_values() {
    assert_eq!(default_conflict_repair_max_matches(), 16);
    assert_eq!(default_conflict_repair_max_repairs(), 32);
    assert_eq!(default_conflict_repair_max_moves(), 256);
    assert!(default_require_hard_improvement());
    assert_eq!(default_nearby_target_config(), (10, VariableTargetConfig::default()));
    assert_eq!(default_sublist_target_config(), (1, 3, VariableTargetConfig::default()));
    assert_eq!(VariableTargetConfig::default(), VariableTargetConfig { entity_class: None, variable_name: None });
}

#[test]
fn move_config_defaults() {
    let nearby = NearbyChangeMoveConfig::default();
    assert_eq!(nearby.max_nearby, 10);
    assert_eq!(nearby.value_candidate_limit, None);
    assert_eq!(NearbyListChangeMoveConfig::default().max_nearby, 10);

    let ruin = RuinRecreateMoveSelectorConfig::default();
    assert_eq!((ruin.min_ruin_count, ruin.max_ruin_count, ruin.moves_per_step), (2, 5, None));

    let permute = ListPermuteMoveConfig::default();
    assert_eq!((permute.min_window_size, permute.max_window_size), (2, 5));

    let sublist = SublistChangeMoveConfig::default();
    assert_eq!((sublist.min_sublist_size, sublist.max_sublist_size), (1, 3));
    let sublist_swap = SublistSwapMoveConfig::default();
    assert_eq!((sublist_swap.min_sublist_size, sublist_swap.max_sublist_size), (1, 3));

    assert_eq!(FamilyBlockMoveConfig::default().min_block_size, 2);

    let kopt = KOptMoveSelectorConfig::default();
    assert_eq!((kopt.k, kopt.min_segment_len, kopt.max_nearby), (3, 1, 0));

    let list_ruin = ListRuinMoveSelectorConfig::default();
    assert_eq!((list_ruin.min_ruin_count, list_ruin.max_ruin_count), (2, 5));
    assert_eq!(list_ruin.moves_per_step, None);
    assert_eq!(list_ruin.max_source_list_len, None);
    assert!(!list_ruin.skip_empty_destinations);
}

#[test]
fn conflict_repair_defaults() {
    let repair = ConflictRepairMoveSelectorConfig::default();
    assert!(repair.constraints.is_empty());
    assert_eq!((repair.max_matches_per_step, repair.max_repairs_per_match, repair.max_moves_per_step), (16, 32, 256));
    assert!(!repair.require_hard_improvement);
    assert!(!repair.include_soft_matches);

    let compound = CompoundConflictRepairMoveSelectorConfig::default();
    assert_eq!((compound.max_matches_per_step, compound.max_repairs_per_match, compound.max_moves_per_step), (16, 32, 256));
    assert!(compound.require_hard_improvement);
    assert!(!compound.include_soft_matches);
    assert_eq!(UnionSelectionOrder::default(), UnionSelectionOrder::Sequential);
}
