use solverforge_lists::builder::{ListLeafSelector, ListMoveSelectorBuilder, ListSelectorNode};
use solverforge_lists::config::{
    CartesianProductConfig, FamilyBlockMoveConfig, KOptMoveSelectorConfig, ListChangeMoveConfig, ListReverseMoveConfig,
    ListRuinMoveSelectorConfig, ListSwapMoveConfig, MoveSelectorConfig, UnionMoveSelectorConfig, UnionSelectionOrder,
};
use solverforge_lists::slot::{attach_runtime_list_hooks, DeclaredListHooks, ListVariableSlot};
use solverforge_lists::solution::ListSolution;

type Slot = ListVariableSlot<(), (), ()>;

fn slot() -> Slot {
    ListVariableSlot::new("Vehicle", (), (), "visits", 0, None, None, None, None, None, None, None, None, None)
}

fn family_keys() -> Vec<Option<u64>> {
    (0..30).map(|element| Some(element as u64 / 10)).collect()
}

fn eligible_owners() -> Vec<Vec<usize>> {
    vec![vec![0, 1]; 30]
}

#[test]
fn with_family_block_hooks_attaches_both_hooks_onto_the_slot() {
    let slot = slot();
    assert!(slot.element_family_key_fn.is_none());
    assert!(slot.element_eligible_owners_fn.is_none());

    let slot = slot.clone().with_family_block_hooks(Some(family_keys()), None);
    assert!(slot.element_family_key_fn.is_some());
    assert!(slot.element_eligible_owners_fn.is_none());
    assert_eq!(slot.element_family_key_fn.as_ref().unwrap()[23], Some(2));

    let slot = slot.with_family_block_hooks(Some(family_keys()), Some(eligible_owners()));
    assert!(slot.element_family_key_fn.is_some());
    assert!(slot.element_eligible_owners_fn.is_some());
    assert_eq!(slot.element_eligible_owners_fn.as_ref().unwrap()[0], vec![0, 1]);
}

#[test]
fn slot_matches_targets_and_reports_content() {
    let slot = slot();
    assert!(slot.matches_target(None, None));
    assert!(slot.matches_target(Some("Vehicle"), Some("visits")));
    assert!(!slot.matches_target(Some("Shift"), None));
    assert!(!slot.matches_target(None, Some("stops")));

    let partial = ListSolution::new(vec![vec![0, 1], Vec::new()], 3);
    assert!(slot.has_unassigned_elements(&partial));
    assert!(slot.has_list_content(&partial));
    let full = ListSolution::new(vec![vec![0], vec![1, 2]], 3);
    assert!(!slot.has_unassigned_elements(&full));
    let empty = ListSolution::new(vec![Vec::new(), Vec::new()], 0);
    assert!(!slot.has_unassigned_elements(&empty));
    assert!(!slot.has_list_content(&empty));
}

#[test]
fn slot_capabilities_follow_its_hooks() {
    let plain = slot();
    assert!(!plain.supports_clarke_wright());
    assert!(!plain.supports_k_opt());
    assert!(plain.supports_ruin());
    assert!(!plain.supports_precedence_moves());

    let routed: Slot = ListVariableSlot::new(
        "Vehicle", (), (), "visits", 0, Some(()), Some(()), Some(()), Some(()), None, Some(()), None, Some(()), Some(()),
    );
    assert!(routed.supports_k_opt());
    assert!(routed.supports_clarke_wright());

    let precedence = plain.with_precedence_hooks(Some(vec![1, 2]), Some(vec![vec![1], Vec::new()]));
    assert!(precedence.supports_precedence_moves());
    let owners = precedence.with_element_owner_fn(Some(vec![Some(0), None]));
    assert_eq!(owners.element_owner_fn, Some(vec![Some(0), None]));
    let ordered = owners.with_construction_element_order_key(Some(vec![3, 1]));
    assert_eq!(ordered.construction_element_order_key, Some(vec![3, 1]));
}

#[test]
fn build_without_config_uses_the_default_neighborhoods() {
    let union = ListMoveSelectorBuilder::build(None, &slot(), None);
    assert_eq!(union.nodes.len(), 3);
    assert!(matches!(union.nodes[0], ListSelectorNode::Leaf(ListLeafSelector::NearbyListChange { max_nearby: 20, .. })));
    assert!(matches!(union.nodes[1], ListSelectorNode::Leaf(ListLeafSelector::NearbyListSwap { max_nearby: 20, .. })));
    assert!(matches!(union.nodes[2], ListSelectorNode::Leaf(ListLeafSelector::ListReverse { .. })));
    assert_eq!(union.selection_order, UnionSelectionOrder::Sequential);

    let flat = ListMoveSelectorBuilder::build_flat(None, &slot(), None);
    assert_eq!(flat.leaves.len(), 3);
}

#[test]
fn build_flattens_unions_and_clamps_k() {
    let config = MoveSelectorConfig::UnionMoveSelector(UnionMoveSelectorConfig {
        selection_order: UnionSelectionOrder::RoundRobin,
        selectors: vec![
            MoveSelectorConfig::ListChangeMoveSelector(ListChangeMoveConfig::default()),
            MoveSelectorConfig::UnionMoveSelector(UnionMoveSelectorConfig {
                selection_order: UnionSelectionOrder::Sequential,
                selectors: vec![
                    MoveSelectorConfig::ListSwapMoveSelector(ListSwapMoveConfig::default()),
                    MoveSelectorConfig::KOptMoveSelector(KOptMoveSelectorConfig { k: 9, ..KOptMoveSelectorConfig::default() }),
                ],
            }),
            MoveSelectorConfig::ListRuinMoveSelector(ListRuinMoveSelectorConfig { moves_per_step: Some(0), ..ListRuinMoveSelectorConfig::default() }),
        ],
    });
    let union = ListMoveSelectorBuilder::build(Some(&config), &slot(), Some(7));
    assert_eq!(union.selection_order, UnionSelectionOrder::RoundRobin);
    assert_eq!(union.nodes.len(), 4);
    assert!(matches!(union.nodes[0], ListSelectorNode::Leaf(ListLeafSelector::ListChange { .. })));
    assert!(matches!(union.nodes[1], ListSelectorNode::Leaf(ListLeafSelector::ListSwap { .. })));
    assert!(matches!(union.nodes[2], ListSelectorNode::Leaf(ListLeafSelector::KOpt { k: 5, min_segment_len: 1, .. })));
    match &union.nodes[3] {
        ListSelectorNode::Leaf(ListLeafSelector::ListRuin { options, binding }) => {
            assert_eq!(binding.descriptor_index, 0);
            assert_eq!(binding.precedence_successors, None);
            assert_eq!(options.moves_per_step, 1);
            assert_eq!(options.random_seed, Some(7));
            assert_eq!((options.min_ruin_count, options.max_ruin_count), (2, 5));
        },
        other => panic!("expected a list ruin leaf, got {other:?}"),
    }
}

#[test]
fn build_makes_a_cartesian_node_and_a_family_block_leaf() {
    let slot = slot().with_family_block_hooks(Some(family_keys()), Some(eligible_owners()));
    let config = MoveSelectorConfig::UnionMoveSelector(UnionMoveSelectorConfig {
        selection_order: UnionSelectionOrder::Sequential,
        selectors: vec![
            MoveSelectorConfig::CartesianProductMoveSelector(CartesianProductConfig {
                require_hard_improvement: true,
                selectors: vec![
                    MoveSelectorConfig::ListChangeMoveSelector(ListChangeMoveConfig::default()),
                    MoveSelectorConfig::ListReverseMoveSelector(ListReverseMoveConfig::default()),
                ],
            }),
            MoveSelectorConfig::FamilyBlockMoveSelector(FamilyBlockMoveConfig::default()),
        ],
    });
    let union = ListMoveSelectorBuilder::build(Some(&config), &slot, None);
    assert_eq!(union.nodes.len(), 2);
    match &union.nodes[0] {
        ListSelectorNode::Cartesian { left, right, require_hard_improvement } => {
            assert!(*require_hard_improvement);
            assert!(matches!(left.leaves[..], [ListLeafSelector::ListChange { .. }]));
            assert!(matches!(right.leaves[..], [ListLeafSelector::ListReverse { .. }]));
        },
        other => panic!("expected a cartesian node, got {other:?}"),
    }
    match &union.nodes[1] {
        ListSelectorNode::Leaf(ListLeafSelector::FamilyBlock(selector)) => {
            let sol = ListSolution::new(vec![vec![10, 11, 20], vec![12]], 30);
            assert_eq!(selector.blocks_in(&sol, 0), vec![(0, 2)]);
        },
        other => panic!("expected a family block leaf, got {other:?}"),
    }
}

#[test]
fn score_during_move_is_required_by_ruin_and_cartesian_products() {
    let ruin = MoveSelectorConfig::ListRuinMoveSelector(ListRuinMoveSelectorConfig::default());
    assert!(ListMoveSelectorBuilder::selector_requires_score_during_move(&ruin));
    let change = MoveSelectorConfig::ListChangeMoveSelector(ListChangeMoveConfig::default());
    assert!(!ListMoveSelectorBuilder::selector_requires_score_during_move(&change));
    ListMoveSelectorBuilder::assert_cartesian_left_preview_safe(&change);
    let union = MoveSelectorConfig::UnionMoveSelector(UnionMoveSelectorConfig {
        selection_order: UnionSelectionOrder::Sequential,
        selectors: vec![change, ruin],
    });
    assert!(ListMoveSelectorBuilder::selector_requires_score_during_move(&union));
}

#[test]
fn clone_copies_names_and_every_table() {
    let slot = slot()
        .with_element_owner_fn(Some(vec![Some(1), None]))
        .with_precedence_hooks(Some(vec![4, 5]), Some(vec![vec![1], Vec::new()]))
        .with_family_block_hooks(Some(vec![Some(7), None]), Some(vec![vec![0], vec![0, 1]]));
    let copy = slot.clone();
    assert_eq!(copy.entity_type_name, "Vehicle");
    assert_eq!(copy.variable_name, "visits");
    assert_eq!(copy.descriptor_index, 0);
    assert_eq!(copy.element_owner_fn, Some(vec![Some(1), None]));
    assert_eq!(copy.precedence_duration_fn, Some(vec![4, 5]));
    assert_eq!(copy.precedence_successors_fn, Some(vec![vec![1], Vec::new()]));
    assert_eq!(copy.element_family_key_fn, Some(vec![Some(7), None]));
    assert_eq!(copy.element_eligible_owners_fn, Some(vec![vec![0], vec![0, 1]]));
    assert!(copy.construction_element_order_key.is_none());
    assert!(copy.route_get_fn.is_none());
}

#[test]
fn leaves_range_over_the_slot_descriptor_with_its_hooks() {
    let slot: Slot = ListVariableSlot::new("Machine", (), (), "sequence", 3, None, None, None, None, None, None, None, None, None)
        .with_element_owner_fn(Some(vec![Some(0), None]))
        .with_precedence_hooks(Some(vec![2, 3]), Some(vec![vec![1], Vec::new()]))
        .with_family_block_hooks(Some(vec![Some(1), Some(1)]), Some(vec![vec![0, 1], vec![0, 1]]));
    let union = ListMoveSelectorBuilder::build(None, &slot, None);
    match &union.nodes[0] {
        ListSelectorNode::Leaf(ListLeafSelector::NearbyListChange { binding, .. }) => {
            assert_eq!(binding.descriptor_index, 3);
            assert_eq!(binding.variable_name, "sequence");
            assert_eq!(binding.element_owners, Some(vec![Some(0), None]));
            assert_eq!(binding.precedence_successors, Some(vec![vec![1], Vec::new()]));
        },
        other => panic!("expected a nearby change leaf, got {other:?}"),
    }
    match &union.nodes[2] {
        ListSelectorNode::Leaf(ListLeafSelector::ListReverse { binding }) => {
            assert_eq!(binding.descriptor_index, 3);
            assert_eq!(binding.element_owners, None);
        },
        other => panic!("expected a list reverse leaf, got {other:?}"),
    }

    let config = MoveSelectorConfig::UnionMoveSelector(UnionMoveSelectorConfig {
        selection_order: UnionSelectionOrder::Sequential,
        selectors: vec![
            MoveSelectorConfig::ListRuinMoveSelector(ListRuinMoveSelectorConfig::default()),
            MoveSelectorConfig::FamilyBlockMoveSelector(FamilyBlockMoveConfig::default()),
        ],
    });
    let union = ListMoveSelectorBuilder::build(Some(&config), &slot, Some(5));
    match &union.nodes[0] {
        ListSelectorNode::Leaf(ListLeafSelector::ListRuin { options, binding }) => {
            assert_eq!(options.random_seed, Some(5));
            assert_eq!(binding.precedence_successors, Some(vec![vec![1], Vec::new()]));
        },
        other => panic!("expected a list ruin leaf, got {other:?}"),
    }
    match &union.nodes[1] {
        ListSelectorNode::Leaf(ListLeafSelector::FamilyBlock(selector)) => {
            let sol = ListSolution::new(vec![vec![0, 1], Vec::new(), Vec::new(), Vec::new()], 2);
            let moves = selector.iter_moves(&sol);
            assert!(!moves.is_empty());
            assert!(moves.iter().all(|m| m.descriptor_index() == 3 && m.variable_name() == "sequence"));
        },
        other => panic!("expected a family block leaf, got {other:?}"),
    }
}

fn declared(descriptor_index: usize, variable_name: Option<&'static str>) -> DeclaredListHooks {
    DeclaredListHooks {
        descriptor_index,
        variable_name,
        element_owner: None,
        construction_order_key: None,
        precedence_duration: None,
        precedence_successors: None,
        family_key: None,
        eligible_owners: None,
    }
}

#[test]
fn declared_list_hooks_attach_to_the_matching_slot_only() {
    let route = DeclaredListHooks {
        construction_order_key: Some(vec![2, 1]),
        precedence_duration: Some(vec![3, 4]),
        precedence_successors: Some(vec![vec![1], Vec::new()]),
        family_key: Some(vec![Some(9), None]),
        eligible_owners: Some(vec![vec![0], vec![0]]),
        ..declared(0, Some("visits"))
    };
    let other = DeclaredListHooks { element_owner: Some(vec![Some(5), None]), ..declared(1, Some("visits")) };
    let slot = attach_runtime_list_hooks(slot(), vec![route, other]);
    assert_eq!(slot.construction_element_order_key, Some(vec![2, 1]));
    assert_eq!(slot.precedence_duration_fn, Some(vec![3, 4]));
    assert_eq!(slot.precedence_successors_fn, Some(vec![vec![1], Vec::new()]));
    assert_eq!(slot.element_family_key_fn, Some(vec![Some(9), None]));
    assert_eq!(slot.element_eligible_owners_fn, Some(vec![vec![0], vec![0]]));
    assert!(slot.element_owner_fn.is_none());
}

#[test]
fn a_lone_family_block_hook_attaches_with_the_other_absent() {
    let family_only = DeclaredListHooks { family_key: Some(vec![Some(1)]), ..declared(0, Some("visits")) };
    let slot = attach_runtime_list_hooks(slot(), vec![family_only]);
    assert_eq!(slot.element_family_key_fn, Some(vec![Some(1)]));
    assert!(slot.element_eligible_owners_fn.is_none());

    let eligible_only = DeclaredListHooks { eligible_owners: Some(vec![vec![2]]), ..declared(0, Some("visits")) };
    let slot = attach_runtime_list_hooks(slot, vec![eligible_only]);
    assert!(slot.element_family_key_fn.is_none());
    assert_eq!(slot.element_eligible_owners_fn, Some(vec![vec![2]]));

    let duration_only = DeclaredListHooks { precedence_duration: Some(vec![1]), ..declared(0, Some("visits")) };
    let slot = attach_runtime_list_hooks(slot, vec![duration_only, declared(0, None)]);
    assert!(slot.precedence_duration_fn.is_none());
}

#[test]
fn nearby_leaves_measure_with_the_slot_meters() {
    let slot: ListVariableSlot<u32, u32, ()> =
        ListVariableSlot::new("Vehicle", 7, 9, "visits", 0, None, None, None, None, None, None, None, None, None);
    let union = ListMoveSelectorBuilder::build(None, &slot, None);
    assert!(matches!(union.nodes[0], ListSelectorNode::Leaf(ListLeafSelector::NearbyListChange { meter: 7, .. })));
    assert!(matches!(union.nodes[1], ListSelectorNode::Leaf(ListLeafSelector::NearbyListSwap { meter: 7, .. })));

    let kopt = MoveSelectorConfig::KOptMoveSelector(KOptMoveSelectorConfig { max_nearby: 4, ..KOptMoveSelectorConfig::default() });
    let flat = ListMoveSelectorBuilder::build_flat(Some(&kopt), &slot, None);
    match &flat.leaves[0] {
        ListLeafSelector::NearbyKOpt { meter, max_nearby, .. } => {
            assert_eq!(meter.0, 9);
            assert_eq!(*max_nearby, 4);
        },
        other => panic!("expected a nearby k-opt leaf, got {other:?}"),
    }
}
