use sd_core::organize::error::OrganizeError;
use sd_core::organize::model::{
    DecisionResolution, DecisionTreeState, DecisionValue, ExplicitDecisionRoot, OrganizeItemKind,
    OrganizeOperationState, TreeItemComputed, TreeItemDraft,
};
use sd_core::organize::tree::{
    compact_operation_roots, compute_tree, normalize_selection, ranges_overlap, reduce_progress, resolve_set_decision,
};
use std::collections::HashMap;

fn item(id: u128, parent: Option<u128>, kind: OrganizeItemKind, size: u64) -> TreeItemDraft {
    TreeItemDraft { item_id: id, parent_item_id: parent, kind, size_bytes: size }
}

fn root_node(nodes: &[TreeItemComputed], id: u128) -> TreeItemComputed {
    *nodes.iter().find(|node| node.item_id == id).unwrap()
}

fn node(id: u128, start: i64, end: i64, units: u64, bytes: u64) -> TreeItemComputed {
    TreeItemComputed { item_id: id, tree_start: start, tree_end: end, unit_count: units, aggregate_size_bytes: bytes }
}

fn root(id: u128, start: i64, end: i64, units: u64, bytes: u64, decision: DecisionValue, state: OrganizeOperationState) -> ExplicitDecisionRoot {
    ExplicitDecisionRoot {
        item_id: id,
        tree_start: start,
        tree_end: end,
        unit_count: units,
        aggregate_size_bytes: bytes,
        decision,
        operation_state: state,
    }
}

#[test]
fn units_do_not_double_count_non_empty_directories() {
    let tree = compute_tree(&[
        item(1, None, OrganizeItemKind::Directory, 0),
        item(2, Some(1), OrganizeItemKind::File, 10),
        item(3, Some(1), OrganizeItemKind::Directory, 0),
        item(4, Some(3), OrganizeItemKind::File, 20),
        item(5, Some(1), OrganizeItemKind::Directory, 0),
    ])
    .unwrap();
    assert_eq!(root_node(&tree, 1).unit_count, 3);
    assert_eq!(root_node(&tree, 3).unit_count, 1);
    assert_eq!(root_node(&tree, 5).unit_count, 1);
}

#[test]
fn compute_tree_gives_depth_first_intervals_and_sizes() {
    let tree = compute_tree(&[
        item(1, None, OrganizeItemKind::Directory, 0),
        item(2, Some(1), OrganizeItemKind::File, 10),
        item(3, Some(1), OrganizeItemKind::Directory, 0),
        item(4, Some(3), OrganizeItemKind::File, 20),
    ])
    .unwrap();
    assert_eq!(tree[0], node(1, 0, 4, 2, 30));
    assert_eq!(tree[1], node(2, 1, 2, 1, 10));
    assert_eq!(tree[2], node(3, 2, 4, 1, 20));
    assert_eq!(tree[3], node(4, 3, 4, 1, 20));
}

#[test]
fn selection_normalization_keeps_only_outermost_intervals() {
    let outer = 1u128;
    let inner = 2u128;
    let selected =
        normalize_selection(&[inner, outer, inner], &HashMap::from([(outer, (0, 4)), (inner, (1, 2))])).unwrap();
    assert_eq!(selected, vec![outer]);
}

#[test]
fn normalized_selection_is_ordered_by_start_and_rejects_unknown_ids() {
    let selected = normalize_selection(&[3, 2], &HashMap::from([(2, (1, 2)), (3, (2, 4))])).unwrap();
    assert_eq!(selected, vec![2, 3]);
    assert!(matches!(normalize_selection(&[9], &HashMap::from([(2, (1, 2))])), Err(OrganizeError::InvalidTree(_))));
}

#[test]
fn compute_tree_rejects_multiple_roots() {
    let result = compute_tree(&[item(1, None, OrganizeItemKind::Directory, 0), item(2, None, OrganizeItemKind::Directory, 0)]);
    assert!(matches!(result, Err(OrganizeError::InvalidTree(_))));
}

#[test]
fn compute_tree_rejects_children_of_files_and_duplicates() {
    let files = compute_tree(&[item(1, None, OrganizeItemKind::File, 0), item(2, Some(1), OrganizeItemKind::File, 1)]);
    assert!(matches!(files, Err(OrganizeError::InvalidTree(m)) if m == "only directories may contain children"));
    let dup = compute_tree(&[item(1, None, OrganizeItemKind::Directory, 0), item(1, Some(1), OrganizeItemKind::File, 1)]);
    assert!(matches!(dup, Err(OrganizeError::InvalidTree(_))));
}

#[test]
fn selected_root_is_replaced_instead_of_treated_as_descendant_conflict() {
    let id = 1u128;
    let state = DecisionTreeState {
        nodes: vec![node(id, 0, 1, 1, 10)],
        decisions: vec![root(id, 0, 1, 1, 10, DecisionValue::discard(), OrganizeOperationState::NoOperation)],
    };
    let result = resolve_set_decision(&state, &[id], Some(DecisionValue::keep()), false, false).unwrap();
    assert!(matches!(
        result,
        DecisionResolution::Apply(ref patch)
            if patch.delete_roots == vec![id]
                && patch.upsert_roots.len() == 1
                && patch.upsert_roots[0].decision == DecisionValue::keep()
    ));
}

#[test]
fn inherited_noop_does_not_discard_the_rest_of_a_batch() {
    let ancestor = 1u128;
    let inherited = 2u128;
    let sibling = 3u128;
    let state = DecisionTreeState {
        nodes: vec![node(ancestor, 0, 2, 1, 10), node(inherited, 1, 2, 1, 10), node(sibling, 2, 3, 1, 10)],
        decisions: vec![root(ancestor, 0, 2, 1, 10, DecisionValue::keep(), OrganizeOperationState::NoOperation)],
    };
    let result = resolve_set_decision(&state, &[inherited, sibling], Some(DecisionValue::keep()), false, false).unwrap();
    assert!(matches!(
        result,
        DecisionResolution::Apply(ref patch)
            if patch.upsert_roots.len() == 1 && patch.upsert_roots[0].item_id == sibling
    ));
}

#[test]
fn inherited_decision_alone_is_a_noop() {
    let state = DecisionTreeState {
        nodes: vec![node(1, 0, 2, 1, 10), node(2, 1, 2, 1, 10)],
        decisions: vec![root(1, 0, 2, 1, 10, DecisionValue::keep(), OrganizeOperationState::NoOperation)],
    };
    let result = resolve_set_decision(&state, &[2], Some(DecisionValue::keep()), false, false).unwrap();
    assert!(matches!(result, DecisionResolution::InheritedNoOp { ancestor_item_id: 1 }));
}

#[test]
fn all_discard_descendants_collapse_but_mixed_descendants_confirm() {
    let parent = 1u128;
    let child = 2u128;
    let other = 3u128;
    let nodes = vec![node(parent, 0, 5, 5, 500), node(child, 1, 2, 2, 200), node(other, 2, 5, 3, 300)];
    let state = DecisionTreeState {
        nodes: nodes.clone(),
        decisions: vec![
            root(child, 1, 2, 2, 200, DecisionValue::discard(), OrganizeOperationState::NoOperation),
            root(other, 2, 5, 3, 300, DecisionValue::discard(), OrganizeOperationState::NoOperation),
        ],
    };
    let collapse = resolve_set_decision(&state, &[parent], Some(DecisionValue::discard()), false, false).unwrap();
    assert!(
        matches!(collapse, DecisionResolution::Apply(ref patch) if patch.delete_roots.len() == 2 && patch.upsert_roots.len() == 1)
    );

    let mixed_state = DecisionTreeState {
        nodes,
        decisions: vec![
            root(child, 1, 2, 2, 200, DecisionValue::keep(), OrganizeOperationState::NoOperation),
            root(other, 2, 5, 3, 300, DecisionValue::move_to(r"c:\archive"), OrganizeOperationState::NoOperation),
        ],
    };
    let mixed = resolve_set_decision(&mixed_state, &[parent], Some(DecisionValue::discard()), false, false).unwrap();
    assert!(matches!(
        mixed,
        DecisionResolution::ConfirmationRequired { keep_units: 2, move_units: 3, affected_bytes: 500, .. }
    ));
}

#[test]
fn ancestor_split_leaves_siblings_unmarked_and_applied_is_immutable() {
    let parent = 1u128;
    let child = 2u128;
    let sibling = 3u128;
    let nodes = vec![node(parent, 0, 3, 2, 20), node(child, 1, 2, 1, 10), node(sibling, 2, 3, 1, 10)];
    let state = DecisionTreeState {
        nodes: nodes.clone(),
        decisions: vec![root(parent, 0, 3, 2, 20, DecisionValue::keep(), OrganizeOperationState::NoOperation)],
    };
    let split = resolve_set_decision(&state, &[child], Some(DecisionValue::discard()), false, true).unwrap();
    assert!(
        matches!(split, DecisionResolution::Apply(ref patch) if patch.delete_roots == vec![parent] && patch.upsert_roots[0].item_id == child)
    );

    let applied = DecisionTreeState {
        nodes,
        decisions: vec![root(child, 1, 2, 1, 10, DecisionValue::discard(), OrganizeOperationState::Applied)],
    };
    assert!(matches!(
        resolve_set_decision(&applied, &[child], Some(DecisionValue::keep()), true, true),
        Err(OrganizeError::AppliedDecisionImmutable(_))
    ));
}

#[test]
fn progress_counts_sparse_roots_once_and_orders_moves_first() {
    let nodes = vec![node(1, 0, 4, 3, 30), node(2, 1, 2, 1, 10), node(3, 2, 4, 2, 20)];
    let decisions = vec![
        root(3, 2, 4, 2, 20, DecisionValue::discard(), OrganizeOperationState::NoOperation),
        root(2, 1, 2, 1, 10, DecisionValue::move_to(r"c:\archive"), OrganizeOperationState::NoOperation),
    ];
    let progress = reduce_progress(&nodes, &decisions).unwrap();
    assert_eq!(progress.total_units, 3);
    assert_eq!(progress.processed_units, 3);
    assert_eq!(progress.move_units, 1);
    assert_eq!(progress.discard_units, 2);
    let compacted = compact_operation_roots(&decisions);
    assert!(matches!(compacted[0].decision, DecisionValue::Move { .. }));
}

#[test]
fn progress_splits_total_into_processed_and_unmarked() {
    let nodes = vec![node(1, 0, 4, 3, 30), node(2, 1, 2, 1, 10), node(3, 2, 4, 2, 20)];
    let decisions = vec![root(2, 1, 2, 1, 10, DecisionValue::keep(), OrganizeOperationState::NoOperation)];
    let progress = reduce_progress(&nodes, &decisions).unwrap();
    assert_eq!(progress.processed_units + progress.unmarked_units, progress.total_units);
    assert_eq!(progress.keep_units, 1);
    assert_eq!(progress.unmarked_units, 2);
    let too_many = vec![root(1, 0, 4, 9, 10, DecisionValue::keep(), OrganizeOperationState::NoOperation)];
    assert!(matches!(reduce_progress(&nodes, &too_many), Err(OrganizeError::InvalidTree(m)) if m == "decision roots exceed tree units"));
}

#[test]
fn compacted_roots_never_nest() {
    let decisions = vec![
        root(1, 0, 4, 3, 30, DecisionValue::discard(), OrganizeOperationState::NoOperation),
        root(2, 1, 2, 1, 10, DecisionValue::keep(), OrganizeOperationState::NoOperation),
        root(3, 5, 6, 1, 10, DecisionValue::keep(), OrganizeOperationState::NoOperation),
    ];
    let compacted = compact_operation_roots(&decisions);
    let ids: Vec<u128> = compacted.iter().map(|r| r.item_id).collect();
    assert_eq!(ids, vec![3, 1]);
}

#[test]
fn intervals_overlap_in_either_order() {
    assert!(ranges_overlap(0, 4, 3, 5));
    assert!(ranges_overlap(3, 5, 0, 4));
    assert!(!ranges_overlap(0, 2, 2, 3));
}
