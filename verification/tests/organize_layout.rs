use sd_core::organize::error::OrganizeError;
use sd_core::organize::layout::{layout_included_tree, parked_interval, TreeSlot};
use sd_core::organize::plan::OrganizeTaskItemRecord;

fn item(id: i32, parent: Option<i32>, key: &str, kind: &str, size: i64, tree_end: Option<i64>) -> OrganizeTaskItemRecord {
    OrganizeTaskItemRecord {
        id,
        uuid: id as u128,
        parent_id: parent,
        relative_path: key.to_string(),
        relative_path_key: key.to_string(),
        kind: kind.into(),
        size_bytes: size,
        tree_start: None,
        tree_end,
        unit_count: None,
        aggregate_size_bytes: 0,
        membership_state: "included".into(),
        external_state: "present".into(),
        decision_kind: None,
        move_destination: None,
        operation_state: "none".into(),
    }
}

fn invalid_tree(items: &Vec<OrganizeTaskItemRecord>) -> String {
    match layout_included_tree(items) {
        Err(OrganizeError::InvalidTree(message)) => message,
        other => panic!("expected an invalid tree, got {other:?}"),
    }
}

#[test]
fn layout_numbers_depth_first_with_children_in_key_order() {
    let items = vec![
        item(1, None, "", "directory", 0, Some(9)),
        item(2, Some(1), "b", "file", 10, Some(3)),
        item(3, Some(1), "a", "directory", 0, Some(12)),
        item(4, Some(3), "a\\x", "file", 5, None),
        item(5, Some(3), "a\\w", "file", 7, Some(2)),
    ];
    let layout = layout_included_tree(&items).unwrap();
    assert_eq!(
        layout.slots,
        vec![
            TreeSlot { id: 1, tree_start: 0, tree_end: 5, unit_count: 3, aggregate_size_bytes: 22 },
            TreeSlot { id: 2, tree_start: 4, tree_end: 5, unit_count: 1, aggregate_size_bytes: 10 },
            TreeSlot { id: 3, tree_start: 1, tree_end: 4, unit_count: 2, aggregate_size_bytes: 12 },
            TreeSlot { id: 4, tree_start: 3, tree_end: 4, unit_count: 1, aggregate_size_bytes: 5 },
            TreeSlot { id: 5, tree_start: 2, tree_end: 3, unit_count: 1, aggregate_size_bytes: 7 },
        ]
    );
    assert_eq!(layout.total_entries, 5);
    assert_eq!(layout.total_units, 3);
    assert_eq!(layout.total_bytes, 22);
    assert_eq!(layout.parked_start, 13);
}

#[test]
fn layout_breaks_key_ties_by_row_order_and_counts_empty_directories_as_units() {
    let items = vec![
        item(7, Some(9), "same", "directory", 0, None),
        item(9, None, "", "directory", 0, None),
        item(8, Some(9), "same", "file", 4, None),
    ];
    let layout = layout_included_tree(&items).unwrap();
    assert_eq!(layout.slots[1], TreeSlot { id: 9, tree_start: 0, tree_end: 3, unit_count: 2, aggregate_size_bytes: 4 });
    assert_eq!(layout.slots[0], TreeSlot { id: 7, tree_start: 1, tree_end: 2, unit_count: 1, aggregate_size_bytes: 0 });
    assert_eq!(layout.slots[2], TreeSlot { id: 8, tree_start: 2, tree_end: 3, unit_count: 1, aggregate_size_bytes: 4 });
    assert_eq!(layout.total_units, 2);
    assert_eq!(layout.total_bytes, 4);
    assert_eq!(layout.parked_start, 1);
}

#[test]
fn layout_of_no_rows_is_empty() {
    let layout = layout_included_tree(&Vec::new()).unwrap();
    assert!(layout.slots.is_empty());
    assert_eq!((layout.total_entries, layout.total_units, layout.total_bytes, layout.parked_start), (0, 0, 0, 1));
}

#[test]
fn layout_rejects_rows_that_do_not_form_one_tree() {
    let missing = vec![item(1, None, "", "directory", 0, None), item(2, Some(5), "x", "file", 1, None)];
    assert_eq!(invalid_tree(&missing), "included item refers to a missing parent");
    let two_roots = vec![item(1, None, "", "directory", 0, None), item(2, None, "x", "file", 1, None)];
    assert_eq!(invalid_tree(&two_roots), "included tree must contain exactly one root");
    let file_parent =
        vec![item(1, None, "", "directory", 0, None), item(2, Some(1), "f", "file", 1, None), item(3, Some(2), "f\\g", "file", 1, None)];
    assert_eq!(invalid_tree(&file_parent), "only directories may contain children");
    let cycle = vec![
        item(1, None, "", "directory", 0, None),
        item(2, Some(3), "a", "directory", 0, None),
        item(3, Some(2), "b", "directory", 0, None),
    ];
    assert_eq!(invalid_tree(&cycle), "included tree contains a cycle or unreachable item");
}

#[test]
fn parked_intervals_follow_the_stored_ones_and_saturate() {
    assert_eq!(parked_interval(13, 0), (13, 14));
    assert_eq!(parked_interval(13, 4), (17, 18));
    assert_eq!(parked_interval(i64::MAX - 1, 0), (i64::MAX - 1, i64::MAX));
    assert_eq!(parked_interval(i64::MAX - 1, 5), (i64::MAX, i64::MAX));
    assert_eq!(parked_interval(-3, 2), (-1, 0));
}
