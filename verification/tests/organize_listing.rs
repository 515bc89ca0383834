use sd_core::organize::error::OrganizeError;
use sd_core::organize::listing::{
    check_child_cursor, cursor_key, next_child_cursor, page_children, page_tasks, plan_task_list,
    selection_filter_matches, status_filter_keys, ChildSortKey, OrganizeItemFilter, OrganizeItemSort,
    OrganizeSortDirection, TaskListPlan, TaskPosition,
};
use sd_core::organize::model::OrganizeTaskStatus;
use sd_core::organize::plan::OrganizeTaskItemRecord;

fn row(id: i32, parent: Option<i32>, decision: Option<&str>, op: &str, external: &str) -> OrganizeTaskItemRecord {
    OrganizeTaskItemRecord {
        id,
        uuid: 100 + id as u128,
        parent_id: parent,
        relative_path: format!("r{id}"),
        relative_path_key: format!("r{id}"),
        kind: "file".into(),
        size_bytes: 0,
        tree_start: None,
        tree_end: None,
        unit_count: None,
        aggregate_size_bytes: 0,
        membership_state: "included".into(),
        external_state: external.into(),
        decision_kind: decision.map(str::to_string),
        move_destination: None,
        operation_state: op.into(),
    }
}

fn key(name: &str, modified: i64, size: i64, progress: i64, id: u128) -> ChildSortKey {
    ChildSortKey { name: name.into(), modified_at_100ns: modified, size_bytes: size, progress, item_id: id }
}

fn tree() -> (Vec<OrganizeTaskItemRecord>, Vec<ChildSortKey>) {
    let items = vec![
        row(1, None, None, "none", "present"),
        row(2, Some(1), Some("discard"), "pending", "present"),
        row(3, Some(2), None, "none", "changed"),
        row(4, Some(1), None, "failed", "missing"),
        row(5, Some(1), Some("keep"), "none", "present"),
        row(6, Some(1), None, "none", "present"),
    ];
    let keys = vec![
        key("root", 0, 0, 0, 101),
        key("beta", 30, 5, 2, 102),
        key("inner", 10, 1, 1, 103),
        key("alpha", 20, 9, 1, 104),
        key("gamma", 10, 7, 3, 105),
        key("Zeta", 40, 7, 0, 106),
    ];
    (items, keys)
}

fn rows_of(items: &[OrganizeTaskItemRecord], filter: OrganizeItemFilter) -> Vec<i32> {
    items.iter().filter(|item| selection_filter_matches(item, items, filter)).map(|item| item.id).collect()
}

#[test]
fn filters_read_the_decision_that_applies_and_the_item_state() {
    let (items, _) = tree();
    assert_eq!(rows_of(&items, OrganizeItemFilter::All), vec![1, 2, 3, 4, 5, 6]);
    assert_eq!(rows_of(&items, OrganizeItemFilter::Unmarked), vec![1, 4, 6]);
    assert_eq!(rows_of(&items, OrganizeItemFilter::Discard), vec![2, 3]);
    assert_eq!(rows_of(&items, OrganizeItemFilter::Keep), vec![5]);
    assert_eq!(rows_of(&items, OrganizeItemFilter::Move), Vec::<i32>::new());
    assert_eq!(rows_of(&items, OrganizeItemFilter::Failed), vec![4]);
    assert_eq!(rows_of(&items, OrganizeItemFilter::Changed), vec![3]);
    assert_eq!(rows_of(&items, OrganizeItemFilter::Missing), vec![4]);
}

#[test]
fn children_are_paged_in_sort_order_with_ids_breaking_ties() {
    let (items, keys) = tree();
    let all = OrganizeItemFilter::All;
    let by_name = page_children(&items, &keys, 1, all, OrganizeItemSort::Name, OrganizeSortDirection::Asc, &None, 10);
    assert_eq!(by_name.rows, vec![5, 3, 1, 4]);
    assert_eq!(by_name.matching_child_count, 4);
    assert!(by_name.next.is_none());
    let by_size = page_children(&items, &keys, 1, all, OrganizeItemSort::Size, OrganizeSortDirection::Desc, &None, 10);
    assert_eq!(by_size.rows, vec![3, 5, 4, 1]);
    let by_progress =
        page_children(&items, &keys, 1, all, OrganizeItemSort::Progress, OrganizeSortDirection::Asc, &None, 10);
    assert_eq!(by_progress.rows, vec![5, 3, 1, 4]);
    let discards =
        page_children(&items, &keys, 1, OrganizeItemFilter::Discard, OrganizeItemSort::Name, OrganizeSortDirection::Asc, &None, 10);
    assert_eq!(discards.rows, vec![1]);
    assert_eq!(discards.matching_child_count, 1);
}

#[test]
fn pages_continue_after_the_cursor_and_clamp_their_size() {
    let (items, keys) = tree();
    let all = OrganizeItemFilter::All;
    let first = page_children(&items, &keys, 1, all, OrganizeItemSort::Modified, OrganizeSortDirection::Asc, &None, 2);
    assert_eq!(first.rows, vec![4, 3]);
    let next = first.next.clone().unwrap();
    assert_eq!(next.item_id, 104);
    let second =
        page_children(&items, &keys, 1, all, OrganizeItemSort::Modified, OrganizeSortDirection::Asc, &Some(next), 2);
    assert_eq!(second.rows, vec![1, 5]);
    assert!(second.next.is_none());
    let one = page_children(&items, &keys, 1, all, OrganizeItemSort::Modified, OrganizeSortDirection::Asc, &None, 0);
    assert_eq!(one.rows, vec![4]);
    let many = page_children(&items, &keys, 1, all, OrganizeItemSort::Modified, OrganizeSortDirection::Asc, &None, 5000);
    assert_eq!(many.rows.len(), 4);
}

#[test]
fn child_cursors_belong_to_one_query() {
    let last = key("beta", 30, 5, 2, 102);
    let cursor = next_child_cursor(7, 101, OrganizeItemFilter::All, OrganizeItemSort::Name, OrganizeSortDirection::Asc, &last);
    assert!(check_child_cursor(&cursor, 7, 101, OrganizeItemFilter::All, OrganizeItemSort::Name, OrganizeSortDirection::Asc).is_ok());
    match check_child_cursor(&cursor, 8, 101, OrganizeItemFilter::All, OrganizeItemSort::Name, OrganizeSortDirection::Asc) {
        Err(OrganizeError::InvalidTree(message)) => assert_eq!(message, "child cursor does not match query"),
        other => panic!("unexpected {other:?}"),
    }
    assert!(check_child_cursor(&cursor, 7, 101, OrganizeItemFilter::Keep, OrganizeItemSort::Name, OrganizeSortDirection::Asc).is_err());
    assert!(check_child_cursor(&cursor, 7, 101, OrganizeItemFilter::All, OrganizeItemSort::Size, OrganizeSortDirection::Asc).is_err());
    assert!(check_child_cursor(&cursor, 7, 101, OrganizeItemFilter::All, OrganizeItemSort::Name, OrganizeSortDirection::Desc).is_err());
    let back = cursor_key(&cursor);
    assert_eq!((back.name.as_str(), back.modified_at_100ns, back.size_bytes, back.progress, back.item_id), ("beta", 30, 5, 2, 102));
}

#[test]
fn status_filters_are_sorted_without_repeats() {
    let keys = status_filter_keys(&vec![
        OrganizeTaskStatus::Failed,
        OrganizeTaskStatus::Active,
        OrganizeTaskStatus::Failed,
        OrganizeTaskStatus::Completed,
    ]);
    assert_eq!(keys, vec!["active".to_string(), "completed".to_string(), "failed".to_string()]);
    assert!(status_filter_keys(&Vec::new()).is_empty());
}

#[test]
fn task_listing_checks_the_cursor_filter_and_lists_nothing_for_an_empty_one() {
    match plan_task_list(&Some(vec![OrganizeTaskStatus::Active]), &None) {
        Ok(TaskListPlan::Query { statuses: Some(keys) }) => assert_eq!(keys, vec!["active".to_string()]),
        other => panic!("unexpected {other:?}"),
    }
    assert!(matches!(plan_task_list(&None, &None), Ok(TaskListPlan::Query { statuses: None })));
    assert!(matches!(plan_task_list(&Some(Vec::new()), &None), Ok(TaskListPlan::Nothing)));
    assert!(matches!(plan_task_list(&None, &Some(None)), Ok(TaskListPlan::Query { statuses: None })));
    match plan_task_list(&Some(vec![OrganizeTaskStatus::Active]), &Some(None)) {
        Err(OrganizeError::InvalidTree(message)) => assert_eq!(message, "task cursor filter mismatch"),
        other => panic!("unexpected {other:?}"),
    }
    assert!(plan_task_list(&Some(vec![OrganizeTaskStatus::Active]), &Some(Some(vec!["failed".to_string()]))).is_err());
}

#[test]
fn task_pages_take_rows_before_the_cursor() {
    let at = |secs: i64, nanos: u32, id: u128| TaskPosition { updated_secs: secs, updated_nanos: nanos, task_id: id };
    let rows = vec![at(9, 0, 5), at(9, 0, 3), at(8, 500, 9), at(8, 100, 1), at(7, 0, 2)];
    let (page, next) = page_tasks(&rows, None, 2);
    assert_eq!(page, vec![0, 1]);
    assert_eq!(next, Some(at(9, 0, 3)));
    let (page, next) = page_tasks(&rows, Some(at(9, 0, 3)), 2);
    assert_eq!(page, vec![2, 3]);
    assert_eq!(next, Some(at(8, 100, 1)));
    let (page, next) = page_tasks(&rows, Some(at(8, 100, 1)), 2);
    assert_eq!(page, vec![4]);
    assert_eq!(next, None);
    let (page, _) = page_tasks(&rows, None, 0);
    assert_eq!(page, vec![0]);
}
