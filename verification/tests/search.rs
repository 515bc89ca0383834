use sd_core::search::{inherited_matches, split_links, ClosureRow, TagLink};

fn row(ancestor_id: i32, descendant_id: i32, depth: i32) -> ClosureRow {
    ClosureRow { ancestor_id, descendant_id, depth }
}

#[test]
fn links_split_into_direct_applications_and_overrides() {
    let links = vec![
        TagLink { user_metadata_id: 1, inheritance_source: "direct".into() },
        TagLink { user_metadata_id: 2, inheritance_source: "overridden".into() },
        TagLink { user_metadata_id: 3, inheritance_source: "legacy".into() },
    ];
    assert_eq!(split_links(&links), (vec![1, 3], vec![2]));
}

#[test]
fn descendants_inherit_from_their_nearest_deciding_ancestor() {
    let closure = vec![
        row(1, 1, 0),
        row(1, 5, 1),
        row(1, 6, 2),
        row(2, 6, 1),
        row(2, 2, 0),
        row(1, 2, 1),
        row(1, 7, 1),
        row(2, 7, 1),
    ];
    assert_eq!(inherited_matches(&vec![1], &vec![2], &closure), vec![1, 5, 7]);
}

#[test]
fn a_direct_application_wins_over_an_override_on_the_same_entry() {
    let closure = vec![row(3, 3, 0), row(3, 4, 1)];
    assert_eq!(inherited_matches(&vec![3, 3], &vec![3], &closure), vec![3, 4]);
    assert!(inherited_matches(&Vec::new(), &vec![3], &closure).is_empty());
}
