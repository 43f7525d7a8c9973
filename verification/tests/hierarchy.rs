use codegraide::hierarchy::{build_dependency_hierarchy, DependencyHierarchyMember};

#[test]
fn groups_members_by_resolved_segments() {
    let groups = build_dependency_hierarchy(&vec![
        DependencyHierarchyMember {
            node_id: "shop-init".to_owned(),
            group_segments: vec!["shop".to_owned()],
        },
        DependencyHierarchyMember {
            node_id: "api".to_owned(),
            group_segments: vec!["shop".to_owned()],
        },
        DependencyHierarchyMember {
            node_id: "admin-init".to_owned(),
            group_segments: vec!["shop".to_owned(), "admin".to_owned()],
        },
        DependencyHierarchyMember {
            node_id: "users".to_owned(),
            group_segments: vec!["shop".to_owned(), "admin".to_owned()],
        },
    ]);

    assert_eq!(groups.len(), 2);
    assert_eq!(groups[0].qualified_name, "shop");
    assert_eq!(groups[0].direct_modules, ["shop-init", "api"]);
    assert_eq!(groups[0].descendants.len(), 4);
    assert_eq!(groups[1].qualified_name, "shop.admin");
    assert_eq!(groups[1].parent.as_deref(), Some("g0000"));
    assert_eq!(groups[1].direct_modules, ["admin-init", "users"]);
}

#[test]
fn members_without_segments_form_no_group() {
    let groups = build_dependency_hierarchy(&vec![DependencyHierarchyMember {
        node_id: "root".to_owned(),
        group_segments: Vec::new(),
    }]);
    assert!(groups.is_empty());
}
