use vault_backup::models::{Group, SecureRecordGroup};
use vault_backup::tree::{build_group_tree, build_note_group_tree};

fn g(id: i64, name: &str, parent: Option<i64>) -> Group {
    Group {
        id: Some(id),
        name: name.to_string(),
        parent_id: parent,
        icon: None,
        color: Some("red".to_string()),
        sort_order: Some(0),
        created_at: None,
        updated_at: None,
    }
}

#[test]
fn tree_nests_children_in_table_order() {
    let groups = vec![g(1, "Work", None), g(2, "Email", Some(1)), g(3, "Home", None), g(4, "Inbox", Some(2)), g(5, "Chat", Some(1))];
    let tree = build_group_tree(groups, None);
    assert_eq!(tree.len(), 2);
    assert_eq!(tree[0].name, "Work");
    assert_eq!(tree[1].name, "Home");
    assert_eq!(tree[0].children.len(), 2);
    assert_eq!(tree[0].children[0].name, "Email");
    assert_eq!(tree[0].children[1].name, "Chat");
    assert_eq!(tree[0].children[0].children[0].name, "Inbox");
    assert_eq!(tree[0].children[0].children[0].parent_id, Some(2));
    assert_eq!(tree[0].color, Some("red".to_string()));
    assert!(tree[1].children.is_empty());
}

#[test]
fn subtree_from_a_given_parent() {
    let groups = vec![g(1, "Work", None), g(2, "Email", Some(1)), g(3, "Inbox", Some(2))];
    let tree = build_group_tree(groups, Some(1));
    assert_eq!(tree.len(), 1);
    assert_eq!(tree[0].id, 2);
    assert_eq!(tree[0].children[0].id, 3);
}

#[test]
fn cycle_is_cut_off() {
    let groups = vec![g(1, "A", Some(2)), g(2, "B", Some(1))];
    let tree = build_group_tree(groups, Some(1));
    assert_eq!(tree.len(), 1);
    assert_eq!(tree[0].name, "B");
}

#[test]
fn note_group_tree() {
    let groups = vec![
        SecureRecordGroup {
            id: Some(7),
            name: "Journal".to_string(),
            parent_id: None,
            icon: None,
            color: None,
            sort_order: None,
            created_at: None,
            updated_at: None,
        },
        SecureRecordGroup {
            id: None,
            name: "Loose".to_string(),
            parent_id: Some(7),
            icon: None,
            color: None,
            sort_order: None,
            created_at: None,
            updated_at: None,
        },
    ];
    let tree = build_note_group_tree(groups, None);
    assert_eq!(tree.len(), 1);
    assert_eq!(tree[0].children.len(), 1);
    assert_eq!(tree[0].children[0].id, 0);
}
