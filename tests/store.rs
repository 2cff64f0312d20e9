use vault_backup::database::DatabaseService;
use vault_backup::models::{Group, PasswordHistory, UserSetting};
use vault_backup::store::VaultStore;

fn row(id: Option<i64>, name: &str) -> Group {
    Group {
        id,
        name: name.to_string(),
        parent_id: None,
        icon: None,
        color: None,
        sort_order: None,
        created_at: None,
        updated_at: None,
    }
}

fn setting_row(id: i64, key: &str) -> UserSetting {
    UserSetting {
        id: Some(id),
        key: key.to_string(),
        value: String::new(),
        setting_type: None,
        category: None,
        description: None,
        created_at: None,
        updated_at: None,
    }
}

fn history_row(id: Option<i64>) -> PasswordHistory {
    PasswordHistory { id, password_id: 1, old_password: "x".to_string(), changed_at: "t".to_string(), change_reason: None }
}

#[test]
fn tables_in_order_are_accepted() {
    let s = VaultStore::from_tables(
        vec![row(Some(3), "a"), row(Some(8), "b")],
        Vec::new(),
        Vec::new(),
        Vec::new(),
        Vec::new(),
        Vec::new(),
    )
    .unwrap();
    assert_eq!(s.next_group_id, 9);
    assert_eq!(s.next_password_id, 1);
    assert_eq!(s.groups.len(), 2);
}

#[test]
fn tables_out_of_order_are_refused() {
    let out_of_order = vec![row(Some(8), "a"), row(Some(3), "b")];
    assert!(VaultStore::from_tables(out_of_order, Vec::new(), Vec::new(), Vec::new(), Vec::new(), Vec::new()).is_none());
    let missing = vec![row(None, "a")];
    assert!(VaultStore::from_tables(missing, Vec::new(), Vec::new(), Vec::new(), Vec::new(), Vec::new()).is_none());
    let full = vec![row(Some(i64::MAX), "a")];
    assert!(VaultStore::from_tables(full, Vec::new(), Vec::new(), Vec::new(), Vec::new(), Vec::new()).is_none());
    let settings = vec![setting_row(1, "theme"), setting_row(2, "theme")];
    assert!(VaultStore::from_tables(Vec::new(), Vec::new(), Vec::new(), Vec::new(), settings, Vec::new()).is_none());
    let history = vec![history_row(Some(4)), history_row(Some(2))];
    assert!(VaultStore::from_tables(Vec::new(), Vec::new(), Vec::new(), Vec::new(), Vec::new(), history).is_none());
    let history = vec![PasswordHistory {
        id: None,
        password_id: 1,
        old_password: "x".to_string(),
        changed_at: "t".to_string(),
        change_reason: None,
    }];
    assert!(VaultStore::from_tables(Vec::new(), Vec::new(), Vec::new(), Vec::new(), Vec::new(), history).is_none());
}

#[test]
fn database_handle_keeps_its_path() {
    let db = DatabaseService::new("/tmp/vault.db");
    assert_eq!(db.get_path(), "/tmp/vault.db");
}
