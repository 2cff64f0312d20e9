//! Rows of the vault's tables and the tree views built from them.
use vstd::prelude::*;

verus! {

/// A credential group; groups form a forest through `parent_id`.
#[derive(Debug, Clone)]
pub struct Group {
    pub id: Option<i64>,
    pub name: String,
    pub parent_id: Option<i64>,
    pub icon: Option<String>,
    pub color: Option<String>,
    pub sort_order: Option<i32>,
    pub created_at: Option<String>,
    pub updated_at: Option<String>,
}

/// A node of the credential group tree.
#[derive(Debug)]
pub struct GroupWithChildren {
    pub id: i64,
    pub name: String,
    pub parent_id: Option<i64>,
    pub icon: Option<String>,
    pub color: Option<String>,
    pub sort_order: Option<i32>,
    pub children: Vec<GroupWithChildren>,
}

/// A secure-note group; a forest of its own, apart from credential groups.
#[derive(Debug, Clone)]
pub struct SecureRecordGroup {
    pub id: Option<i64>,
    pub name: String,
    pub parent_id: Option<i64>,
    pub icon: Option<String>,
    pub color: Option<String>,
    pub sort_order: Option<i32>,
    pub created_at: Option<String>,
    pub updated_at: Option<String>,
}

/// A node of the secure-note group tree.
#[derive(Debug)]
pub struct SecureRecordGroupWithChildren {
    pub id: i64,
    pub name: String,
    pub parent_id: Option<i64>,
    pub icon: Option<String>,
    pub color: Option<String>,
    pub sort_order: Option<i32>,
    pub children: Vec<SecureRecordGroupWithChildren>,
}

/// A secure note; `content` is the sensitive body, stored encrypted.
#[derive(Debug, Clone)]
pub struct SecureRecord {
    pub id: Option<i64>,
    pub title: String,
    pub content: Option<String>,
    pub group_id: Option<i64>,
    pub pinned: Option<bool>,
    pub archived: Option<bool>,
    pub created_at: Option<String>,
    pub updated_at: Option<String>,
}

/// A credential; `password` is the sensitive secret, stored encrypted.
#[derive(Debug, Clone)]
pub struct Password {
    pub id: Option<i64>,
    pub title: String,
    pub username: Option<String>,
    pub password: Option<String>,
    pub url: Option<String>,
    pub notes: Option<String>,
    pub group_id: Option<i64>,
    pub created_at: Option<String>,
    pub updated_at: Option<String>,
    pub last_used_at: Option<String>,
    pub use_count: Option<i32>,
    pub favorite: Option<bool>,
    pub tags: Option<String>,
}

/// A former secret of a credential.
#[derive(Debug, Clone)]
pub struct PasswordHistory {
    pub id: Option<i64>,
    pub password_id: i64,
    pub old_password: String,
    pub changed_at: String,
    pub change_reason: Option<String>,
}

/// A credential found by a search, with the name of its group.
#[derive(Debug, Clone)]
pub struct PasswordSearchResult {
    pub id: i64,
    pub title: String,
    pub username: Option<String>,
    pub url: Option<String>,
    pub group_id: Option<i64>,
    pub group_name: Option<String>,
}

/// A user setting, unique by `key`.
#[derive(Debug, Clone)]
pub struct UserSetting {
    pub id: Option<i64>,
    pub key: String,
    pub value: String,
    pub setting_type: Option<String>,
    pub category: Option<String>,
    pub description: Option<String>,
    pub created_at: Option<String>,
    pub updated_at: Option<String>,
}

/// A category of user settings, with the keys it holds.
#[derive(Debug, Clone)]
pub struct UserSettingsCategory {
    pub category: String,
    pub description: String,
    pub settings: Vec<String>,
}

/// Copies an optional text value.
pub fn copy_text(o: &Option<String>) -> (r: Option<String>)
    ensures
        r == *o,
{
    match o {
        Some(s) => Some(s.clone()),
        None => None,
    }
}

} // verus!
