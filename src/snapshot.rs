//! The snapshot document: a versioned, plaintext copy of the whole vault,
//! and the builder that makes one from a store.
use vstd::prelude::*;
use crate::encryption::{open_spec, EncryptionService};
use crate::models::{copy_text, Group, Password, PasswordHistory, SecureRecord, SecureRecordGroup, UserSetting};
use crate::store::VaultStore;

verus! {

/// Version tag written into every snapshot.
pub const SNAPSHOT_VERSION: &'static str = "1.0";

/// A group of either forest, as archived.
#[derive(Debug, Clone)]
pub struct BackupGroup {
    pub id: Option<i64>,
    pub name: String,
    pub parent_id: Option<i64>,
    pub color: Option<String>,
    pub sort: Option<i32>,
    pub created_at: Option<String>,
    pub updated_at: Option<String>,
}

/// A credential as archived, its secret in plaintext.
#[derive(Debug, Clone)]
pub struct BackupPassword {
    pub id: Option<i64>,
    pub title: String,
    pub username: Option<String>,
    pub password: Option<String>,
    pub url: Option<String>,
    pub notes: Option<String>,
    pub group_id: Option<i64>,
    pub created_at: Option<String>,
    pub updated_at: Option<String>,
}

/// A secure note as archived, its body in plaintext.
#[derive(Debug, Clone)]
pub struct BackupNote {
    pub id: Option<i64>,
    pub title: String,
    pub content: Option<String>,
    pub group_id: Option<i64>,
    pub pinned: bool,
    pub archived: bool,
    pub created_at: Option<String>,
    pub updated_at: Option<String>,
}

/// A user setting as archived.
#[derive(Debug, Clone)]
pub struct BackupSetting {
    pub id: Option<i64>,
    pub key: String,
    pub value: String,
    pub setting_type: Option<String>,
    pub category: Option<String>,
    pub description: Option<String>,
    pub created_at: Option<String>,
    pub updated_at: Option<String>,
}

/// A former secret as archived, in plaintext.
#[derive(Debug, Clone)]
pub struct BackupHistory {
    pub id: Option<i64>,
    pub password_id: i64,
    pub old_password: String,
    pub changed_at: Option<String>,
    pub change_reason: Option<String>,
}

/// The whole vault in plaintext, one list per entity kind.
#[derive(Debug, Clone)]
pub struct Snapshot {
    pub version: String,
    pub exported_at: String,
    pub groups: Vec<BackupGroup>,
    pub passwords: Vec<BackupPassword>,
    pub note_groups: Vec<BackupGroup>,
    pub notes: Vec<BackupNote>,
    pub user_settings: Vec<BackupSetting>,
    pub password_history: Vec<BackupHistory>,
}

/// The text of an optional value.
pub open spec fn opt_view(o: Option<String>) -> Option<Seq<char>> {
    match o {
        Some(s) => Some(s@),
        None => None,
    }
}

/// What export shows of a stored sensitive value: its plaintext where it
/// decrypts, else the stored text unchanged.
pub open spec fn revealed(key: Seq<u8>, stored: Option<Seq<char>>) -> Option<Seq<char>> {
    match stored {
        Some(t) => if t.len() > 0 {
            match open_spec(key, t) {
                Ok(p) => Some(p),
                Err(_) => Some(t),
            }
        } else {
            Some(t)
        },
        None => None,
    }
}

/// Decrypts a stored sensitive value; a value that does not decrypt is taken
/// to be legacy plaintext and kept as it is.
pub fn decrypt_field(encryption: &EncryptionService, cipher: &Option<String>) -> (r: Option<String>)
    ensures
        opt_view(r) == revealed(encryption@, opt_view(*cipher)),
{
    match cipher {
        Some(text) => {
            if !text.as_str().is_empty() {
                match encryption.decrypt(text.as_str()) {
                    Ok(plain) => Some(plain),
                    Err(_) => Some(text.clone()),
                }
            } else {
                Some(text.clone())
            }
        },
        None => None,
    }
}

/// Whether `stored` is how plaintext `plain` is kept under `key`: nothing
/// for nothing, empty text for empty text, and otherwise a token, longer
/// than the text, that decrypts to it.
pub open spec fn sealed_as(key: Seq<u8>, plain: Option<Seq<char>>, stored: Option<Seq<char>>) -> bool {
    match plain {
        None => stored is None,
        Some(t) => match stored {
            None => false,
            Some(c) => if t.len() == 0 {
                c.len() == 0
            } else {
                open_spec(key, c) == Ok::<Seq<char>, crate::encryption::CipherError>(t) && c.len() > t.len()
            },
        },
    }
}

/// A value sealed as `plain` reveals `plain` again.
pub proof fn lemma_sealed_reveals(key: Seq<u8>, plain: Option<Seq<char>>, stored: Option<Seq<char>>)
    requires
        sealed_as(key, plain, stored),
    ensures
        revealed(key, stored) == plain,
{
    if let Some(t) = plain {
        if t.len() == 0 {
            assert(stored->0 =~= t);
        }
    }
}

/// Encrypts a plaintext value for storage: non-empty text becomes a token
/// that decrypts to it, so plaintext is never stored.
pub fn encrypt_field(encryption: &EncryptionService, plain: &Option<String>) -> (r: Option<String>)
    ensures
        sealed_as(encryption@, opt_view(*plain), opt_view(r)),
        revealed(encryption@, opt_view(r)) == opt_view(*plain),
{
    match plain {
        Some(text) => {
            let cipher = encryption.encrypt(text.as_str()).unwrap();
            proof {
                if text@.len() == 0 {
                    assert(cipher@ =~= text@);
                }
                lemma_sealed_reveals(encryption@, opt_view(*plain), Some(cipher@));
            }
            Some(cipher)
        },
        None => None,
    }
}

/// `b` is the archived form of credential group `g`.
pub open spec fn group_archived(g: Group, b: BackupGroup) -> bool {
    &&& b.id == g.id
    &&& b.name == g.name
    &&& b.parent_id == g.parent_id
    &&& b.color == g.color
    &&& b.sort == g.sort_order
    &&& b.created_at == g.created_at
    &&& b.updated_at == g.updated_at
}

/// `b` is the archived form of note group `g`.
pub open spec fn note_group_archived(g: SecureRecordGroup, b: BackupGroup) -> bool {
    &&& b.id == g.id
    &&& b.name == g.name
    &&& b.parent_id == g.parent_id
    &&& b.color == g.color
    &&& b.sort == g.sort_order
    &&& b.created_at == g.created_at
    &&& b.updated_at == g.updated_at
}

/// `b` is the archived form of credential `p`, its secret revealed under `key`.
pub open spec fn password_archived(key: Seq<u8>, p: Password, b: BackupPassword) -> bool {
    &&& b.id == p.id
    &&& b.title == p.title
    &&& b.username == p.username
    &&& opt_view(b.password) == revealed(key, opt_view(p.password))
    &&& b.url == p.url
    &&& b.notes == p.notes
    &&& b.group_id == p.group_id
    &&& b.created_at == p.created_at
    &&& b.updated_at == p.updated_at
}

/// A missing flag reads as `false`.
pub open spec fn flag(o: Option<bool>) -> bool {
    match o {
        Some(x) => x,
        None => false,
    }
}

/// `b` is the archived form of note `n`, its body revealed under `key`.
pub open spec fn note_archived(key: Seq<u8>, n: SecureRecord, b: BackupNote) -> bool {
    &&& b.id == n.id
    &&& b.title == n.title
    &&& opt_view(b.content) == revealed(key, opt_view(n.content))
    &&& b.group_id == n.group_id
    &&& b.pinned == flag(n.pinned)
    &&& b.archived == flag(n.archived)
    &&& b.created_at == n.created_at
    &&& b.updated_at == n.updated_at
}

/// `b` is the archived form of setting `s`.
pub open spec fn setting_archived(s: UserSetting, b: BackupSetting) -> bool {
    &&& b.id == s.id
    &&& b.key == s.key
    &&& b.value == s.value
    &&& b.setting_type == s.setting_type
    &&& b.category == s.category
    &&& b.description == s.description
    &&& b.created_at == s.created_at
    &&& b.updated_at == s.updated_at
}

/// `b` is the archived form of history record `h`, its secret revealed.
pub open spec fn history_archived(key: Seq<u8>, h: PasswordHistory, b: BackupHistory) -> bool {
    &&& b.id == h.id
    &&& b.password_id == h.password_id
    &&& Some(b.old_password@) == revealed(key, Some(h.old_password@))
    &&& b.changed_at == Some(h.changed_at)
    &&& b.change_reason == h.change_reason
}

/// Whether `snap` is the snapshot of `store` under `key`, stamped `exported_at`.
pub open spec fn snapshot_of(key: Seq<u8>, store: VaultStore, exported_at: Seq<char>, snap: Snapshot) -> bool {
    &&& snap.version@ == SNAPSHOT_VERSION@
    &&& snap.exported_at@ == exported_at
    &&& snap.groups@.len() == store.groups@.len()
    &&& forall|i: int| 0 <= i < snap.groups@.len() ==> group_archived(store.groups@[i], #[trigger] snap.groups@[i])
    &&& snap.passwords@.len() == store.passwords@.len()
    &&& forall|i: int| 0 <= i < snap.passwords@.len()
        ==> password_archived(key, store.passwords@[i], #[trigger] snap.passwords@[i])
    &&& snap.note_groups@.len() == store.note_groups@.len()
    &&& forall|i: int| 0 <= i < snap.note_groups@.len()
        ==> note_group_archived(store.note_groups@[i], #[trigger] snap.note_groups@[i])
    &&& snap.notes@.len() == store.notes@.len()
    &&& forall|i: int| 0 <= i < snap.notes@.len() ==> note_archived(key, store.notes@[i], #[trigger] snap.notes@[i])
    &&& snap.user_settings@.len() == store.settings@.len()
    &&& forall|i: int| 0 <= i < snap.user_settings@.len()
        ==> setting_archived(store.settings@[i], #[trigger] snap.user_settings@[i])
    &&& snap.password_history@.len() == store.history@.len()
    &&& forall|i: int| 0 <= i < snap.password_history@.len()
        ==> history_archived(key, store.history@[i], #[trigger] snap.password_history@[i])
}

fn archive_groups(rows: &Vec<Group>) -> (r: Vec<BackupGroup>)
    ensures
        r@.len() == rows@.len(),
        forall|i: int| 0 <= i < r@.len() ==> group_archived(rows@[i], #[trigger] r@[i]),
{
    let mut out: Vec<BackupGroup> = Vec::new();
    let mut i: usize = 0;
    while i < rows.len()
        invariant
            i <= rows@.len(),
            out@.len() == i,
            forall|k: int| 0 <= k < i ==> group_archived(rows@[k], #[trigger] out@[k]),
        decreases rows@.len() - i,
    {
        let g = &rows[i];
        out.push(BackupGroup {
            id: g.id,
            name: g.name.clone(),
            parent_id: g.parent_id,
            color: copy_text(&g.color),
            sort: g.sort_order,
            created_at: copy_text(&g.created_at),
            updated_at: copy_text(&g.updated_at),
        });
        i = i + 1;
    }
    out
}

fn archive_note_groups(rows: &Vec<SecureRecordGroup>) -> (r: Vec<BackupGroup>)
    ensures
        r@.len() == rows@.len(),
        forall|i: int| 0 <= i < r@.len() ==> note_group_archived(rows@[i], #[trigger] r@[i]),
{
    let mut out: Vec<BackupGroup> = Vec::new();
    let mut i: usize = 0;
    while i < rows.len()
        invariant
            i <= rows@.len(),
            out@.len() == i,
            forall|k: int| 0 <= k < i ==> note_group_archived(rows@[k], #[trigger] out@[k]),
        decreases rows@.len() - i,
    {
        let g = &rows[i];
        out.push(BackupGroup {
            id: g.id,
            name: g.name.clone(),
            parent_id: g.parent_id,
            color: copy_text(&g.color),
            sort: g.sort_order,
            created_at: copy_text(&g.created_at),
            updated_at: copy_text(&g.updated_at),
        });
        i = i + 1;
    }
    out
}

fn archive_passwords(encryption: &EncryptionService, rows: &Vec<Password>) -> (r: Vec<BackupPassword>)
    ensures
        r@.len() == rows@.len(),
        forall|i: int| 0 <= i < r@.len() ==> password_archived(encryption@, rows@[i], #[trigger] r@[i]),
{
    let mut out: Vec<BackupPassword> = Vec::new();
    let mut i: usize = 0;
    while i < rows.len()
        invariant
            i <= rows@.len(),
            out@.len() == i,
            forall|k: int| 0 <= k < i ==> password_archived(encryption@, rows@[k], #[trigger] out@[k]),
        decreases rows@.len() - i,
    {
        let p = &rows[i];
        out.push(BackupPassword {
            id: p.id,
            title: p.title.clone(),
            username: copy_text(&p.username),
            password: decrypt_field(encryption, &p.password),
            url: copy_text(&p.url),
            notes: copy_text(&p.notes),
            group_id: p.group_id,
            created_at: copy_text(&p.created_at),
            updated_at: copy_text(&p.updated_at),
        });
        i = i + 1;
    }
    out
}

fn archive_notes(encryption: &EncryptionService, rows: &Vec<SecureRecord>) -> (r: Vec<BackupNote>)
    ensures
        r@.len() == rows@.len(),
        forall|i: int| 0 <= i < r@.len() ==> note_archived(encryption@, rows@[i], #[trigger] r@[i]),
{
    let mut out: Vec<BackupNote> = Vec::new();
    let mut i: usize = 0;
    while i < rows.len()
        invariant
            i <= rows@.len(),
            out@.len() == i,
            forall|k: int| 0 <= k < i ==> note_archived(encryption@, rows@[k], #[trigger] out@[k]),
        decreases rows@.len() - i,
    {
        let n = &rows[i];
        let pinned = match n.pinned {
            Some(x) => x,
            None => false,
        };
        let archived = match n.archived {
            Some(x) => x,
            None => false,
        };
        out.push(BackupNote {
            id: n.id,
            title: n.title.clone(),
            content: decrypt_field(encryption, &n.content),
            group_id: n.group_id,
            pinned,
            archived,
            created_at: copy_text(&n.created_at),
            updated_at: copy_text(&n.updated_at),
        });
        i = i + 1;
    }
    out
}

fn archive_settings(rows: &Vec<UserSetting>) -> (r: Vec<BackupSetting>)
    ensures
        r@.len() == rows@.len(),
        forall|i: int| 0 <= i < r@.len() ==> setting_archived(rows@[i], #[trigger] r@[i]),
{
    let mut out: Vec<BackupSetting> = Vec::new();
    let mut i: usize = 0;
    while i < rows.len()
        invariant
            i <= rows@.len(),
            out@.len() == i,
            forall|k: int| 0 <= k < i ==> setting_archived(rows@[k], #[trigger] out@[k]),
        decreases rows@.len() - i,
    {
        let s = &rows[i];
        out.push(BackupSetting {
            id: s.id,
            key: s.key.clone(),
            value: s.value.clone(),
            setting_type: copy_text(&s.setting_type),
            category: copy_text(&s.category),
            description: copy_text(&s.description),
            created_at: copy_text(&s.created_at),
            updated_at: copy_text(&s.updated_at),
        });
        i = i + 1;
    }
    out
}

fn archive_history(encryption: &EncryptionService, rows: &Vec<PasswordHistory>) -> (r: Vec<BackupHistory>)
    ensures
        r@.len() == rows@.len(),
        forall|i: int| 0 <= i < r@.len() ==> history_archived(encryption@, rows@[i], #[trigger] r@[i]),
{
    let mut out: Vec<BackupHistory> = Vec::new();
    let mut i: usize = 0;
    while i < rows.len()
        invariant
            i <= rows@.len(),
            out@.len() == i,
            forall|k: int| 0 <= k < i ==> history_archived(encryption@, rows@[k], #[trigger] out@[k]),
        decreases rows@.len() - i,
    {
        let h = &rows[i];
        let old_password = match decrypt_field(encryption, &Some(h.old_password.clone())) {
            Some(p) => p,
            None => h.old_password.clone(),
        };
        out.push(BackupHistory {
            id: h.id,
            password_id: h.password_id,
            old_password,
            changed_at: Some(h.changed_at.clone()),
            change_reason: copy_text(&h.change_reason),
        });
        i = i + 1;
    }
    out
}

/// Builds the snapshot of `store`: every table in identifier order, with
/// sensitive values revealed under `encryption`; one value that does not
/// decrypt is exported as stored and the rest goes on.
pub fn build_snapshot(store: &VaultStore, encryption: &EncryptionService, exported_at: &str) -> (r: Snapshot)
    ensures
        snapshot_of(encryption@, *store, exported_at@, r),
{
    Snapshot {
        version: SNAPSHOT_VERSION.to_string(),
        exported_at: exported_at.to_string(),
        groups: archive_groups(&store.groups),
        passwords: archive_passwords(encryption, &store.passwords),
        note_groups: archive_note_groups(&store.note_groups),
        notes: archive_notes(encryption, &store.notes),
        user_settings: archive_settings(&store.settings),
        password_history: archive_history(encryption, &store.history),
    }
}

} // verus!
