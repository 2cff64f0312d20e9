use vault_backup::archive::{decode_archive, encode_archive, ArchiveFormat, BackupError};
use vault_backup::encryption::EncryptionService;
use vault_backup::import::{check_document, check_import, import_snapshot, ImportReport};
use vault_backup::snapshot::{
    build_snapshot, BackupGroup, BackupHistory, BackupNote, BackupPassword, BackupSetting, Snapshot,
};
use vault_backup::store::VaultStore;

fn group(id: i64, name: &str, parent: Option<i64>) -> BackupGroup {
    BackupGroup {
        id: Some(id),
        name: name.to_string(),
        parent_id: parent,
        color: Some("#336699".to_string()),
        sort: Some(id as i32),
        created_at: Some("2024-01-01 00:00:00".to_string()),
        updated_at: Some("2024-01-02 00:00:00".to_string()),
    }
}

fn password(id: i64, title: &str, user: &str, secret: &str, group_id: Option<i64>) -> BackupPassword {
    BackupPassword {
        id: Some(id),
        title: title.to_string(),
        username: Some(user.to_string()),
        password: Some(secret.to_string()),
        url: Some("https://example.org".to_string()),
        notes: None,
        group_id,
        created_at: Some("2024-02-01 00:00:00".to_string()),
        updated_at: None,
    }
}

fn note(id: i64, title: &str, body: &str, group_id: Option<i64>) -> BackupNote {
    BackupNote {
        id: Some(id),
        title: title.to_string(),
        content: Some(body.to_string()),
        group_id,
        pinned: true,
        archived: false,
        created_at: None,
        updated_at: None,
    }
}

fn setting(id: i64, key: &str, value: &str, kind: &str) -> BackupSetting {
    BackupSetting {
        id: Some(id),
        key: key.to_string(),
        value: value.to_string(),
        setting_type: Some(kind.to_string()),
        category: Some("general".to_string()),
        description: None,
        created_at: None,
        updated_at: None,
    }
}

fn snapshot(
    groups: Vec<BackupGroup>,
    passwords: Vec<BackupPassword>,
    note_groups: Vec<BackupGroup>,
    notes: Vec<BackupNote>,
    user_settings: Vec<BackupSetting>,
) -> Snapshot {
    Snapshot {
        version: "1.0".to_string(),
        exported_at: "1700000000Z".to_string(),
        groups,
        passwords,
        note_groups,
        notes,
        user_settings,
        password_history: Vec::new(),
    }
}

fn work_archive() -> Snapshot {
    snapshot(
        vec![group(1, "Work", None), group(2, "Email", Some(1))],
        vec![password(5, "Mail", "me@example.org", "hunter2", Some(2))],
        Vec::new(),
        Vec::new(),
        Vec::new(),
    )
}

fn now() -> String {
    "2024-06-01 12:00:00".to_string()
}

fn run(store: &mut VaultStore, snap: &Snapshot, cipher: &EncryptionService) -> ImportReport {
    import_snapshot(store, snap, cipher, &now()).unwrap()
}

#[test]
fn work_archive_into_empty_store() {
    let cipher = EncryptionService::new("k");
    let mut store = VaultStore::new();
    let report = run(&mut store, &work_archive(), &cipher);

    assert_eq!(store.groups.len(), 2);
    let work = store.groups.iter().find(|g| g.name == "Work").unwrap();
    let email = store.groups.iter().find(|g| g.name == "Email").unwrap();
    assert_eq!(work.parent_id, None);
    assert_eq!(email.parent_id, work.id);
    assert_eq!(store.passwords.len(), 1);
    assert_eq!(store.passwords[0].group_id, email.id);
    // the secret is stored encrypted, and decrypts back
    let stored = store.passwords[0].password.clone().unwrap();
    assert_ne!(stored, "hunter2");
    assert_eq!(cipher.decrypt(&stored).unwrap(), "hunter2");

    assert_eq!(report.inserted, 3);
    assert_eq!(report.updated, 0);
    assert_eq!(report.total_imported, 3);
    assert_eq!(report.total_skipped, 0);
    assert!(report.errors.is_empty());
}

#[test]
fn second_import_updates_only() {
    let cipher = EncryptionService::new("k");
    let mut store = VaultStore::new();
    run(&mut store, &work_archive(), &cipher);
    let report = run(&mut store, &work_archive(), &cipher);

    assert_eq!(store.groups.len(), 2);
    assert_eq!(store.passwords.len(), 1);
    assert_eq!(report.inserted, 0);
    assert_eq!(report.updated, 3);
    assert_eq!(report.total_imported, 3);
    let email = store.groups.iter().find(|g| g.name == "Email").unwrap();
    assert_eq!(store.passwords[0].group_id, email.id);
}

#[test]
fn conflicting_setting_is_skipped() {
    let cipher = EncryptionService::new("k");
    let mut store = VaultStore::new();
    let first = snapshot(Vec::new(), Vec::new(), Vec::new(), Vec::new(), vec![setting(1, "theme", "dark", "string")]);
    run(&mut store, &first, &cipher);

    let archive = snapshot(
        Vec::new(),
        Vec::new(),
        Vec::new(),
        Vec::new(),
        vec![
            setting(1, "language", "en", "string"),
            setting(2, "theme", "3", "number"),
            setting(3, "font_size", "14", "number"),
            setting(4, "auto_lock", "true", "boolean"),
            setting(5, "lock_minutes", "5", "number"),
        ],
    );
    let report = import_snapshot(&mut store, &archive, &cipher, &now());
    assert!(report.is_ok());
    let report = report.unwrap();
    assert_eq!(report.total_imported, 4);
    assert_eq!(report.total_skipped, 1);
    assert_eq!(report.errors.len(), 1);
    assert!(report.errors[0].contains("theme"));
    assert_eq!(store.settings.len(), 5);
    let theme = store.settings.iter().find(|s| s.key == "theme").unwrap();
    assert_eq!(theme.value, "dark");
    assert_eq!(theme.setting_type, Some("string".to_string()));
}

#[test]
fn wrong_passphrase_leaves_store_unchanged() {
    let cipher = EncryptionService::new("k");
    let mut store = VaultStore::new();
    run(&mut store, &work_archive(), &cipher);
    let before = build_snapshot(&store, &cipher, "t");

    let payload = b"{\"version\":\"1.0\",\"groups\":[{\"id\":9,\"name\":\"Other\"}]}".to_vec();
    let archive = encode_archive(&payload, ArchiveFormat::Protected, Some("abc123")).unwrap();
    let decoded = decode_archive(&archive, Some("wrong"));
    assert_eq!(decoded, Err(BackupError::CannotOpenArchive));

    let after = build_snapshot(&store, &cipher, "t");
    assert_eq!(format!("{:?}", before), format!("{:?}", after));
    assert_eq!(store.groups.len(), 2);
    assert_eq!(store.passwords.len(), 1);
}

fn rich_snapshot() -> Snapshot {
    let mut snap = snapshot(
        vec![group(10, "Personal", None), group(11, "Banking", Some(10)), group(12, "Cards", Some(11))],
        vec![
            password(20, "Bank", "alice", "s3cret", Some(11)),
            password(21, "Visa", "alice", "4111", Some(12)),
            password(22, "Loose", "bob", "", None),
        ],
        vec![group(30, "Journal", None), group(31, "2024", Some(30))],
        vec![note(40, "Day one", "It begins.", Some(31)), note(41, "Todo", "milk", None)],
        vec![setting(50, "theme", "dark", "string")],
    );
    snap.password_history.push(BackupHistory {
        id: Some(60),
        password_id: 20,
        old_password: "old".to_string(),
        changed_at: Some("2023-01-01".to_string()),
        change_reason: None,
    });
    snap
}

fn parent_name(groups: &[BackupGroup], g: &BackupGroup) -> Option<String> {
    g.parent_id.map(|p| groups.iter().find(|x| x.id == Some(p)).unwrap().name.clone())
}

#[test]
fn round_trip_keeps_everything_but_identifiers() {
    let cipher = EncryptionService::new("k");
    let original = rich_snapshot();
    let mut store = VaultStore::new();
    let report = run(&mut store, &original, &cipher);
    assert_eq!(report.total_skipped, 1);
    let exported = build_snapshot(&store, &cipher, "later");
    assert_eq!(exported.version, "1.0");
    assert_eq!(exported.exported_at, "later");

    assert_eq!(exported.groups.len(), 3);
    for g in &original.groups {
        let e = exported.groups.iter().find(|x| x.name == g.name).unwrap();
        assert_eq!(parent_name(&exported.groups, e), parent_name(&original.groups, g));
        assert_eq!(e.color, g.color);
        assert_eq!(e.sort, g.sort);
        assert_eq!(e.created_at, g.created_at);
        assert_eq!(e.updated_at, g.updated_at);
    }
    assert_eq!(exported.passwords.len(), 3);
    for p in &original.passwords {
        let e = exported.passwords.iter().find(|x| x.title == p.title).unwrap();
        assert_eq!(e.username, p.username);
        assert_eq!(e.password, p.password);
        assert_eq!(e.url, p.url);
        let eg = e.group_id.map(|id| exported.groups.iter().find(|x| x.id == Some(id)).unwrap().name.clone());
        let og = p.group_id.map(|id| original.groups.iter().find(|x| x.id == Some(id)).unwrap().name.clone());
        assert_eq!(eg, og);
        assert_eq!(e.created_at, p.created_at);
        assert_eq!(e.updated_at, Some(now()));
    }
    assert_eq!(exported.note_groups.len(), 2);
    assert_eq!(exported.notes.len(), 2);
    let day = exported.notes.iter().find(|n| n.title == "Day one").unwrap();
    assert_eq!(day.content, Some("It begins.".to_string()));
    assert!(day.pinned);
    assert!(!day.archived);
    let year = exported.note_groups.iter().find(|g| Some(g.id.unwrap()) == day.group_id).unwrap();
    assert_eq!(year.name, "2024");
    assert_eq!(exported.user_settings.len(), 1);
    assert_eq!(exported.user_settings[0].key, "theme");
    assert_eq!(exported.user_settings[0].value, "dark");
    assert!(exported.password_history.is_empty());
}

#[test]
fn importing_twice_equals_importing_once() {
    let cipher = EncryptionService::new("k");
    let snap = rich_snapshot();
    let mut once = VaultStore::new();
    run(&mut once, &snap, &cipher);
    let mut twice = VaultStore::new();
    run(&mut twice, &snap, &cipher);
    let report = run(&mut twice, &snap, &cipher);
    assert_eq!(report.inserted, 0);
    assert_eq!(report.updated, 11);
    let a = build_snapshot(&once, &cipher, "t");
    let b = build_snapshot(&twice, &cipher, "t");
    assert_eq!(format!("{:?}", a), format!("{:?}", b));
}

#[test]
fn children_link_to_their_archived_parents() {
    let cipher = EncryptionService::new("k");
    let mut store = VaultStore::new();
    // rows already in the store shift the identifiers the import hands out
    let noise = snapshot(vec![group(1, "Noise", None), group(2, "Banking", None)], Vec::new(), Vec::new(), Vec::new(), Vec::new());
    run(&mut store, &noise, &cipher);
    run(&mut store, &rich_snapshot(), &cipher);

    let find = |name: &str, parent: Option<i64>| {
        store.groups.iter().find(|g| g.name == name && g.parent_id == parent).unwrap().id
    };
    let personal = find("Personal", None);
    let banking = find("Banking", personal);
    let cards = find("Cards", banking);
    assert!(personal.is_some() && banking.is_some() && cards.is_some());
    // the root "Banking" of the store is another group
    assert_ne!(find("Banking", None), banking);
    assert_eq!(store.groups.len(), 5);
}

#[test]
fn deep_child_listed_before_its_parent_resolves() {
    let cipher = EncryptionService::new("k");
    let mut store = VaultStore::new();
    // 1 under 3, 3 under 2, 2 a root: listed by id, 1 comes before its parent
    let snap = snapshot(
        vec![group(1, "Leaf", Some(3)), group(2, "Root", None), group(3, "Mid", Some(2))],
        vec![password(1, "x", "y", "z", Some(1))],
        Vec::new(),
        Vec::new(),
        Vec::new(),
    );
    assert_eq!(check_import(&store, &snap), None);
    let report = run(&mut store, &snap, &cipher);
    assert_eq!(report.inserted, 4);
    let find = |name: &str| store.groups.iter().find(|g| g.name == name).unwrap().clone();
    let root = find("Root");
    let mid = find("Mid");
    let leaf = find("Leaf");
    assert_eq!(root.parent_id, None);
    assert_eq!(mid.parent_id, root.id);
    assert_eq!(leaf.parent_id, mid.id);
    assert_eq!(store.passwords[0].group_id, leaf.id);
}

#[test]
fn cycle_of_parents_is_fatal() {
    let cipher = EncryptionService::new("k");
    let mut store = VaultStore::new();
    run(&mut store, &work_archive(), &cipher);
    let bad = snapshot(
        vec![group(1, "Root", None), group(2, "A", Some(3)), group(3, "B", Some(2))],
        vec![password(1, "x", "y", "z", None)],
        Vec::new(),
        Vec::new(),
        Vec::new(),
    );
    assert_eq!(check_import(&store, &bad), Some(BackupError::UnresolvedHierarchy));
    let before = format!("{:?}", build_snapshot(&store, &cipher, "t"));
    let r = import_snapshot(&mut store, &bad, &cipher, &now());
    assert!(matches!(r, Err(BackupError::UnresolvedHierarchy)));
    assert_eq!(before, format!("{:?}", build_snapshot(&store, &cipher, "t")));
}

#[test]
fn other_snapshot_version_is_refused() {
    let cipher = EncryptionService::new("k");
    let mut store = VaultStore::new();
    let mut snap = work_archive();
    snap.version = "2.0".to_string();
    assert_eq!(check_import(&store, &snap), Some(BackupError::InvalidDocument));
    assert_eq!(check_document(&snap), Err(BackupError::InvalidDocument));
    assert_eq!(check_document(&work_archive()), Ok(()));
    let r = import_snapshot(&mut store, &snap, &cipher, &now());
    assert!(matches!(r, Err(BackupError::InvalidDocument)));
    assert!(store.groups.is_empty());
    assert!(store.passwords.is_empty());
}

#[test]
fn secrets_are_never_stored_in_plaintext() {
    let cipher = EncryptionService::new("k");
    let mut store = VaultStore::new();
    run(&mut store, &rich_snapshot(), &cipher);
    for p in &store.passwords {
        let stored = p.password.clone().unwrap();
        if !stored.is_empty() {
            assert!(!["s3cret", "4111"].contains(&stored.as_str()));
            assert!(cipher.decrypt(&stored).is_ok());
        }
    }
    for n in &store.notes {
        let stored = n.content.clone().unwrap();
        assert!(stored != "It begins." && stored != "milk");
    }
}

#[test]
fn unknown_parent_is_treated_as_root() {
    let cipher = EncryptionService::new("k");
    let mut store = VaultStore::new();
    let snap = snapshot(vec![group(4, "Orphan", Some(99))], Vec::new(), Vec::new(), Vec::new(), Vec::new());
    run(&mut store, &snap, &cipher);
    assert_eq!(store.groups[0].parent_id, None);
}

#[test]
fn identifiers_continue_after_the_last_row() {
    let cipher = EncryptionService::new("k");
    let mut store = VaultStore::new();
    store.next_group_id = i64::MAX;
    let snap = snapshot(vec![group(1, "A", None)], Vec::new(), Vec::new(), Vec::new(), Vec::new());
    assert_eq!(check_import(&store, &snap), Some(BackupError::IdentifiersExhausted));
    let r = import_snapshot(&mut store, &snap, &cipher, &now());
    assert!(matches!(r, Err(BackupError::IdentifiersExhausted)));
    assert!(store.groups.is_empty());
}

#[test]
fn notes_match_by_title_and_group() {
    let cipher = EncryptionService::new("k");
    let mut store = VaultStore::new();
    let snap = rich_snapshot();
    run(&mut store, &snap, &cipher);
    let mut changed = rich_snapshot();
    changed.notes[0].content = Some("Rewritten.".to_string());
    changed.notes[1].group_id = Some(30);
    run(&mut store, &changed, &cipher);
    assert_eq!(store.notes.len(), 3);
    let exported = build_snapshot(&store, &cipher, "t");
    let day = exported.notes.iter().find(|n| n.title == "Day one").unwrap();
    assert_eq!(day.content, Some("Rewritten.".to_string()));
}

#[test]
fn timestamps_fall_back_to_now() {
    let cipher = EncryptionService::new("k");
    let mut store = VaultStore::new();
    let mut g = group(1, "A", None);
    g.created_at = None;
    g.updated_at = None;
    run(&mut store, &snapshot(vec![g], Vec::new(), Vec::new(), Vec::new(), Vec::new()), &cipher);
    assert_eq!(store.groups[0].created_at, Some(now()));
    assert_eq!(store.groups[0].updated_at, Some(now()));
    assert_eq!(store.groups[0].id, Some(1));
    assert_eq!(store.next_group_id, 2);
}
