//! The import side of the engine: pre-checks, the merge of a whole snapshot
//! into a store, and the report of what was applied and skipped.
use vstd::prelude::*;
use crate::archive::BackupError;
use crate::encryption::EncryptionService;
use crate::merge::{
    merge_groups, merge_groups_spec, merge_notes, merge_passwords,
    merge_settings, note_pass, password_pass, setting_pass, texts, GroupFold, GroupMerge, NoteFold, PasswordFold,
    SettingFold,
};
use crate::models::{copy_text, Group, SecureRecordGroup};
use crate::snapshot::{encrypt_field, opt_view, revealed, sealed_as, BackupGroup, BackupNote, BackupPassword, Snapshot};
use crate::store::{group_ids, note_group_ids, VaultStore};
use crate::resolve::{indices, resolution_order, resolve_order, root_keys};
use crate::snapshot::SNAPSHOT_VERSION;
use vstd::string::StringExecFns;

verus! {

/// What an import did: rows inserted and updated, records applied in all,
/// records skipped, and one message per skipped setting.
pub struct ImportReport {
    pub inserted: usize,
    pub updated: usize,
    pub total_imported: usize,
    pub total_skipped: usize,
    pub errors: Vec<String>,
}

/// The number of records a snapshot holds.
pub open spec fn snapshot_size(snap: Snapshot) -> int {
    snap.groups@.len() as int + snap.passwords@.len() + snap.note_groups@.len() + snap.notes@.len()
        + snap.user_settings@.len() + snap.password_history@.len()
}

/// The order in which a forest's children are merged; empty where none
/// resolves.
pub open spec fn group_order(archive: Seq<BackupGroup>) -> Seq<int> {
    match resolution_order(archive) {
        Some(o) => o,
        None => Seq::empty(),
    }
}

/// Why `snap` cannot be merged into `store`, if it cannot: a snapshot of
/// another version, a forest whose parent links run in a cycle, or a table
/// without identifiers left for the import.
pub open spec fn import_refusal(store: VaultStore, snap: Snapshot) -> Option<BackupError> {
    if snap.version@ != SNAPSHOT_VERSION@ {
        Some(BackupError::InvalidDocument)
    } else if resolution_order(snap.groups@) is None || resolution_order(snap.note_groups@) is None {
        Some(BackupError::UnresolvedHierarchy)
    } else if !(store.next_group_id + snap.groups@.len() <= i64::MAX
        && store.next_note_group_id + snap.note_groups@.len() <= i64::MAX
        && store.next_password_id + snap.passwords@.len() <= i64::MAX
        && store.next_note_id + snap.notes@.len() <= i64::MAX
        && store.next_setting_id + snap.user_settings@.len() <= i64::MAX) {
        Some(BackupError::IdentifiersExhausted)
    } else {
        None
    }
}

pub open spec fn note_group_as_group(g: SecureRecordGroup) -> Group {
    Group {
        id: g.id,
        name: g.name,
        parent_id: g.parent_id,
        icon: g.icon,
        color: g.color,
        sort_order: g.sort_order,
        created_at: g.created_at,
        updated_at: g.updated_at,
    }
}

pub open spec fn group_as_note_group(g: Group) -> SecureRecordGroup {
    SecureRecordGroup {
        id: g.id,
        name: g.name,
        parent_id: g.parent_id,
        icon: g.icon,
        color: g.color,
        sort_order: g.sort_order,
        created_at: g.created_at,
        updated_at: g.updated_at,
    }
}

/// Every family's merge, each starting from the store's own table.
pub struct MergeOutcome {
    pub groups: GroupFold,
    pub passwords: PasswordFold,
    pub note_groups: GroupFold,
    pub notes: NoteFold,
    pub settings: SettingFold,
}

/// The merge of `snap` into `store`, the i-th credential's secret stored as
/// `sealed_passwords[i]` and the i-th note's body as `sealed_notes[i]`:
/// groups first, so that credentials and notes find their groups' links.
pub open spec fn merge_outcome(
    store: VaultStore,
    snap: Snapshot,
    sealed_passwords: Seq<Option<String>>,
    sealed_notes: Seq<Option<String>>,
    now: String,
) -> MergeOutcome {
    let groups = merge_groups_spec(
        GroupFold { rows: store.groups@, links: Seq::empty(), next_id: store.next_group_id, inserted: 0 },
        snap.groups@,
        group_order(snap.groups@),
        now,
    );
    let note_groups = merge_groups_spec(
        GroupFold {
            rows: store.note_groups@.map_values(|g: SecureRecordGroup| note_group_as_group(g)),
            links: Seq::empty(),
            next_id: store.next_note_group_id,
            inserted: 0,
        },
        snap.note_groups@,
        group_order(snap.note_groups@),
        now,
    );
    MergeOutcome {
        groups,
        passwords: password_pass(
            PasswordFold { rows: store.passwords@, next_id: store.next_password_id, inserted: 0 },
            snap.passwords@,
            sealed_passwords,
            groups.links,
            now,
            snap.passwords@.len() as int,
        ),
        note_groups,
        notes: note_pass(
            NoteFold { rows: store.notes@, next_id: store.next_note_id, inserted: 0 },
            snap.notes@,
            sealed_notes,
            note_groups.links,
            now,
            snap.notes@.len() as int,
        ),
        settings: setting_pass(
            SettingFold { rows: store.settings@, next_id: store.next_setting_id, inserted: 0, skipped: Seq::empty() },
            snap.user_settings@,
            now,
            snap.user_settings@.len() as int,
        ),
    }
}

/// Whether `store` holds what the merge produced, with `history` kept as it was.
pub open spec fn store_holds(store: VaultStore, m: MergeOutcome, before: VaultStore) -> bool {
    &&& store.groups@ == m.groups.rows
    &&& store.next_group_id == m.groups.next_id
    &&& store.passwords@ == m.passwords.rows
    &&& store.next_password_id == m.passwords.next_id
    &&& store.note_groups@ == m.note_groups.rows.map_values(|g: Group| group_as_note_group(g))
    &&& store.next_note_group_id == m.note_groups.next_id
    &&& store.notes@ == m.notes.rows
    &&& store.next_note_id == m.notes.next_id
    &&& store.settings@ == m.settings.rows
    &&& store.next_setting_id == m.settings.next_id
    &&& store.history@ == before.history@
}

/// Whether `report` accounts for the merge: every record but the skipped
/// settings and the history is applied, the history is skipped as a whole.
pub open spec fn report_holds(report: ImportReport, m: MergeOutcome, snap: Snapshot) -> bool {
    let applied = snap.groups@.len() + snap.passwords@.len() + snap.note_groups@.len() + snap.notes@.len()
        + snap.user_settings@.len() - m.settings.skipped.len();
    let inserted = m.groups.inserted + m.passwords.inserted + m.note_groups.inserted + m.notes.inserted
        + m.settings.inserted;
    &&& report.inserted == inserted
    &&& report.total_imported == applied
    &&& report.updated == applied - inserted
    &&& report.total_skipped == m.settings.skipped.len() + snap.password_history@.len()
    &&& texts(report.errors@) == m.settings.skipped
}

fn note_groups_as_groups(rows: &Vec<SecureRecordGroup>) -> (r: Vec<Group>)
    ensures
        r@ == rows@.map_values(|g: SecureRecordGroup| note_group_as_group(g)),
{
    let mut out: Vec<Group> = Vec::new();
    let mut i: usize = 0;
    while i < rows.len()
        invariant
            i <= rows@.len(),
            out@ == rows@.take(i as int).map_values(|g: SecureRecordGroup| note_group_as_group(g)),
        decreases rows@.len() - i,
    {
        let g = &rows[i];
        out.push(Group {
            id: g.id,
            name: g.name.clone(),
            parent_id: g.parent_id,
            icon: copy_text(&g.icon),
            color: copy_text(&g.color),
            sort_order: g.sort_order,
            created_at: copy_text(&g.created_at),
            updated_at: copy_text(&g.updated_at),
        });
        i = i + 1;
        assert(out@ =~= rows@.take(i as int).map_values(|g: SecureRecordGroup| note_group_as_group(g)));
    }
    assert(rows@.take(rows@.len() as int) =~= rows@);
    out
}

fn groups_as_note_groups(rows: &Vec<Group>) -> (r: Vec<SecureRecordGroup>)
    ensures
        r@ == rows@.map_values(|g: Group| group_as_note_group(g)),
{
    let mut out: Vec<SecureRecordGroup> = Vec::new();
    let mut i: usize = 0;
    while i < rows.len()
        invariant
            i <= rows@.len(),
            out@ == rows@.take(i as int).map_values(|g: Group| group_as_note_group(g)),
        decreases rows@.len() - i,
    {
        let g = &rows[i];
        out.push(SecureRecordGroup {
            id: g.id,
            name: g.name.clone(),
            parent_id: g.parent_id,
            icon: copy_text(&g.icon),
            color: copy_text(&g.color),
            sort_order: g.sort_order,
            created_at: copy_text(&g.created_at),
            updated_at: copy_text(&g.updated_at),
        });
        i = i + 1;
        assert(out@ =~= rows@.take(i as int).map_values(|g: Group| group_as_note_group(g)));
    }
    assert(rows@.take(rows@.len() as int) =~= rows@);
    out
}

/// Whether `len` more identifiers from `next` on are still available.
fn has_headroom(next: i64, len: usize) -> (r: bool)
    ensures
        r == (next + len <= i64::MAX),
{
    (next as i128) + (len as i128) <= i64::MAX as i128
}

/// Checks a parsed snapshot before any store access: a snapshot of another
/// version than this format's is refused.
pub fn check_document(snap: &Snapshot) -> (r: Result<(), BackupError>)
    ensures
        r is Ok <==> snap.version@ == SNAPSHOT_VERSION@,
        r matches Err(e) ==> e == BackupError::InvalidDocument,
{
    if snap.version != String::from_str(SNAPSHOT_VERSION) {
        Err(BackupError::InvalidDocument)
    } else {
        Ok(())
    }
}

/// The orders in which the two forests' children are merged, or the reason
/// `snap` cannot be merged into `store`.
fn plan_import(store: &VaultStore, snap: &Snapshot) -> (r: Result<(Vec<usize>, Vec<usize>), BackupError>)
    ensures
        match r {
            Ok((g, ng)) => import_refusal(*store, *snap) is None
                && indices(g@) == group_order(snap.groups@) && indices(ng@) == group_order(snap.note_groups@)
                && root_keys(snap.groups@, snap.groups@.len() as int).len() + g@.len() == snap.groups@.len()
                && (forall|t: int| 0 <= t < g@.len() ==> #[trigger] g@[t] < snap.groups@.len())
                && root_keys(snap.note_groups@, snap.note_groups@.len() as int).len() + ng@.len() == snap.note_groups@.len()
                && (forall|t: int| 0 <= t < ng@.len() ==> #[trigger] ng@[t] < snap.note_groups@.len()),
            Err(e) => import_refusal(*store, *snap) == Some(e),
        },
{
    match check_document(snap) {
        Err(e) => return Err(e),
        Ok(()) => {},
    }
    let groups_order = match resolve_order(&snap.groups) {
        Some(o) => o,
        None => return Err(BackupError::UnresolvedHierarchy),
    };
    let note_groups_order = match resolve_order(&snap.note_groups) {
        Some(o) => o,
        None => return Err(BackupError::UnresolvedHierarchy),
    };
    if !(has_headroom(store.next_group_id, snap.groups.len())
        && has_headroom(store.next_note_group_id, snap.note_groups.len())
        && has_headroom(store.next_password_id, snap.passwords.len())
        && has_headroom(store.next_note_id, snap.notes.len())
        && has_headroom(store.next_setting_id, snap.user_settings.len())) {
        return Err(BackupError::IdentifiersExhausted);
    }
    Ok((groups_order, note_groups_order))
}

/// The reason `snap` cannot be merged into `store`, if any.
pub fn check_import(store: &VaultStore, snap: &Snapshot) -> (r: Option<BackupError>)
    ensures
        r == import_refusal(*store, *snap),
{
    match plan_import(store, snap) {
        Ok(_) => None,
        Err(e) => Some(e),
    }
}

/// Merges `snap` into `store` with the given stored forms of the secrets; on
/// a refusal the store is left as it was.
#[verifier::rlimit(50)]
pub fn merge_snapshot(
    store: &mut VaultStore,
    snap: &Snapshot,
    sealed_passwords: &Vec<Option<String>>,
    sealed_notes: &Vec<Option<String>>,
    now: &String,
) -> (r: Result<ImportReport, BackupError>)
    requires
        old(store).wf(),
        sealed_passwords@.len() == snap.passwords@.len(),
        sealed_notes@.len() == snap.notes@.len(),
        snapshot_size(*snap) <= usize::MAX,
    ensures
        final(store).wf(),
        r is Err <==> import_refusal(*old(store), *snap) is Some,
        r matches Err(e) ==> import_refusal(*old(store), *snap) == Some(e) && *final(store) == *old(store),
        r matches Ok(report) ==> store_holds(*final(store), merge_outcome(*old(store), *snap, sealed_passwords@, sealed_notes@, *now), *old(store))
            && report_holds(report, merge_outcome(*old(store), *snap, sealed_passwords@, sealed_notes@, *now), *snap),
{
    let (groups_order, note_groups_order) = match plan_import(store, snap) {
        Err(e) => return Err(e),
        Ok(orders) => orders,
    };
    let ghost m = merge_outcome(*store, *snap, sealed_passwords@, sealed_notes@, *now);
    let ghost before = *store;

    let mut groups = GroupMerge { rows: Vec::new(), links: Vec::new(), next_id: store.next_group_id, inserted: 0 };
    std::mem::swap(&mut groups.rows, &mut store.groups);
    merge_groups(&mut groups, &snap.groups, &groups_order, now);
    std::mem::swap(&mut groups.rows, &mut store.groups);
    store.next_group_id = groups.next_id;

    let inserted_passwords = merge_passwords(
        &mut store.passwords,
        &mut store.next_password_id,
        &snap.passwords,
        sealed_passwords,
        &groups.links,
        now,
    );

    let mut note_groups = GroupMerge {
        rows: note_groups_as_groups(&store.note_groups),
        links: Vec::new(),
        next_id: store.next_note_group_id,
        inserted: 0,
    };
    proof {
        assert(group_ids(note_groups.rows@) =~= note_group_ids(before.note_groups@));
    }
    merge_groups(&mut note_groups, &snap.note_groups, &note_groups_order, now);
    store.note_groups = groups_as_note_groups(&note_groups.rows);
    store.next_note_group_id = note_groups.next_id;
    proof {
        assert(note_group_ids(store.note_groups@) =~= group_ids(note_groups.rows@));
    }

    let inserted_notes = merge_notes(
        &mut store.notes,
        &mut store.next_note_id,
        &snap.notes,
        sealed_notes,
        &note_groups.links,
        now,
    );

    let mut errors: Vec<String> = Vec::new();
    let inserted_settings = merge_settings(
        &mut store.settings,
        &mut store.next_setting_id,
        &mut errors,
        &snap.user_settings,
        now,
    );
    proof {
        assert(texts(Seq::<String>::empty()) =~= Seq::<Seq<char>>::empty());
    }

    let inserted = groups.inserted + inserted_passwords + note_groups.inserted + inserted_notes + inserted_settings;
    let applied = snap.groups.len() + snap.passwords.len() + snap.note_groups.len() + snap.notes.len()
        + (snap.user_settings.len() - errors.len());
    let report = ImportReport {
        inserted,
        updated: applied - inserted,
        total_imported: applied,
        total_skipped: errors.len() + snap.password_history.len(),
        errors,
    };
    Ok(report)
}

/// Whether `sealed` stores each archived credential's secret under `key`:
/// a token that decrypts to it, never the plaintext.
pub open spec fn passwords_sealed(key: Seq<u8>, archive: Seq<BackupPassword>, sealed: Seq<Option<String>>) -> bool {
    &&& sealed.len() == archive.len()
    &&& forall|i: int| 0 <= i < sealed.len() ==> sealed_as(key, opt_view(archive[i].password), opt_view(#[trigger] sealed[i]))
}

/// Whether `sealed` stores each archived note's body under `key`: a token
/// that decrypts to it, never the plaintext.
pub open spec fn notes_sealed(key: Seq<u8>, archive: Seq<BackupNote>, sealed: Seq<Option<String>>) -> bool {
    &&& sealed.len() == archive.len()
    &&& forall|i: int| 0 <= i < sealed.len() ==> sealed_as(key, opt_view(archive[i].content), opt_view(#[trigger] sealed[i]))
}

fn seal_passwords(encryption: &EncryptionService, archive: &Vec<BackupPassword>) -> (r: Vec<Option<String>>)
    ensures
        passwords_sealed(encryption@, archive@, r@),
{
    let mut out: Vec<Option<String>> = Vec::new();
    let mut i: usize = 0;
    while i < archive.len()
        invariant
            i <= archive@.len(),
            out@.len() == i,
            forall|k: int| 0 <= k < i ==> sealed_as(encryption@, opt_view(archive@[k].password), opt_view(#[trigger] out@[k])),
        decreases archive@.len() - i,
    {
        out.push(encrypt_field(encryption, &archive[i].password));
        i = i + 1;
    }
    out
}

fn seal_notes(encryption: &EncryptionService, archive: &Vec<BackupNote>) -> (r: Vec<Option<String>>)
    ensures
        notes_sealed(encryption@, archive@, r@),
{
    let mut out: Vec<Option<String>> = Vec::new();
    let mut i: usize = 0;
    while i < archive.len()
        invariant
            i <= archive@.len(),
            out@.len() == i,
            forall|k: int| 0 <= k < i ==> sealed_as(encryption@, opt_view(archive@[k].content), opt_view(#[trigger] out@[k])),
        decreases archive@.len() - i,
    {
        out.push(encrypt_field(encryption, &archive[i].content));
        i = i + 1;
    }
    out
}

/// Imports a snapshot into `store`: every sensitive value is encrypted under
/// `encryption` just before it is written, and the merge is applied as a
/// whole or, on a refusal, not at all.
pub fn import_snapshot(
    store: &mut VaultStore,
    snap: &Snapshot,
    encryption: &EncryptionService,
    now: &String,
) -> (r: Result<ImportReport, BackupError>)
    requires
        old(store).wf(),
        snapshot_size(*snap) <= usize::MAX,
    ensures
        final(store).wf(),
        r is Err <==> import_refusal(*old(store), *snap) is Some,
        r matches Err(e) ==> import_refusal(*old(store), *snap) == Some(e) && *final(store) == *old(store),
        r is Ok ==> exists|sp: Seq<Option<String>>, sn: Seq<Option<String>>|
            passwords_sealed(encryption@, snap.passwords@, sp) && notes_sealed(encryption@, snap.notes@, sn)
            && store_holds(*final(store), merge_outcome(*old(store), *snap, sp, sn, *now), *old(store))
            && report_holds(r->Ok_0, merge_outcome(*old(store), *snap, sp, sn, *now), *snap),
{
    let sealed_passwords = seal_passwords(encryption, &snap.passwords);
    let sealed_notes = seal_notes(encryption, &snap.notes);
    merge_snapshot(store, snap, &sealed_passwords, &sealed_notes, now)
}

} // verus!
