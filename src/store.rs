//! The live store as the backup engine sees it: one ordered table per entity
//! kind, each with the next identifier it will hand out.
use vstd::prelude::*;
use crate::models::{Group, Password, PasswordHistory, SecureRecord, SecureRecordGroup, UserSetting};

verus! {

/// Whether every identifier is present and they rise strictly along the table.
pub open spec fn ids_ascending(ids: Seq<Option<i64>>) -> bool {
    &&& forall|i: int| 0 <= i < ids.len() ==> (#[trigger] ids[i]) is Some
    &&& forall|i: int, j: int| 0 <= i < j < ids.len() ==> ids[i]->0 < ids[j]->0
}

/// Whether the identifiers rise strictly and all lie below `next`.
pub open spec fn ids_ok(ids: Seq<Option<i64>>, next: i64) -> bool {
    &&& ids_ascending(ids)
    &&& forall|i: int| 0 <= i < ids.len() ==> (#[trigger] ids[i])->0 < next
}

pub open spec fn group_ids(rows: Seq<Group>) -> Seq<Option<i64>> {
    rows.map_values(|g: Group| g.id)
}

pub open spec fn note_group_ids(rows: Seq<SecureRecordGroup>) -> Seq<Option<i64>> {
    rows.map_values(|g: SecureRecordGroup| g.id)
}

pub open spec fn password_ids(rows: Seq<Password>) -> Seq<Option<i64>> {
    rows.map_values(|p: Password| p.id)
}

pub open spec fn note_ids(rows: Seq<SecureRecord>) -> Seq<Option<i64>> {
    rows.map_values(|n: SecureRecord| n.id)
}

pub open spec fn setting_ids(rows: Seq<UserSetting>) -> Seq<Option<i64>> {
    rows.map_values(|s: UserSetting| s.id)
}

pub open spec fn history_ids(rows: Seq<PasswordHistory>) -> Seq<Option<i64>> {
    rows.map_values(|h: PasswordHistory| h.id)
}

/// Whether no two settings share a key.
pub open spec fn setting_keys_unique(rows: Seq<UserSetting>) -> bool {
    forall|i: int, j: int| 0 <= i < j < rows.len() ==> (#[trigger] rows[i]).key@ != (#[trigger] rows[j]).key@
}

/// The vault's tables, each ordered by identifier.
pub struct VaultStore {
    pub groups: Vec<Group>,
    pub passwords: Vec<Password>,
    pub note_groups: Vec<SecureRecordGroup>,
    pub notes: Vec<SecureRecord>,
    pub settings: Vec<UserSetting>,
    pub history: Vec<PasswordHistory>,
    pub next_group_id: i64,
    pub next_password_id: i64,
    pub next_note_group_id: i64,
    pub next_note_id: i64,
    pub next_setting_id: i64,
}

impl VaultStore {
    /// Every table is ordered by identifier, below its next identifier.
    pub open spec fn wf(&self) -> bool {
        &&& ids_ok(group_ids(self.groups@), self.next_group_id)
        &&& ids_ok(password_ids(self.passwords@), self.next_password_id)
        &&& ids_ok(note_group_ids(self.note_groups@), self.next_note_group_id)
        &&& ids_ok(note_ids(self.notes@), self.next_note_id)
        &&& ids_ok(setting_ids(self.settings@), self.next_setting_id)
        &&& setting_keys_unique(self.settings@)
        &&& ids_ascending(history_ids(self.history@))
    }

    /// A store over tables read in identifier order; `None` where a table has
    /// a row without identifier, is out of order, or ends at `i64::MAX`.
    pub fn from_tables(
        groups: Vec<Group>,
        passwords: Vec<Password>,
        note_groups: Vec<SecureRecordGroup>,
        notes: Vec<SecureRecord>,
        settings: Vec<UserSetting>,
        history: Vec<PasswordHistory>,
    ) -> (r: Option<Self>)
        ensures
            r matches Some(s) ==> s.wf() && s.groups@ == groups@ && s.passwords@ == passwords@
                && s.note_groups@ == note_groups@ && s.notes@ == notes@ && s.settings@ == settings@
                && s.history@ == history@,
            r is Some <==> {
                &&& ids_ascending(group_ids(groups@))
                &&& (groups@.len() > 0 ==> groups@.last().id->0 < i64::MAX)
                &&& ids_ascending(password_ids(passwords@))
                &&& (passwords@.len() > 0 ==> passwords@.last().id->0 < i64::MAX)
                &&& ids_ascending(note_group_ids(note_groups@))
                &&& (note_groups@.len() > 0 ==> note_groups@.last().id->0 < i64::MAX)
                &&& ids_ascending(note_ids(notes@))
                &&& (notes@.len() > 0 ==> notes@.last().id->0 < i64::MAX)
                &&& ids_ascending(setting_ids(settings@))
                &&& (settings@.len() > 0 ==> settings@.last().id->0 < i64::MAX)
                &&& setting_keys_unique(settings@)
                &&& ids_ascending(history_ids(history@))
            },
    {
        let next_group_id = match next_id_after(&ids_of_groups(&groups)) {
            Some(n) => n,
            None => return None,
        };
        let next_password_id = match next_id_after(&ids_of_passwords(&passwords)) {
            Some(n) => n,
            None => return None,
        };
        let next_note_group_id = match next_id_after(&ids_of_note_groups(&note_groups)) {
            Some(n) => n,
            None => return None,
        };
        let next_note_id = match next_id_after(&ids_of_notes(&notes)) {
            Some(n) => n,
            None => return None,
        };
        let next_setting_id = match next_id_after(&ids_of_settings(&settings)) {
            Some(n) => n,
            None => return None,
        };
        if !ids_rise(&ids_of_history(&history)) {
            return None;
        }
        if !keys_unique(&settings) {
            return None;
        }
        Some(VaultStore {
            groups,
            passwords,
            note_groups,
            notes,
            settings,
            history,
            next_group_id,
            next_password_id,
            next_note_group_id,
            next_note_id,
            next_setting_id,
        })
    }

    /// An empty store whose identifiers start at 1.
    pub fn new() -> (r: Self)
        ensures
            r.wf(),
            r.groups@.len() == 0,
            r.passwords@.len() == 0,
            r.note_groups@.len() == 0,
            r.notes@.len() == 0,
            r.settings@.len() == 0,
            r.history@.len() == 0,
            r.next_group_id == 1,
            r.next_password_id == 1,
            r.next_note_group_id == 1,
            r.next_note_id == 1,
            r.next_setting_id == 1,
    {
        VaultStore {
            groups: Vec::new(),
            passwords: Vec::new(),
            note_groups: Vec::new(),
            notes: Vec::new(),
            settings: Vec::new(),
            history: Vec::new(),
            next_group_id: 1,
            next_password_id: 1,
            next_note_group_id: 1,
            next_note_id: 1,
            next_setting_id: 1,
        }
    }
}

/// The identifiers of a table, in order.
fn ids_of_groups(rows: &Vec<Group>) -> (r: Vec<Option<i64>>)
    ensures
        r@ == group_ids(rows@),
{
    let mut out: Vec<Option<i64>> = Vec::new();
    let mut i: usize = 0;
    while i < rows.len()
        invariant
            i <= rows@.len(),
            out@ =~= group_ids(rows@.take(i as int)),
        decreases rows@.len() - i,
    {
        out.push(rows[i].id);
        i = i + 1;
        assert(out@ =~= group_ids(rows@.take(i as int)));
    }
    assert(rows@.take(rows@.len() as int) =~= rows@);
    out
}

fn ids_of_note_groups(rows: &Vec<SecureRecordGroup>) -> (r: Vec<Option<i64>>)
    ensures
        r@ == note_group_ids(rows@),
{
    let mut out: Vec<Option<i64>> = Vec::new();
    let mut i: usize = 0;
    while i < rows.len()
        invariant
            i <= rows@.len(),
            out@ =~= note_group_ids(rows@.take(i as int)),
        decreases rows@.len() - i,
    {
        out.push(rows[i].id);
        i = i + 1;
        assert(out@ =~= note_group_ids(rows@.take(i as int)));
    }
    assert(rows@.take(rows@.len() as int) =~= rows@);
    out
}

fn ids_of_passwords(rows: &Vec<Password>) -> (r: Vec<Option<i64>>)
    ensures
        r@ == password_ids(rows@),
{
    let mut out: Vec<Option<i64>> = Vec::new();
    let mut i: usize = 0;
    while i < rows.len()
        invariant
            i <= rows@.len(),
            out@ =~= password_ids(rows@.take(i as int)),
        decreases rows@.len() - i,
    {
        out.push(rows[i].id);
        i = i + 1;
        assert(out@ =~= password_ids(rows@.take(i as int)));
    }
    assert(rows@.take(rows@.len() as int) =~= rows@);
    out
}

fn ids_of_notes(rows: &Vec<SecureRecord>) -> (r: Vec<Option<i64>>)
    ensures
        r@ == note_ids(rows@),
{
    let mut out: Vec<Option<i64>> = Vec::new();
    let mut i: usize = 0;
    while i < rows.len()
        invariant
            i <= rows@.len(),
            out@ =~= note_ids(rows@.take(i as int)),
        decreases rows@.len() - i,
    {
        out.push(rows[i].id);
        i = i + 1;
        assert(out@ =~= note_ids(rows@.take(i as int)));
    }
    assert(rows@.take(rows@.len() as int) =~= rows@);
    out
}

fn ids_of_settings(rows: &Vec<UserSetting>) -> (r: Vec<Option<i64>>)
    ensures
        r@ == setting_ids(rows@),
{
    let mut out: Vec<Option<i64>> = Vec::new();
    let mut i: usize = 0;
    while i < rows.len()
        invariant
            i <= rows@.len(),
            out@ =~= setting_ids(rows@.take(i as int)),
        decreases rows@.len() - i,
    {
        out.push(rows[i].id);
        i = i + 1;
        assert(out@ =~= setting_ids(rows@.take(i as int)));
    }
    assert(rows@.take(rows@.len() as int) =~= rows@);
    out
}

fn ids_of_history(rows: &Vec<PasswordHistory>) -> (r: Vec<Option<i64>>)
    ensures
        r@ == history_ids(rows@),
{
    let mut out: Vec<Option<i64>> = Vec::new();
    let mut i: usize = 0;
    while i < rows.len()
        invariant
            i <= rows@.len(),
            out@ =~= history_ids(rows@.take(i as int)),
        decreases rows@.len() - i,
    {
        out.push(rows[i].id);
        i = i + 1;
        assert(out@ =~= history_ids(rows@.take(i as int)));
    }
    assert(rows@.take(rows@.len() as int) =~= rows@);
    out
}

/// Whether every identifier is present and they rise strictly.
fn ids_rise(ids: &Vec<Option<i64>>) -> (r: bool)
    ensures
        r == ids_ascending(ids@),
{
    let mut i: usize = 0;
    while i < ids.len()
        invariant
            i <= ids@.len(),
            forall|k: int| 0 <= k < i ==> (#[trigger] ids@[k]) is Some,
            forall|a: int, b: int| 0 <= a < b < i ==> ids@[a]->0 < ids@[b]->0,
        decreases ids@.len() - i,
    {
        match ids[i] {
            None => return false,
            Some(x) => {
                if i > 0 {
                    let prev = ids[i - 1].unwrap();
                    if prev >= x {
                        assert(ids@[i - 1]->0 >= ids@[i as int]->0);
                        return false;
                    }
                }
            },
        }
        i = i + 1;
    }
    true
}

/// Whether no two settings share a key.
fn keys_unique(rows: &Vec<UserSetting>) -> (r: bool)
    ensures
        r == setting_keys_unique(rows@),
{
    let mut j: usize = 0;
    while j < rows.len()
        invariant
            j <= rows@.len(),
            forall|a: int, b: int| 0 <= a < b < j ==> (#[trigger] rows@[a]).key@ != (#[trigger] rows@[b]).key@,
        decreases rows@.len() - j,
    {
        let mut i: usize = 0;
        while i < j
            invariant
                i <= j < rows@.len(),
                forall|a: int, b: int| 0 <= a < b < j ==> (#[trigger] rows@[a]).key@ != (#[trigger] rows@[b]).key@,
                forall|a: int| 0 <= a < i ==> (#[trigger] rows@[a]).key@ != rows@[j as int].key@,
            decreases j - i,
        {
            if rows[i].key == rows[j].key {
                return false;
            }
            i = i + 1;
        }
        j = j + 1;
    }
    true
}

/// The identifier after the last of `ids`, or `None` where one is missing,
/// they do not rise strictly, or the last is `i64::MAX`.
pub fn next_id_after(ids: &Vec<Option<i64>>) -> (r: Option<i64>)
    ensures
        r is Some <==> ids_ascending(ids@) && (ids@.len() > 0 ==> ids@.last()->0 < i64::MAX),
        r matches Some(n) ==> ids_ok(ids@, n) && n == (if ids@.len() == 0 { 1 } else { ids@.last()->0 + 1 }),
{
    let mut i: usize = 0;
    while i < ids.len()
        invariant
            i <= ids@.len(),
            forall|k: int| 0 <= k < i ==> (#[trigger] ids@[k]) is Some,
            forall|a: int, b: int| 0 <= a < b < i ==> ids@[a]->0 < ids@[b]->0,
        decreases ids@.len() - i,
    {
        match ids[i] {
            None => return None,
            Some(x) => {
                if i > 0 {
                    let prev = ids[i - 1].unwrap();
                    if prev >= x {
                        proof {
                            assert(!ids_ascending(ids@)) by {
                                assert(ids@[i - 1]->0 >= ids@[i as int]->0);
                            }
                        }
                        return None;
                    }
                }
            },
        }
        i = i + 1;
    }
    if ids.len() == 0 {
        return Some(1);
    }
    let last = ids[ids.len() - 1].unwrap();
    if last == i64::MAX {
        return None;
    }
    proof {
        assert forall|k: int| 0 <= k < ids@.len() implies (#[trigger] ids@[k])->0 < last + 1 by {
            if k < ids@.len() - 1 {
                assert(ids@[k]->0 < ids@[ids@.len() - 1]->0);
            }
        }
    }
    Some(last + 1)
}

} // verus!
