//! Merge engine: folds a snapshot into a store. Groups are matched by name
//! and resolved parent, credentials by title and username, notes by title and
//! resolved group, settings by key; a match is updated, anything else is
//! inserted, and archived identifiers are remapped to the store's own.
use vstd::prelude::*;
use crate::models::{copy_text, Group, Password, SecureRecord, UserSetting};
use crate::snapshot::{opt_view, BackupGroup, BackupNote, BackupPassword, BackupSetting};
use crate::store::{group_ids, ids_ok, note_ids, password_ids, setting_ids, setting_keys_unique};
use crate::resolve::{indices, parent_key, root_keys};
use vstd::string::StringExecFns;

verus! {

/// The identifier an archived group is known by; a missing one reads as 0.
pub open spec fn archive_key(g: BackupGroup) -> i64 {
    match g.id {
        Some(i) => i,
        None => 0,
    }
}

/// The store identifier that archived identifier `old` was last mapped to.
pub open spec fn link_of(links: Seq<(i64, i64)>, old: i64) -> Option<i64>
    decreases links.len(),
{
    if links.len() == 0 {
        None
    } else if links.last().0 == old {
        Some(links.last().1)
    } else {
        link_of(links.drop_last(), old)
    }
}

/// Whether some archived group is known by `key`.
pub open spec fn archive_has_key(archive: Seq<BackupGroup>, key: i64) -> bool {
    exists|k: int| 0 <= k < archive.len() && archive_key(#[trigger] archive[k]) == key
}

/// Whether `g` is placed at the root: it names no parent, or one that the
/// archive does not hold.
pub open spec fn is_root_entry(archive: Seq<BackupGroup>, g: BackupGroup) -> bool {
    match g.parent_id {
        None => true,
        Some(p) => !archive_has_key(archive, p),
    }
}

/// Whether stored group `row` has the given name and parent.
pub open spec fn group_row_matches(row: Group, name: Seq<char>, parent: Option<i64>) -> bool {
    row.name@ == name && row.parent_id == parent
}

/// Whether row `i` is the first with the given name and parent.
pub open spec fn is_first_group_match(rows: Seq<Group>, name: Seq<char>, parent: Option<i64>, i: int) -> bool {
    &&& 0 <= i < rows.len()
    &&& group_row_matches(rows[i], name, parent)
    &&& forall|j: int| 0 <= j < i ==> !group_row_matches(#[trigger] rows[j], name, parent)
}

/// The first row with the given name and parent, if any.
pub open spec fn first_group_match(rows: Seq<Group>, name: Seq<char>, parent: Option<i64>) -> Option<int> {
    if exists|i: int| is_first_group_match(rows, name, parent, i) {
        Some(choose|i: int| is_first_group_match(rows, name, parent, i))
    } else {
        None
    }
}

/// An archived timestamp, or `now` where the archive has none.
pub open spec fn stamped(t: Option<String>, now: String) -> Option<String> {
    match t {
        Some(s) => Some(s),
        None => Some(now),
    }
}

/// State of a group forest's merge: its rows, the archived-to-store
/// identifier links made so far, the next identifier, and the insert count.
pub struct GroupFold {
    pub rows: Seq<Group>,
    pub links: Seq<(i64, i64)>,
    pub next_id: i64,
    pub inserted: nat,
}

/// Merges one archived group under the resolved `parent`: the first row with
/// its name and parent takes its display attributes, or a new row is added;
/// either way its archived identifier is linked to that row.
pub open spec fn apply_group(st: GroupFold, g: BackupGroup, parent: Option<i64>, now: String) -> GroupFold {
    match first_group_match(st.rows, g.name@, parent) {
        Some(i) => GroupFold {
            rows: st.rows.update(i, Group {
                id: st.rows[i].id,
                name: st.rows[i].name,
                parent_id: st.rows[i].parent_id,
                icon: st.rows[i].icon,
                color: g.color,
                sort_order: g.sort,
                created_at: st.rows[i].created_at,
                updated_at: stamped(g.updated_at, now),
            }),
            links: st.links.push((archive_key(g), st.rows[i].id->0)),
            next_id: st.next_id,
            inserted: st.inserted,
        },
        None => GroupFold {
            rows: st.rows.push(Group {
                id: Some(st.next_id),
                name: g.name,
                parent_id: parent,
                icon: None,
                color: g.color,
                sort_order: g.sort,
                created_at: stamped(g.created_at, now),
                updated_at: stamped(g.updated_at, now),
            }),
            links: st.links.push((archive_key(g), st.next_id)),
            next_id: (st.next_id + 1) as i64,
            inserted: st.inserted + 1,
        },
    }
}

/// The first pass: the first `k` archived groups, roots only, in order.
pub open spec fn root_pass(st: GroupFold, archive: Seq<BackupGroup>, now: String, k: int) -> GroupFold
    decreases k,
{
    if k <= 0 {
        st
    } else {
        let prev = root_pass(st, archive, now, k - 1);
        if is_root_entry(archive, archive[k - 1]) {
            apply_group(prev, archive[k - 1], None, now)
        } else {
            prev
        }
    }
}

/// The children, merged in `order`, the first `k` of it, each under the
/// store identifier its parent was linked to.
pub open spec fn child_pass(st: GroupFold, archive: Seq<BackupGroup>, order: Seq<int>, now: String, k: int) -> GroupFold
    decreases k,
{
    if k <= 0 {
        st
    } else {
        let prev = child_pass(st, archive, order, now, k - 1);
        let g = archive[order[k - 1]];
        apply_group(prev, g, link_of(prev.links, parent_key(g)), now)
    }
}

/// A whole forest merged: roots first, in archive order, then the children
/// in `order`.
pub open spec fn merge_groups_spec(st: GroupFold, archive: Seq<BackupGroup>, order: Seq<int>, now: String) -> GroupFold {
    child_pass(root_pass(st, archive, now, archive.len() as int), archive, order, now, order.len() as int)
}

/// Exec state of a group forest's merge.
pub struct GroupMerge {
    pub rows: Vec<Group>,
    pub links: Vec<(i64, i64)>,
    pub next_id: i64,
    pub inserted: usize,
}

impl GroupMerge {
    pub open spec fn fold(&self) -> GroupFold {
        GroupFold { rows: self.rows@, links: self.links@, next_id: self.next_id, inserted: self.inserted as nat }
    }
}

/// The store identifier that `old` was last linked to.
pub fn link_lookup(links: &Vec<(i64, i64)>, old: i64) -> (r: Option<i64>)
    ensures
        r == link_of(links@, old),
{
    let mut i: usize = links.len();
    proof {
        assert(links@.take(i as int) =~= links@);
    }
    while i > 0
        invariant
            i <= links@.len(),
            link_of(links@, old) == link_of(links@.take(i as int), old),
        decreases i,
    {
        let (a, b) = links[i - 1];
        proof {
            assert(links@.take(i as int).drop_last() =~= links@.take(i - 1));
        }
        if a == old {
            return Some(b);
        }
        i = i - 1;
    }
    proof {
        assert(links@.take(0) =~= Seq::<(i64, i64)>::empty());
    }
    None
}

/// Linking one more identifier keeps every earlier link resolvable.
proof fn lemma_link_push(links: Seq<(i64, i64)>, a: i64, b: i64, q: i64)
    ensures
        link_of(links.push((a, b)), q) == if q == a { Some(b) } else { link_of(links, q) },
{
    assert(links.push((a, b)).drop_last() =~= links);
}

/// Whether some archived group is known by `key`.
fn has_key(archive: &Vec<BackupGroup>, key: i64) -> (r: bool)
    ensures
        r == archive_has_key(archive@, key),
{
    let mut i: usize = 0;
    while i < archive.len()
        invariant
            i <= archive@.len(),
            forall|k: int| 0 <= k < i ==> archive_key(#[trigger] archive@[k]) != key,
        decreases archive@.len() - i,
    {
        let k = match archive[i].id {
            Some(x) => x,
            None => 0,
        };
        if k == key {
            return true;
        }
        i = i + 1;
    }
    false
}

/// The first row with the given name and parent, if any.
fn find_group(rows: &Vec<Group>, name: &String, parent: Option<i64>) -> (r: Option<usize>)
    ensures
        match r {
            Some(i) => first_group_match(rows@, name@, parent) == Some(i as int),
            None => first_group_match(rows@, name@, parent) is None,
        },
{
    let mut i: usize = 0;
    while i < rows.len()
        invariant
            i <= rows@.len(),
            forall|j: int| 0 <= j < i ==> !group_row_matches(#[trigger] rows@[j], name@, parent),
        decreases rows@.len() - i,
    {
        if rows[i].name == *name && rows[i].parent_id == parent {
            proof {
                assert(is_first_group_match(rows@, name@, parent, i as int));
                let c = choose|c: int| is_first_group_match(rows@, name@, parent, c);
                if c < i {
                    assert(!group_row_matches(rows@[c], name@, parent));
                } else if c > i {
                    assert(!group_row_matches(rows@[i as int], name@, parent));
                }
            }
            return Some(i);
        }
        i = i + 1;
    }
    proof {
        if exists|c: int| is_first_group_match(rows@, name@, parent, c) {
            let c = choose|c: int| is_first_group_match(rows@, name@, parent, c);
            assert(!group_row_matches(rows@[c], name@, parent));
        }
    }
    None
}

impl GroupMerge {
    /// Merges one archived group under the resolved `parent`.
    fn apply(&mut self, g: &BackupGroup, parent: Option<i64>, now: &String)
        requires
            ids_ok(group_ids(old(self).rows@), old(self).next_id),
            old(self).next_id < i64::MAX,
            old(self).inserted < usize::MAX,
        ensures
            final(self).fold() == apply_group(old(self).fold(), *g, parent, *now),
            ids_ok(group_ids(final(self).rows@), final(self).next_id),
            final(self).next_id <= old(self).next_id + 1,
            final(self).inserted <= old(self).inserted + 1,
    {
        let key = match g.id {
            Some(x) => x,
            None => 0,
        };
        match find_group(&self.rows, &g.name, parent) {
            Some(i) => {
                let ghost before = self.rows@;
                let id = self.rows[i].id.unwrap_or(0);
                proof {
                    assert(group_ids(before)[i as int] == before[i as int].id);
                }
                let row = Group {
                    id: self.rows[i].id,
                    name: self.rows[i].name.clone(),
                    parent_id: self.rows[i].parent_id,
                    icon: copy_text(&self.rows[i].icon),
                    color: copy_text(&g.color),
                    sort_order: g.sort,
                    created_at: copy_text(&self.rows[i].created_at),
                    updated_at: match &g.updated_at {
                        Some(t) => Some(t.clone()),
                        None => Some(now.clone()),
                    },
                };
                self.rows.set(i, row);
                self.links.push((key, id));
                proof {
                    assert(group_ids(self.rows@) =~= group_ids(before));
                }
            },
            None => {
                let ghost before = self.rows@;
                let id = self.next_id;
                let row = Group {
                    id: Some(id),
                    name: g.name.clone(),
                    parent_id: parent,
                    icon: None,
                    color: copy_text(&g.color),
                    sort_order: g.sort,
                    created_at: match &g.created_at {
                        Some(t) => Some(t.clone()),
                        None => Some(now.clone()),
                    },
                    updated_at: match &g.updated_at {
                        Some(t) => Some(t.clone()),
                        None => Some(now.clone()),
                    },
                };
                self.rows.push(row);
                self.links.push((key, id));
                self.next_id = id + 1;
                self.inserted = self.inserted + 1;
                proof {
                    assert(group_ids(self.rows@) =~= group_ids(before).push(Some(id)));
                }
            },
        }
    }
}

/// Merges a whole forest: roots first, then the children in `order`, each
/// under the store identifier its parent was linked to.
pub fn merge_groups(st: &mut GroupMerge, archive: &Vec<BackupGroup>, order: &Vec<usize>, now: &String)
    requires
        ids_ok(group_ids(old(st).rows@), old(st).next_id),
        forall|t: int| 0 <= t < order@.len() ==> #[trigger] order@[t] < archive@.len(),
        root_keys(archive@, archive@.len() as int).len() + order@.len() == archive@.len(),
        old(st).next_id + archive@.len() <= i64::MAX,
        old(st).inserted + archive@.len() <= usize::MAX,
    ensures
        final(st).fold() == merge_groups_spec(old(st).fold(), archive@, indices(order@), *now),
        ids_ok(group_ids(final(st).rows@), final(st).next_id),
        final(st).next_id <= old(st).next_id + archive@.len(),
        final(st).inserted <= old(st).inserted + archive@.len(),
{
    let ghost start = st.fold();
    let n = archive.len();
    let mut i: usize = 0;
    while i < n
        invariant
            n == archive@.len(),
            i <= n,
            st.fold() == root_pass(start, archive@, *now, i as int),
            ids_ok(group_ids(st.rows@), st.next_id),
            root_keys(archive@, i as int).len() <= i,
            st.next_id <= start.next_id + root_keys(archive@, i as int).len(),
            st.inserted <= start.inserted + root_keys(archive@, i as int).len(),
            start.next_id + archive@.len() <= i64::MAX,
            start.inserted + archive@.len() <= usize::MAX,
        decreases n - i,
    {
        let g = &archive[i];
        let root = match g.parent_id {
            None => true,
            Some(p) => !has_key(archive, p),
        };
        if root {
            st.apply(g, None, now);
        }
        i = i + 1;
    }
    let ghost mid = st.fold();
    let ghost roots = root_keys(archive@, n as int).len();
    let mut t: usize = 0;
    while t < order.len()
        invariant
            n == archive@.len(),
            t <= order@.len(),
            roots + order@.len() == n,
            forall|x: int| 0 <= x < order@.len() ==> #[trigger] order@[x] < n,
            st.fold() == child_pass(mid, archive@, indices(order@), *now, t as int),
            ids_ok(group_ids(st.rows@), st.next_id),
            st.next_id <= start.next_id + roots + t,
            st.inserted <= start.inserted + roots + t,
            start.next_id + archive@.len() <= i64::MAX,
            start.inserted + archive@.len() <= usize::MAX,
        decreases order@.len() - t,
    {
        let k = order[t];
        assert(indices(order@)[t as int] == k as int);
        let g = &archive[k];
        let p = match g.parent_id {
            Some(p) => p,
            None => 0,
        };
        let parent = link_lookup(&st.links, p);
        st.apply(g, parent, now);
        t = t + 1;
    }
}

/// The store group an archived group reference resolves to, if any.
pub open spec fn resolved_group(links: Seq<(i64, i64)>, group_id: Option<i64>) -> Option<i64> {
    match group_id {
        Some(g) => link_of(links, g),
        None => None,
    }
}

/// The store group an archived group reference resolves to, if any.
fn resolve_group(links: &Vec<(i64, i64)>, group_id: Option<i64>) -> (r: Option<i64>)
    ensures
        r == resolved_group(links@, group_id),
{
    match group_id {
        Some(g) => link_lookup(links, g),
        None => None,
    }
}

/// An archived timestamp, or `now` where the archive has none.
fn stamp(t: &Option<String>, now: &String) -> (r: Option<String>)
    ensures
        r == stamped(*t, *now),
{
    match t {
        Some(s) => Some(s.clone()),
        None => Some(now.clone()),
    }
}

/// Whether stored credential `row` has the given title and username.
pub open spec fn password_row_matches(row: Password, title: Seq<char>, username: Option<Seq<char>>) -> bool {
    row.title@ == title && opt_view(row.username) == username
}

pub open spec fn is_first_password_match(rows: Seq<Password>, title: Seq<char>, username: Option<Seq<char>>, i: int) -> bool {
    &&& 0 <= i < rows.len()
    &&& password_row_matches(rows[i], title, username)
    &&& forall|j: int| 0 <= j < i ==> !password_row_matches(#[trigger] rows[j], title, username)
}

/// The first credential with the given title and username, if any.
pub open spec fn first_password_match(rows: Seq<Password>, title: Seq<char>, username: Option<Seq<char>>) -> Option<int> {
    if exists|i: int| is_first_password_match(rows, title, username, i) {
        Some(choose|i: int| is_first_password_match(rows, title, username, i))
    } else {
        None
    }
}

/// State of the credentials' merge.
pub struct PasswordFold {
    pub rows: Seq<Password>,
    pub next_id: i64,
    pub inserted: nat,
}

/// Merges one archived credential whose secret is stored as `sealed`, in
/// resolved group `group`: the first row with its title and username takes
/// its secret, url, notes and group, or a new row is added.
pub open spec fn apply_password(st: PasswordFold, b: BackupPassword, sealed: Option<String>, group: Option<i64>, now: String) -> PasswordFold {
    match first_password_match(st.rows, b.title@, opt_view(b.username)) {
        Some(i) => PasswordFold {
            rows: st.rows.update(i, Password {
                id: st.rows[i].id,
                title: st.rows[i].title,
                username: st.rows[i].username,
                password: sealed,
                url: b.url,
                notes: b.notes,
                group_id: group,
                created_at: st.rows[i].created_at,
                updated_at: stamped(b.updated_at, now),
                last_used_at: st.rows[i].last_used_at,
                use_count: st.rows[i].use_count,
                favorite: st.rows[i].favorite,
                tags: st.rows[i].tags,
            }),
            next_id: st.next_id,
            inserted: st.inserted,
        },
        None => PasswordFold {
            rows: st.rows.push(Password {
                id: Some(st.next_id),
                title: b.title,
                username: b.username,
                password: sealed,
                url: b.url,
                notes: b.notes,
                group_id: group,
                created_at: stamped(b.created_at, now),
                updated_at: stamped(b.updated_at, now),
                last_used_at: None,
                use_count: None,
                favorite: None,
                tags: None,
            }),
            next_id: (st.next_id + 1) as i64,
            inserted: st.inserted + 1,
        },
    }
}

/// The first `k` archived credentials merged in order.
pub open spec fn password_pass(
    st: PasswordFold,
    archive: Seq<BackupPassword>,
    sealed: Seq<Option<String>>,
    links: Seq<(i64, i64)>,
    now: String,
    k: int,
) -> PasswordFold
    decreases k,
{
    if k <= 0 {
        st
    } else {
        apply_password(
            password_pass(st, archive, sealed, links, now, k - 1),
            archive[k - 1],
            sealed[k - 1],
            resolved_group(links, archive[k - 1].group_id),
            now,
        )
    }
}

fn find_password(rows: &Vec<Password>, title: &String, username: &Option<String>) -> (r: Option<usize>)
    ensures
        match r {
            Some(i) => first_password_match(rows@, title@, opt_view(*username)) == Some(i as int),
            None => first_password_match(rows@, title@, opt_view(*username)) is None,
        },
{
    let ghost u = opt_view(*username);
    let mut i: usize = 0;
    while i < rows.len()
        invariant
            i <= rows@.len(),
            u == opt_view(*username),
            forall|j: int| 0 <= j < i ==> !password_row_matches(#[trigger] rows@[j], title@, u),
        decreases rows@.len() - i,
    {
        let same_user = match (&rows[i].username, username) {
            (Some(a), Some(b)) => *a == *b,
            (None, None) => true,
            _ => false,
        };
        if rows[i].title == *title && same_user {
            proof {
                assert(is_first_password_match(rows@, title@, u, i as int));
                let c = choose|c: int| is_first_password_match(rows@, title@, u, c);
                if c < i {
                    assert(!password_row_matches(rows@[c], title@, u));
                } else if c > i {
                    assert(!password_row_matches(rows@[i as int], title@, u));
                }
            }
            return Some(i);
        }
        i = i + 1;
    }
    proof {
        if exists|c: int| is_first_password_match(rows@, title@, u, c) {
            let c = choose|c: int| is_first_password_match(rows@, title@, u, c);
            assert(!password_row_matches(rows@[c], title@, u));
        }
    }
    None
}

/// Merges the archived credentials, the i-th stored with secret `sealed[i]`.
pub fn merge_passwords(
    rows: &mut Vec<Password>,
    next_id: &mut i64,
    archive: &Vec<BackupPassword>,
    sealed: &Vec<Option<String>>,
    links: &Vec<(i64, i64)>,
    now: &String,
) -> (inserted: usize)
    requires
        ids_ok(password_ids(old(rows)@), *old(next_id)),
        sealed@.len() == archive@.len(),
        *old(next_id) + archive@.len() <= i64::MAX,
    ensures
        (PasswordFold { rows: final(rows)@, next_id: *final(next_id), inserted: inserted as nat })
            == password_pass((PasswordFold { rows: old(rows)@, next_id: *old(next_id), inserted: 0 }),
                archive@, sealed@, links@, *now, archive@.len() as int),
        ids_ok(password_ids(final(rows)@), *final(next_id)),
        inserted <= archive@.len(),
{
    let ghost start = PasswordFold { rows: rows@, next_id: *next_id, inserted: 0 };
    let mut inserted: usize = 0;
    let mut i: usize = 0;
    while i < archive.len()
        invariant
            i <= archive@.len(),
            sealed@.len() == archive@.len(),
            (PasswordFold { rows: rows@, next_id: *next_id, inserted: inserted as nat })
                == password_pass(start, archive@, sealed@, links@, *now, i as int),
            ids_ok(password_ids(rows@), *next_id),
            inserted <= i,
            *next_id <= start.next_id + i,
            start.next_id + archive@.len() <= i64::MAX,
        decreases archive@.len() - i,
    {
        let b = &archive[i];
        let group = resolve_group(links, b.group_id);
        let ghost before = rows@;
        match find_password(rows, &b.title, &b.username) {
            Some(k) => {
                let row = Password {
                    id: rows[k].id,
                    title: rows[k].title.clone(),
                    username: copy_text(&rows[k].username),
                    password: copy_text(&sealed[i]),
                    url: copy_text(&b.url),
                    notes: copy_text(&b.notes),
                    group_id: group,
                    created_at: copy_text(&rows[k].created_at),
                    updated_at: stamp(&b.updated_at, now),
                    last_used_at: copy_text(&rows[k].last_used_at),
                    use_count: rows[k].use_count,
                    favorite: rows[k].favorite,
                    tags: copy_text(&rows[k].tags),
                };
                rows.set(k, row);
                proof {
                    assert(password_ids(rows@) =~= password_ids(before));
                }
            },
            None => {
                let id = *next_id;
                let row = Password {
                    id: Some(id),
                    title: b.title.clone(),
                    username: copy_text(&b.username),
                    password: copy_text(&sealed[i]),
                    url: copy_text(&b.url),
                    notes: copy_text(&b.notes),
                    group_id: group,
                    created_at: stamp(&b.created_at, now),
                    updated_at: stamp(&b.updated_at, now),
                    last_used_at: None,
                    use_count: None,
                    favorite: None,
                    tags: None,
                };
                rows.push(row);
                *next_id = id + 1;
                inserted = inserted + 1;
                proof {
                    assert(password_ids(rows@) =~= password_ids(before).push(Some(id)));
                }
            },
        }
        i = i + 1;
    }
    inserted
}

/// Whether stored note `row` has the given title and group.
pub open spec fn note_row_matches(row: SecureRecord, title: Seq<char>, group: Option<i64>) -> bool {
    row.title@ == title && row.group_id == group
}

pub open spec fn is_first_note_match(rows: Seq<SecureRecord>, title: Seq<char>, group: Option<i64>, i: int) -> bool {
    &&& 0 <= i < rows.len()
    &&& note_row_matches(rows[i], title, group)
    &&& forall|j: int| 0 <= j < i ==> !note_row_matches(#[trigger] rows[j], title, group)
}

/// The first note with the given title and group, if any.
pub open spec fn first_note_match(rows: Seq<SecureRecord>, title: Seq<char>, group: Option<i64>) -> Option<int> {
    if exists|i: int| is_first_note_match(rows, title, group, i) {
        Some(choose|i: int| is_first_note_match(rows, title, group, i))
    } else {
        None
    }
}

/// State of the notes' merge.
pub struct NoteFold {
    pub rows: Seq<SecureRecord>,
    pub next_id: i64,
    pub inserted: nat,
}

/// Merges one archived note whose body is stored as `sealed`, in resolved
/// group `group`: the first row with its title and group takes its body and
/// flags, or a new row is added.
pub open spec fn apply_note(st: NoteFold, b: BackupNote, sealed: Option<String>, group: Option<i64>, now: String) -> NoteFold {
    match first_note_match(st.rows, b.title@, group) {
        Some(i) => NoteFold {
            rows: st.rows.update(i, SecureRecord {
                id: st.rows[i].id,
                title: st.rows[i].title,
                content: sealed,
                group_id: st.rows[i].group_id,
                pinned: Some(b.pinned),
                archived: Some(b.archived),
                created_at: st.rows[i].created_at,
                updated_at: stamped(b.updated_at, now),
            }),
            next_id: st.next_id,
            inserted: st.inserted,
        },
        None => NoteFold {
            rows: st.rows.push(SecureRecord {
                id: Some(st.next_id),
                title: b.title,
                content: sealed,
                group_id: group,
                pinned: Some(b.pinned),
                archived: Some(b.archived),
                created_at: stamped(b.created_at, now),
                updated_at: stamped(b.updated_at, now),
            }),
            next_id: (st.next_id + 1) as i64,
            inserted: st.inserted + 1,
        },
    }
}

/// The first `k` archived notes merged in order.
pub open spec fn note_pass(
    st: NoteFold,
    archive: Seq<BackupNote>,
    sealed: Seq<Option<String>>,
    links: Seq<(i64, i64)>,
    now: String,
    k: int,
) -> NoteFold
    decreases k,
{
    if k <= 0 {
        st
    } else {
        apply_note(
            note_pass(st, archive, sealed, links, now, k - 1),
            archive[k - 1],
            sealed[k - 1],
            resolved_group(links, archive[k - 1].group_id),
            now,
        )
    }
}

fn find_note(rows: &Vec<SecureRecord>, title: &String, group: Option<i64>) -> (r: Option<usize>)
    ensures
        match r {
            Some(i) => first_note_match(rows@, title@, group) == Some(i as int),
            None => first_note_match(rows@, title@, group) is None,
        },
{
    let mut i: usize = 0;
    while i < rows.len()
        invariant
            i <= rows@.len(),
            forall|j: int| 0 <= j < i ==> !note_row_matches(#[trigger] rows@[j], title@, group),
        decreases rows@.len() - i,
    {
        if rows[i].title == *title && rows[i].group_id == group {
            proof {
                assert(is_first_note_match(rows@, title@, group, i as int));
                let c = choose|c: int| is_first_note_match(rows@, title@, group, c);
                if c < i {
                    assert(!note_row_matches(rows@[c], title@, group));
                } else if c > i {
                    assert(!note_row_matches(rows@[i as int], title@, group));
                }
            }
            return Some(i);
        }
        i = i + 1;
    }
    proof {
        if exists|c: int| is_first_note_match(rows@, title@, group, c) {
            let c = choose|c: int| is_first_note_match(rows@, title@, group, c);
            assert(!note_row_matches(rows@[c], title@, group));
        }
    }
    None
}

/// Merges the archived notes, the i-th stored with body `sealed[i]`.
pub fn merge_notes(
    rows: &mut Vec<SecureRecord>,
    next_id: &mut i64,
    archive: &Vec<BackupNote>,
    sealed: &Vec<Option<String>>,
    links: &Vec<(i64, i64)>,
    now: &String,
) -> (inserted: usize)
    requires
        ids_ok(note_ids(old(rows)@), *old(next_id)),
        sealed@.len() == archive@.len(),
        *old(next_id) + archive@.len() <= i64::MAX,
    ensures
        (NoteFold { rows: final(rows)@, next_id: *final(next_id), inserted: inserted as nat })
            == note_pass((NoteFold { rows: old(rows)@, next_id: *old(next_id), inserted: 0 }),
                archive@, sealed@, links@, *now, archive@.len() as int),
        ids_ok(note_ids(final(rows)@), *final(next_id)),
        inserted <= archive@.len(),
{
    let ghost start = NoteFold { rows: rows@, next_id: *next_id, inserted: 0 };
    let mut inserted: usize = 0;
    let mut i: usize = 0;
    while i < archive.len()
        invariant
            i <= archive@.len(),
            sealed@.len() == archive@.len(),
            (NoteFold { rows: rows@, next_id: *next_id, inserted: inserted as nat })
                == note_pass(start, archive@, sealed@, links@, *now, i as int),
            ids_ok(note_ids(rows@), *next_id),
            inserted <= i,
            *next_id <= start.next_id + i,
            start.next_id + archive@.len() <= i64::MAX,
        decreases archive@.len() - i,
    {
        let b = &archive[i];
        let group = resolve_group(links, b.group_id);
        let ghost before = rows@;
        match find_note(rows, &b.title, group) {
            Some(k) => {
                let row = SecureRecord {
                    id: rows[k].id,
                    title: rows[k].title.clone(),
                    content: copy_text(&sealed[i]),
                    group_id: rows[k].group_id,
                    pinned: Some(b.pinned),
                    archived: Some(b.archived),
                    created_at: copy_text(&rows[k].created_at),
                    updated_at: stamp(&b.updated_at, now),
                };
                rows.set(k, row);
                proof {
                    assert(note_ids(rows@) =~= note_ids(before));
                }
            },
            None => {
                let id = *next_id;
                let row = SecureRecord {
                    id: Some(id),
                    title: b.title.clone(),
                    content: copy_text(&sealed[i]),
                    group_id: group,
                    pinned: Some(b.pinned),
                    archived: Some(b.archived),
                    created_at: stamp(&b.created_at, now),
                    updated_at: stamp(&b.updated_at, now),
                };
                rows.push(row);
                *next_id = id + 1;
                inserted = inserted + 1;
                proof {
                    assert(note_ids(rows@) =~= note_ids(before).push(Some(id)));
                }
            },
        }
        i = i + 1;
    }
    inserted
}

/// The text reported for an archived setting that was skipped.
pub open spec fn skipped_setting_message(key: Seq<char>) -> Seq<char> {
    "setting '"@ + key + "' skipped: its type conflicts with the stored setting"@
}

/// Whether archived setting `b` conflicts with stored setting `row` of the
/// same key: both carry a type tag, and the tags differ.
pub open spec fn setting_conflicts(row: UserSetting, b: BackupSetting) -> bool {
    match (row.setting_type, b.setting_type) {
        (Some(t), Some(u)) => t@ != u@,
        _ => false,
    }
}

/// Whether stored setting `row` has the given key.
pub open spec fn setting_row_matches(row: UserSetting, key: Seq<char>) -> bool {
    row.key@ == key
}

pub open spec fn is_first_setting_match(rows: Seq<UserSetting>, key: Seq<char>, i: int) -> bool {
    &&& 0 <= i < rows.len()
    &&& setting_row_matches(rows[i], key)
    &&& forall|j: int| 0 <= j < i ==> !setting_row_matches(#[trigger] rows[j], key)
}

/// The first setting with the given key, if any.
pub open spec fn first_setting_match(rows: Seq<UserSetting>, key: Seq<char>) -> Option<int> {
    if exists|i: int| is_first_setting_match(rows, key, i) {
        Some(choose|i: int| is_first_setting_match(rows, key, i))
    } else {
        None
    }
}

/// State of the settings' merge, with the messages of skipped settings.
pub struct SettingFold {
    pub rows: Seq<UserSetting>,
    pub next_id: i64,
    pub inserted: nat,
    pub skipped: Seq<Seq<char>>,
}

/// Merges one archived setting: a stored setting of the same key takes its
/// value, type, category and description unless the types conflict, in which
/// case it is skipped and reported; a new key is inserted.
pub open spec fn apply_setting(st: SettingFold, b: BackupSetting, now: String) -> SettingFold {
    match first_setting_match(st.rows, b.key@) {
        Some(i) => if setting_conflicts(st.rows[i], b) {
            SettingFold {
                rows: st.rows,
                next_id: st.next_id,
                inserted: st.inserted,
                skipped: st.skipped.push(skipped_setting_message(b.key@)),
            }
        } else {
            SettingFold {
                rows: st.rows.update(i, UserSetting {
                    id: st.rows[i].id,
                    key: st.rows[i].key,
                    value: b.value,
                    setting_type: b.setting_type,
                    category: b.category,
                    description: b.description,
                    created_at: st.rows[i].created_at,
                    updated_at: stamped(b.updated_at, now),
                }),
                next_id: st.next_id,
                inserted: st.inserted,
                skipped: st.skipped,
            }
        },
        None => SettingFold {
            rows: st.rows.push(UserSetting {
                id: Some(st.next_id),
                key: b.key,
                value: b.value,
                setting_type: b.setting_type,
                category: b.category,
                description: b.description,
                created_at: stamped(b.created_at, now),
                updated_at: stamped(b.updated_at, now),
            }),
            next_id: (st.next_id + 1) as i64,
            inserted: st.inserted + 1,
            skipped: st.skipped,
        },
    }
}

/// The first `k` archived settings merged in order.
pub open spec fn setting_pass(st: SettingFold, archive: Seq<BackupSetting>, now: String, k: int) -> SettingFold
    decreases k,
{
    if k <= 0 {
        st
    } else {
        apply_setting(setting_pass(st, archive, now, k - 1), archive[k - 1], now)
    }
}

fn find_setting(rows: &Vec<UserSetting>, key: &String) -> (r: Option<usize>)
    ensures
        match r {
            Some(i) => first_setting_match(rows@, key@) == Some(i as int),
            None => first_setting_match(rows@, key@) is None
                && forall|j: int| 0 <= j < rows@.len() ==> !setting_row_matches(#[trigger] rows@[j], key@),
        },
{
    let mut i: usize = 0;
    while i < rows.len()
        invariant
            i <= rows@.len(),
            forall|j: int| 0 <= j < i ==> !setting_row_matches(#[trigger] rows@[j], key@),
        decreases rows@.len() - i,
    {
        if rows[i].key == *key {
            proof {
                assert(is_first_setting_match(rows@, key@, i as int));
                let c = choose|c: int| is_first_setting_match(rows@, key@, c);
                if c < i {
                    assert(!setting_row_matches(rows@[c], key@));
                } else if c > i {
                    assert(!setting_row_matches(rows@[i as int], key@));
                }
            }
            return Some(i);
        }
        i = i + 1;
    }
    proof {
        if exists|c: int| is_first_setting_match(rows@, key@, c) {
            let c = choose|c: int| is_first_setting_match(rows@, key@, c);
            assert(!setting_row_matches(rows@[c], key@));
        }
    }
    None
}

/// The views of a list of messages.
pub open spec fn texts(v: Seq<String>) -> Seq<Seq<char>> {
    v.map_values(|s: String| s@)
}

/// Merges the archived settings; each skipped one adds its message to
/// `errors`.
pub fn merge_settings(
    rows: &mut Vec<UserSetting>,
    next_id: &mut i64,
    errors: &mut Vec<String>,
    archive: &Vec<BackupSetting>,
    now: &String,
) -> (inserted: usize)
    requires
        ids_ok(setting_ids(old(rows)@), *old(next_id)),
        setting_keys_unique(old(rows)@),
        *old(next_id) + archive@.len() <= i64::MAX,
    ensures
        setting_keys_unique(final(rows)@),
        (SettingFold { rows: final(rows)@, next_id: *final(next_id), inserted: inserted as nat, skipped: texts(final(errors)@) })
            == setting_pass((SettingFold { rows: old(rows)@, next_id: *old(next_id), inserted: 0, skipped: texts(old(errors)@) }),
                archive@, *now, archive@.len() as int),
        ids_ok(setting_ids(final(rows)@), *final(next_id)),
        inserted + final(errors)@.len() <= old(errors)@.len() + archive@.len(),
        old(errors)@.len() <= final(errors)@.len(),
{
    let ghost start = SettingFold { rows: rows@, next_id: *next_id, inserted: 0, skipped: texts(errors@) };
    let ghost errors_start = errors@.len();
    let mut inserted: usize = 0;
    let mut i: usize = 0;
    while i < archive.len()
        invariant
            i <= archive@.len(),
            (SettingFold { rows: rows@, next_id: *next_id, inserted: inserted as nat, skipped: texts(errors@) })
                == setting_pass(start, archive@, *now, i as int),
            ids_ok(setting_ids(rows@), *next_id),
            setting_keys_unique(rows@),
            inserted + errors@.len() <= errors_start + i,
            errors_start <= errors@.len(),
            *next_id <= start.next_id + i,
            start.next_id + archive@.len() <= i64::MAX,
        decreases archive@.len() - i,
    {
        let b = &archive[i];
        let ghost before = rows@;
        let ghost errors_before = errors@;
        match find_setting(rows, &b.key) {
            Some(k) => {
                let conflict = match (&rows[k].setting_type, &b.setting_type) {
                    (Some(t), Some(u)) => *t != *u,
                    _ => false,
                };
                if conflict {
                    let msg = String::from_str("setting '").concat(b.key.as_str()).concat(
                        "' skipped: its type conflicts with the stored setting",
                    );
                    errors.push(msg);
                    proof {
                        assert(texts(errors@) =~= texts(errors_before).push(skipped_setting_message(b.key@)));
                    }
                } else {
                    let row = UserSetting {
                        id: rows[k].id,
                        key: rows[k].key.clone(),
                        value: b.value.clone(),
                        setting_type: copy_text(&b.setting_type),
                        category: copy_text(&b.category),
                        description: copy_text(&b.description),
                        created_at: copy_text(&rows[k].created_at),
                        updated_at: stamp(&b.updated_at, now),
                    };
                    rows.set(k, row);
                    proof {
                        assert(setting_ids(rows@) =~= setting_ids(before));
                        assert forall|a: int, b: int| 0 <= a < b < rows@.len() implies
                            (#[trigger] rows@[a]).key@ != (#[trigger] rows@[b]).key@ by {
                            assert(before[a].key@ != before[b].key@);
                        }
                    }
                }
            },
            None => {
                let id = *next_id;
                let row = UserSetting {
                    id: Some(id),
                    key: b.key.clone(),
                    value: b.value.clone(),
                    setting_type: copy_text(&b.setting_type),
                    category: copy_text(&b.category),
                    description: copy_text(&b.description),
                    created_at: stamp(&b.created_at, now),
                    updated_at: stamp(&b.updated_at, now),
                };
                rows.push(row);
                *next_id = id + 1;
                inserted = inserted + 1;
                proof {
                    assert(setting_ids(rows@) =~= setting_ids(before).push(Some(id)));
                    assert forall|x: int, y: int| 0 <= x < y < rows@.len() implies
                        (#[trigger] rows@[x]).key@ != (#[trigger] rows@[y]).key@ by {
                        if y == before.len() {
                            assert(!setting_row_matches(before[x], b.key@));
                        } else {
                            assert(before[x].key@ != before[y].key@);
                        }
                    }
                }
            },
        }
        i = i + 1;
    }
    inserted
}

} // verus!
