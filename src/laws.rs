//! Properties of the merge engine that relate several of its steps, stated
//! over the spec functions that the engine's own contracts use:
//! hierarchy integrity of a merged forest, idempotence of a second import,
//! and the round trip of a snapshot through an import and an export.
use vstd::prelude::*;
use crate::merge::{
    apply_group, archive_key, child_pass, first_group_match, group_row_matches,
    is_first_group_match, is_root_entry, link_of, merge_groups_spec, root_pass, GroupFold,
    apply_password, apply_note, apply_setting, first_password_match, first_note_match, first_setting_match,
    is_first_password_match, is_first_note_match, is_first_setting_match, password_row_matches, note_row_matches,
    setting_row_matches, password_pass, note_pass, setting_pass, resolved_group, PasswordFold, NoteFold, SettingFold,
};
use crate::models::{Group, Password, SecureRecord, SecureRecordGroup, UserSetting};
use crate::import::{group_as_note_group, group_order, merge_outcome, note_group_as_group, passwords_sealed, store_holds};
use crate::store::VaultStore;
use crate::resolve::{
    lemma_resolution_complete, lemma_resolution_valid, parent_key, parent_placed_before, resolution_order, root_keys,
    valid_order,
};
use crate::snapshot::{opt_view, password_archived, revealed, snapshot_of, BackupGroup, BackupNote, BackupPassword, BackupSetting, Snapshot};

verus! {

/// Whether no two archived groups are known by the same identifier.
pub open spec fn archive_keys_unique(archive: Seq<BackupGroup>) -> bool {
    forall|i: int, j: int|
        0 <= i < archive.len() && 0 <= j < archive.len() && i != j
            ==> archive_key(#[trigger] archive[i]) != archive_key(#[trigger] archive[j])
}

/// Whether `rows` hold a row with identifier `id`, name `name` and parent `parent`.
pub open spec fn row_linked(rows: Seq<Group>, id: i64, name: Seq<char>, parent: Option<i64>) -> bool {
    exists|i: int| 0 <= i < rows.len() && (#[trigger] rows[i]).id == Some(id) && rows[i].name@ == name
        && rows[i].parent_id == parent
}

/// The parent a merged archived group is placed under, read through `links`.
pub open spec fn placed_parent(links: Seq<(i64, i64)>, archive: Seq<BackupGroup>, g: BackupGroup) -> Option<i64> {
    if is_root_entry(archive, g) {
        None
    } else {
        link_of(links, g.parent_id->0)
    }
}

/// What holds of a forest's merge once the groups in `done` are merged.
pub open spec fn linked_so_far(st: GroupFold, archive: Seq<BackupGroup>, done: spec_fn(int) -> bool) -> bool {
    &&& forall|i: int| 0 <= i < st.rows.len() ==> (#[trigger] st.rows[i]).id is Some
    &&& forall|j: int| 0 <= j < archive.len() && #[trigger] done(j) ==> {
        &&& link_of(st.links, archive_key(archive[j])) is Some
        &&& row_linked(st.rows, link_of(st.links, archive_key(archive[j]))->0, archive[j].name@,
            placed_parent(st.links, archive, archive[j]))
    }
    &&& forall|q: i64| (forall|j: int| 0 <= j < archive.len() && #[trigger] done(j) ==> archive_key(archive[j]) != q)
        ==> #[trigger] link_of(st.links, q) is None
    &&& forall|j: int| 0 <= j < archive.len() && #[trigger] done(j) && !is_root_entry(archive, archive[j]) ==>
        exists|m: int| 0 <= m < archive.len() && done(m) && #[trigger] archive_key(archive[m]) == archive[j].parent_id->0
}

proof fn lemma_link_push(links: Seq<(i64, i64)>, a: i64, b: i64, q: i64)
    ensures
        link_of(links.push((a, b)), q) == if q == a { Some(b) } else { link_of(links, q) },
{
    assert(links.push((a, b)).drop_last() =~= links);
}

/// Merging one more group keeps what was linked and links the new one.
proof fn lemma_apply_step(
    st: GroupFold,
    archive: Seq<BackupGroup>,
    done: spec_fn(int) -> bool,
    m: int,
    parent: Option<i64>,
    now: String,
)
    requires
        archive_keys_unique(archive),
        0 <= m < archive.len(),
        !done(m),
        linked_so_far(st, archive, done),
        is_root_entry(archive, archive[m]) ==> parent is None,
        !is_root_entry(archive, archive[m]) ==> parent == link_of(st.links, archive[m].parent_id->0)
            && exists|x: int| 0 <= x < archive.len() && done(x) && #[trigger] archive_key(archive[x]) == archive[m].parent_id->0,
    ensures
        linked_so_far(apply_group(st, archive[m], parent, now), archive, |j: int| done(j) || j == m),
{
    let g = archive[m];
    let next = apply_group(st, g, parent, now);
    let done2 = |j: int| done(j) || j == m;
    let key = archive_key(g);
    let v = next.links.last().1;
    assert(next.links =~= st.links.push((key, v)));
    assert forall|q: i64| q != key implies link_of(next.links, q) == link_of(st.links, q) by {
        lemma_link_push(st.links, key, v, q);
    }
    lemma_link_push(st.links, key, v, key);
    // every earlier row keeps its identifier, name and parent
    assert forall|i: int| 0 <= i < st.rows.len() implies
        (#[trigger] next.rows[i]).id == st.rows[i].id && next.rows[i].name == st.rows[i].name
            && next.rows[i].parent_id == st.rows[i].parent_id by {
    }
    assert(forall|i: int| 0 <= i < next.rows.len() ==> (#[trigger] next.rows[i]).id is Some);
    // the new group's row
    assert(row_linked(next.rows, v, g.name@, parent)) by {
        match crate::merge::first_group_match(st.rows, g.name@, parent) {
            Some(i) => {
                let c = choose|c: int| crate::merge::is_first_group_match(st.rows, g.name@, parent, c);
                assert(next.rows[c].id == Some(v));
            },
            None => {
                assert(next.rows[st.rows.len() as int].id == Some(v));
            },
        }
    }
    if !is_root_entry(archive, g) {
        let x = choose|x: int| 0 <= x < archive.len() && done(x) && #[trigger] archive_key(archive[x]) == g.parent_id->0;
        assert(x != m);
        assert(g.parent_id->0 != key);
    }
    assert(placed_parent(next.links, archive, g) == parent);
    assert forall|j: int| 0 <= j < archive.len() && #[trigger] done2(j) implies {
        &&& link_of(next.links, archive_key(archive[j])) is Some
        &&& row_linked(next.rows, link_of(next.links, archive_key(archive[j]))->0, archive[j].name@,
            placed_parent(next.links, archive, archive[j]))
    } by {
        if j != m {
            assert(done(j));
            assert(archive_key(archive[j]) != key);
            let w = link_of(st.links, archive_key(archive[j]))->0;
            let i = choose|i: int| 0 <= i < st.rows.len() && (#[trigger] st.rows[i]).id == Some(w)
                && st.rows[i].name@ == archive[j].name@ && st.rows[i].parent_id == placed_parent(st.links, archive, archive[j]);
            if !is_root_entry(archive, archive[j]) {
                let y = choose|y: int| 0 <= y < archive.len() && done(y) && #[trigger] archive_key(archive[y]) == archive[j].parent_id->0;
                assert(y != m);
                assert(archive[j].parent_id->0 != key);
            }
            assert(next.rows[i].id == Some(w));
        }
    }
    assert forall|q: i64| (forall|j: int| 0 <= j < archive.len() && #[trigger] done2(j) ==> archive_key(archive[j]) != q)
        implies #[trigger] link_of(next.links, q) is None by {
        assert(done2(m));
        assert(q != key);
        assert forall|j: int| 0 <= j < archive.len() && #[trigger] done(j) implies archive_key(archive[j]) != q by {
            assert(done2(j));
        }
    }
    assert forall|j: int| 0 <= j < archive.len() && #[trigger] done2(j) && !is_root_entry(archive, archive[j]) implies
        exists|x: int| 0 <= x < archive.len() && done2(x) && #[trigger] archive_key(archive[x]) == archive[j].parent_id->0 by {
        if j != m {
            let y = choose|y: int| 0 <= y < archive.len() && done(y) && #[trigger] archive_key(archive[y]) == archive[j].parent_id->0;
            assert(done2(y));
        } else {
            let y = choose|y: int| 0 <= y < archive.len() && done(y) && #[trigger] archive_key(archive[y]) == archive[m].parent_id->0;
            assert(done2(y));
        }
    }
}

/// Only which archived groups are merged matters, not how the set is written.
proof fn lemma_done_agree(st: GroupFold, archive: Seq<BackupGroup>, d1: spec_fn(int) -> bool, d2: spec_fn(int) -> bool)
    requires
        linked_so_far(st, archive, d1),
        forall|j: int| 0 <= j < archive.len() ==> #[trigger] d1(j) == d2(j),
    ensures
        linked_so_far(st, archive, d2),
{
    assert forall|j: int| 0 <= j < archive.len() && #[trigger] d2(j) implies {
        &&& link_of(st.links, archive_key(archive[j])) is Some
        &&& row_linked(st.rows, link_of(st.links, archive_key(archive[j]))->0, archive[j].name@,
            placed_parent(st.links, archive, archive[j]))
    } by {
        assert(d1(j));
    }
    assert forall|q: i64| (forall|j: int| 0 <= j < archive.len() && #[trigger] d2(j) ==> archive_key(archive[j]) != q)
        implies #[trigger] link_of(st.links, q) is None by {
        assert forall|j: int| 0 <= j < archive.len() && #[trigger] d1(j) implies archive_key(archive[j]) != q by {
            assert(d2(j));
        }
    }
    assert forall|j: int| 0 <= j < archive.len() && #[trigger] d2(j) && !is_root_entry(archive, archive[j]) implies
        exists|x: int| 0 <= x < archive.len() && d2(x) && #[trigger] archive_key(archive[x]) == archive[j].parent_id->0 by {
        assert(d1(j));
        let y = choose|y: int| 0 <= y < archive.len() && d1(y) && #[trigger] archive_key(archive[y]) == archive[j].parent_id->0;
        assert(d2(y));
    }
}

proof fn lemma_root_pass(st: GroupFold, archive: Seq<BackupGroup>, now: String, k: int)
    requires
        archive_keys_unique(archive),
        0 <= k <= archive.len(),
        st.links.len() == 0,
        forall|i: int| 0 <= i < st.rows.len() ==> (#[trigger] st.rows[i]).id is Some,
    ensures
        linked_so_far(root_pass(st, archive, now, k), archive, |j: int| j < k && is_root_entry(archive, archive[j])),
    decreases k,
{
    let done = |j: int| j < k && is_root_entry(archive, archive[j]);
    if k == 0 {
        assert(st.links =~= Seq::<(i64, i64)>::empty());
        assert forall|q: i64| #[trigger] link_of(st.links, q) is None by {}
    } else {
        lemma_root_pass(st, archive, now, k - 1);
        let prev_done = |j: int| j < k - 1 && is_root_entry(archive, archive[j]);
        let prev = root_pass(st, archive, now, k - 1);
        if is_root_entry(archive, archive[k - 1]) {
            lemma_apply_step(prev, archive, prev_done, k - 1, None, now);
            let d2 = |j: int| prev_done(j) || j == k - 1;
            assert(linked_so_far(root_pass(st, archive, now, k), archive, d2));
            assert(d2 =~= done);
        } else {
            assert(prev_done =~= done);
        }
    }
}

proof fn lemma_child_pass(mid: GroupFold, archive: Seq<BackupGroup>, order: Seq<int>, now: String, k: int)
    requires
        archive_keys_unique(archive),
        valid_order(archive, order),
        0 <= k <= order.len(),
        linked_so_far(mid, archive, |j: int| is_root_entry(archive, archive[j])),
    ensures
        linked_so_far(child_pass(mid, archive, order, now, k), archive,
            |j: int| is_root_entry(archive, archive[j]) || exists|s: int| 0 <= s < k && order[s] == j),
    decreases k,
{
    let done = |j: int| is_root_entry(archive, archive[j]) || exists|s: int| 0 <= s < k && order[s] == j;
    if k == 0 {
        lemma_done_agree(mid, archive, |j: int| is_root_entry(archive, archive[j]), done);
    } else {
        lemma_child_pass(mid, archive, order, now, k - 1);
        let prev_done = |j: int| is_root_entry(archive, archive[j]) || exists|s: int| 0 <= s < k - 1 && order[s] == j;
        let prev = child_pass(mid, archive, order, now, k - 1);
        let m = order[k - 1];
        let g = archive[m];
        assert(0 <= m < archive.len() && !is_root_entry(archive, g));
        assert(!prev_done(m)) by {
            if exists|s: int| 0 <= s < k - 1 && order[s] == m {
                let s = choose|s: int| 0 <= s < k - 1 && order[s] == m;
                assert(order[s] != order[k - 1]);
            }
        }
        assert(parent_placed_before(archive, order, k - 1));
        let x = choose|x: int| 0 <= x < archive.len()
            && archive_key(#[trigger] archive[x]) == parent_key(archive[order[k - 1]])
            && (is_root_entry(archive, archive[x]) || exists|s: int| 0 <= s < k - 1 && #[trigger] order[s] == x);
        assert(prev_done(x));
        assert(parent_key(g) == g.parent_id->0);
        lemma_apply_step(prev, archive, prev_done, m, link_of(prev.links, parent_key(g)), now);
        let d2 = |j: int| prev_done(j) || j == m;
        assert forall|j: int| 0 <= j < archive.len() implies #[trigger] d2(j) == done(j) by {
            if exists|s: int| 0 <= s < k && order[s] == j {
                let s = choose|s: int| 0 <= s < k && order[s] == j;
                if s < k - 1 {
                    assert(prev_done(j));
                }
            }
            if j == m {
                assert(done(j));
            }
        }
        lemma_done_agree(child_pass(mid, archive, order, now, k), archive, d2, done);
    }
}

/// Hierarchy integrity: after a forest is merged from an empty link table,
/// roots first and then the children in an order that places each after
/// its parent (as the resolution order does), every archived child group is
/// linked to a row whose parent is the row linked to its archived parent,
/// and that row carries the parent's name.
pub proof fn lemma_hierarchy_integrity(st: GroupFold, archive: Seq<BackupGroup>, order: Seq<int>, now: String, k: int)
    requires
        forall|i: int| 0 <= i < st.rows.len() ==> (#[trigger] st.rows[i]).id is Some,
        st.links.len() == 0,
        valid_order(archive, order),
        archive_keys_unique(archive),
        0 <= k < archive.len(),
        !is_root_entry(archive, archive[k]),
    ensures
        ({
            let end = merge_groups_spec(st, archive, order, now);
            let child = link_of(end.links, archive_key(archive[k]));
            let parent = link_of(end.links, archive[k].parent_id->0);
            &&& child is Some
            &&& parent is Some
            &&& row_linked(end.rows, child->0, archive[k].name@, parent)
            &&& exists|j: int| 0 <= j < archive.len() && #[trigger] archive_key(archive[j]) == archive[k].parent_id->0
                && row_linked(end.rows, parent->0, archive[j].name@, placed_parent(end.links, archive, archive[j]))
        }),
{
    let n = archive.len() as int;
    lemma_root_pass(st, archive, now, n);
    let mid = root_pass(st, archive, now, n);
    lemma_done_agree(mid, archive, |j: int| j < n && is_root_entry(archive, archive[j]),
        |j: int| is_root_entry(archive, archive[j]));
    lemma_child_pass(mid, archive, order, now, order.len() as int);
    let done = |j: int| is_root_entry(archive, archive[j]) || exists|s: int| 0 <= s < order.len() && order[s] == j;
    assert(order.contains(k));
    assert(done(k));
    let m = choose|m: int| 0 <= m < archive.len() && done(m) && #[trigger] archive_key(archive[m]) == archive[k].parent_id->0;
    assert(done(m));
}

/// Whether two group rows agree on identifier, name and parent.
pub open spec fn same_key(a: Group, b: Group) -> bool {
    a.id == b.id && a.name@ == b.name@ && a.parent_id == b.parent_id
}

/// Whether `a` agrees with the start of `b` on every row's identifier, name
/// and parent.
pub open spec fn key_prefix(a: Seq<Group>, b: Seq<Group>) -> bool {
    a.len() <= b.len() && forall|i: int| 0 <= i < a.len() ==> same_key(#[trigger] a[i], b[i])
}

proof fn lemma_first_match_is(rows: Seq<Group>, name: Seq<char>, parent: Option<i64>, i: int)
    requires
        is_first_group_match(rows, name, parent, i),
    ensures
        first_group_match(rows, name, parent) == Some(i),
{
    let c = choose|c: int| is_first_group_match(rows, name, parent, c);
    if c < i {
        assert(!group_row_matches(rows[c], name, parent));
    } else if c > i {
        assert(!group_row_matches(rows[i], name, parent));
    }
}

proof fn lemma_apply_keeps_keys(st: GroupFold, g: BackupGroup, parent: Option<i64>, now: String)
    ensures
        key_prefix(st.rows, apply_group(st, g, parent, now).rows),
        apply_group(st, g, parent, now).rows.len() <= st.rows.len() + 1,
{
}

proof fn lemma_key_prefix_trans(a: Seq<Group>, b: Seq<Group>, c: Seq<Group>)
    requires
        key_prefix(a, b),
        key_prefix(b, c),
    ensures
        key_prefix(a, c),
{
    assert forall|i: int| 0 <= i < a.len() implies same_key(#[trigger] a[i], c[i]) by {
        assert(same_key(a[i], b[i]));
        assert(same_key(b[i], c[i]));
    }
}

proof fn lemma_root_pass_prefix(st: GroupFold, archive: Seq<BackupGroup>, now: String, k: int, n: int)
    requires
        0 <= k <= n,
    ensures
        key_prefix(root_pass(st, archive, now, k).rows, root_pass(st, archive, now, n).rows),
    decreases n - k,
{
    if k < n {
        lemma_root_pass_prefix(st, archive, now, k, n - 1);
        let prev = root_pass(st, archive, now, n - 1);
        if is_root_entry(archive, archive[n - 1]) {
            lemma_apply_keeps_keys(prev, archive[n - 1], None, now);
        }
        lemma_key_prefix_trans(root_pass(st, archive, now, k).rows, prev.rows, root_pass(st, archive, now, n).rows);
    }
}

proof fn lemma_child_pass_prefix(st: GroupFold, archive: Seq<BackupGroup>, order: Seq<int>, now: String, k: int, n: int)
    requires
        0 <= k <= n,
    ensures
        key_prefix(child_pass(st, archive, order, now, k).rows, child_pass(st, archive, order, now, n).rows),
    decreases n - k,
{
    if k < n {
        lemma_child_pass_prefix(st, archive, order, now, k, n - 1);
        let prev = child_pass(st, archive, order, now, n - 1);
        let g = archive[order[n - 1]];
        lemma_apply_keeps_keys(prev, g, link_of(prev.links, parent_key(g)), now);
        lemma_key_prefix_trans(child_pass(st, archive, order, now, k).rows, prev.rows, child_pass(st, archive, order, now, n).rows);
    }
}

/// How the second run stands to the first after the same steps: the same
/// links, rows that agree with the first run's result, nothing inserted.
pub open spec fn replays(a: GroupFold, b: GroupFold, result: Seq<Group>, b0: GroupFold) -> bool {
    &&& a.links == b.links
    &&& key_prefix(a.rows, result)
    &&& b.rows.len() == result.len()
    &&& key_prefix(b.rows, result)
    &&& b.next_id == b0.next_id
    &&& b.inserted == b0.inserted
}

proof fn lemma_match_has_first(rows: Seq<Group>, name: Seq<char>, parent: Option<i64>, j: int)
    requires
        0 <= j < rows.len(),
        group_row_matches(rows[j], name, parent),
    ensures
        first_group_match(rows, name, parent) is Some,
    decreases j,
{
    if forall|v: int| 0 <= v < j ==> !group_row_matches(#[trigger] rows[v], name, parent) {
        assert(is_first_group_match(rows, name, parent, j));
    } else {
        let v = choose|v: int| 0 <= v < j && group_row_matches(#[trigger] rows[v], name, parent);
        lemma_match_has_first(rows, name, parent, v);
    }
}

proof fn lemma_first_transfer(x: Seq<Group>, y: Seq<Group>, name: Seq<char>, parent: Option<i64>, i: int)
    requires
        is_first_group_match(x, name, parent, i),
        i < y.len(),
        forall|j: int| 0 <= j <= i ==> same_key(#[trigger] x[j], y[j]),
    ensures
        first_group_match(y, name, parent) == Some(i),
{
    assert(same_key(x[i], y[i]));
    assert forall|j: int| 0 <= j < i implies !group_row_matches(#[trigger] y[j], name, parent) by {
        assert(same_key(x[j], y[j]));
    }
    lemma_first_match_is(y, name, parent, i);
}

/// One more step in both runs keeps them in step, where the first run's
/// rows after the step still lead the result.
proof fn lemma_replay_step(
    a: GroupFold,
    b: GroupFold,
    result: Seq<Group>,
    b0: GroupFold,
    g: BackupGroup,
    parent: Option<i64>,
    now: String,
)
    requires
        replays(a, b, result, b0),
        key_prefix(apply_group(a, g, parent, now).rows, result),
    ensures
        replays(apply_group(a, g, parent, now), apply_group(b, g, parent, now), result, b0),
        first_group_match(b.rows, g.name@, parent) == Some(match first_group_match(a.rows, g.name@, parent) {
            Some(i) => i,
            None => a.rows.len() as int,
        }),
{
    let a2 = apply_group(a, g, parent, now);
    let name = g.name@;
    match first_group_match(a.rows, name, parent) {
        Some(i) => {
            let c = choose|c: int| is_first_group_match(a.rows, name, parent, c);
            assert forall|j: int| 0 <= j <= i implies same_key(#[trigger] a.rows[j], b.rows[j]) by {
                assert(same_key(a.rows[j], result[j]));
                assert(same_key(b.rows[j], result[j]));
            }
            lemma_first_transfer(a.rows, b.rows, name, parent, i);
        },
        None => {
            let i = a.rows.len() as int;
            assert forall|j: int| 0 <= j < i implies !group_row_matches(#[trigger] a.rows[j], name, parent) by {
                if group_row_matches(a.rows[j], name, parent) {
                    lemma_match_has_first(a.rows, name, parent, j);
                }
            }
            assert(is_first_group_match(a2.rows, name, parent, i));
            assert forall|j: int| 0 <= j <= i implies same_key(#[trigger] a2.rows[j], b.rows[j]) by {
                assert(same_key(a2.rows[j], result[j]));
                assert(same_key(b.rows[j], result[j]));
            }
            lemma_first_transfer(a2.rows, b.rows, name, parent, i);
        },
    }
    let b2 = apply_group(b, g, parent, now);
    assert forall|j: int| 0 <= j < b2.rows.len() implies same_key(#[trigger] b2.rows[j], result[j]) by {
        assert(same_key(b.rows[j], result[j]));
    }
    lemma_key_prefix_trans(a.rows, a2.rows, result);
}

proof fn lemma_root_replay(a0: GroupFold, b0: GroupFold, archive: Seq<BackupGroup>, now: String, result: Seq<Group>, k: int)
    requires
        0 <= k <= archive.len(),
        replays(a0, b0, result, b0),
        forall|m: int| 0 <= m <= archive.len() ==> key_prefix(#[trigger] root_pass(a0, archive, now, m).rows, result),
    ensures
        replays(root_pass(a0, archive, now, k), root_pass(b0, archive, now, k), result, b0),
    decreases k,
{
    if k > 0 {
        lemma_root_replay(a0, b0, archive, now, result, k - 1);
        let pa = root_pass(a0, archive, now, k - 1);
        let pb = root_pass(b0, archive, now, k - 1);
        if is_root_entry(archive, archive[k - 1]) {
            assert(key_prefix(root_pass(a0, archive, now, k).rows, result));
            lemma_replay_step(pa, pb, result, b0, archive[k - 1], None, now);
        }
    }
}

proof fn lemma_child_replay(a0: GroupFold, b0: GroupFold, archive: Seq<BackupGroup>, order: Seq<int>, now: String, result: Seq<Group>, b00: GroupFold, k: int)
    requires
        0 <= k <= order.len(),
        replays(a0, b0, result, b00),
        forall|m: int| 0 <= m <= order.len() ==> key_prefix(#[trigger] child_pass(a0, archive, order, now, m).rows, result),
    ensures
        replays(child_pass(a0, archive, order, now, k), child_pass(b0, archive, order, now, k), result, b00),
    decreases k,
{
    if k > 0 {
        lemma_child_replay(a0, b0, archive, order, now, result, b00, k - 1);
        let pa = child_pass(a0, archive, order, now, k - 1);
        let pb = child_pass(b0, archive, order, now, k - 1);
        let g = archive[order[k - 1]];
        assert(key_prefix(child_pass(a0, archive, order, now, k).rows, result));
        lemma_replay_step(pa, pb, result, b00, g, link_of(pa.links, parent_key(g)), now);
    }
}

/// Merging a forest again into what its first merge produced inserts no
/// group, and links every archived group to the same row as the first time;
/// the rows keep their identifiers, names and parents.
pub proof fn lemma_groups_merge_again(st: GroupFold, archive: Seq<BackupGroup>, order: Seq<int>, now: String)
    ensures
        ({
            let once = merge_groups_spec(st, archive, order, now);
            let again = merge_groups_spec(
                GroupFold { rows: once.rows, links: st.links, next_id: once.next_id, inserted: 0 },
                archive,
                order,
                now,
            );
            &&& again.inserted == 0
            &&& again.next_id == once.next_id
            &&& again.links == once.links
            &&& again.rows.len() == once.rows.len()
            &&& key_prefix(again.rows, once.rows)
        }),
{
    let n = archive.len() as int;
    let c = order.len() as int;
    let once = merge_groups_spec(st, archive, order, now);
    let result = once.rows;
    let b0 = GroupFold { rows: result, links: st.links, next_id: once.next_id, inserted: 0 };
    let mid = root_pass(st, archive, now, n);
    lemma_child_pass_prefix(mid, archive, order, now, 0, c);
    assert forall|m: int| 0 <= m <= n implies key_prefix(#[trigger] root_pass(st, archive, now, m).rows, result) by {
        lemma_root_pass_prefix(st, archive, now, m, n);
        lemma_key_prefix_trans(root_pass(st, archive, now, m).rows, mid.rows, result);
    }
    assert forall|m: int| 0 <= m <= c implies key_prefix(#[trigger] child_pass(mid, archive, order, now, m).rows, result) by {
        lemma_child_pass_prefix(mid, archive, order, now, m, c);
    }
    assert(key_prefix(st.rows, result)) by {
        assert(key_prefix(root_pass(st, archive, now, 0).rows, result));
    }
    assert forall|i: int| 0 <= i < result.len() implies same_key(#[trigger] result[i], result[i]) by {}
    lemma_root_replay(st, b0, archive, now, result, n);
    let mid_b = root_pass(b0, archive, now, n);
    lemma_child_replay(mid, mid_b, archive, order, now, result, b0, c);
}

/// Whether two credential rows agree on identifier and match key.
pub open spec fn same_password_key(a: Password, b: Password) -> bool {
    a.id == b.id && a.title@ == b.title@ && opt_view(a.username) == opt_view(b.username)
}

/// Whether `a` agrees with the start of `b` on identifiers and match keys.
pub open spec fn password_key_prefix(a: Seq<Password>, b: Seq<Password>) -> bool {
    a.len() <= b.len() && forall|i: int| 0 <= i < a.len() ==> same_password_key(#[trigger] a[i], b[i])
}

proof fn lemma_password_first_is(rows: Seq<Password>, title: Seq<char>, username: Option<Seq<char>>, i: int)
    requires
        is_first_password_match(rows, title, username, i),
    ensures
        first_password_match(rows, title, username) == Some(i),
{
    let c = choose|c: int| is_first_password_match(rows, title, username, c);
    if c < i {
        assert(!password_row_matches(rows[c], title, username));
    } else if c > i {
        assert(!password_row_matches(rows[i], title, username));
    }
}

proof fn lemma_password_match_has_first(rows: Seq<Password>, title: Seq<char>, username: Option<Seq<char>>, j: int)
    requires
        0 <= j < rows.len(),
        password_row_matches(rows[j], title, username),
    ensures
        first_password_match(rows, title, username) is Some,
    decreases j,
{
    if forall|v: int| 0 <= v < j ==> !password_row_matches(#[trigger] rows[v], title, username) {
        assert(is_first_password_match(rows, title, username, j));
    } else {
        let v = choose|v: int| 0 <= v < j && password_row_matches(#[trigger] rows[v], title, username);
        lemma_password_match_has_first(rows, title, username, v);
    }
}

proof fn lemma_password_first_transfer(x: Seq<Password>, y: Seq<Password>, title: Seq<char>, username: Option<Seq<char>>, i: int)
    requires
        is_first_password_match(x, title, username, i),
        i < y.len(),
        forall|j: int| 0 <= j <= i ==> same_password_key(#[trigger] x[j], y[j]),
    ensures
        first_password_match(y, title, username) == Some(i),
{
    assert(same_password_key(x[i], y[i]));
    assert forall|j: int| 0 <= j < i implies !password_row_matches(#[trigger] y[j], title, username) by {
        assert(same_password_key(x[j], y[j]));
    }
    lemma_password_first_is(y, title, username, i);
}

proof fn lemma_password_key_prefix_trans(a: Seq<Password>, b: Seq<Password>, c: Seq<Password>)
    requires
        password_key_prefix(a, b),
        password_key_prefix(b, c),
    ensures
        password_key_prefix(a, c),
{
    assert forall|i: int| 0 <= i < a.len() implies same_password_key(#[trigger] a[i], c[i]) by {
        assert(same_password_key(a[i], b[i]));
        assert(same_password_key(b[i], c[i]));
    }
}

proof fn lemma_password_pass_prefix(st: PasswordFold, archive: Seq<BackupPassword>, sealed: Seq<Option<String>>, links: Seq<(i64, i64)>, now: String, k: int, n: int)
    requires
        0 <= k <= n,
    ensures
        password_key_prefix(password_pass(st, archive, sealed, links, now, k).rows, password_pass(st, archive, sealed, links, now, n).rows),
    decreases n - k,
{
    if k < n {
        lemma_password_pass_prefix(st, archive, sealed, links, now, k, n - 1);
        let prev = password_pass(st, archive, sealed, links, now, n - 1);
        let next = password_pass(st, archive, sealed, links, now, n);
        assert(password_key_prefix(prev.rows, next.rows));
        lemma_password_key_prefix_trans(password_pass(st, archive, sealed, links, now, k).rows, prev.rows, next.rows);
    }
}

/// How the second run stands to the first after the same steps.
pub open spec fn password_replays(a: PasswordFold, b: PasswordFold, result: Seq<Password>, b0: PasswordFold) -> bool {
    &&& password_key_prefix(a.rows, result)
    &&& b.rows.len() == result.len()
    &&& password_key_prefix(b.rows, result)
    &&& b.next_id == b0.next_id
    &&& b.inserted == b0.inserted
}

proof fn lemma_password_replay_step(a: PasswordFold, b: PasswordFold, result: Seq<Password>, b0: PasswordFold, e: BackupPassword, sealed: Option<String>, group: Option<i64>, now: String)
    requires
        password_replays(a, b, result, b0),
        password_key_prefix(apply_password(a, e, sealed, group, now).rows, result),
    ensures
        password_replays(apply_password(a, e, sealed, group, now), apply_password(b, e, sealed, group, now), result, b0),
        first_password_match(b.rows, e.title@, opt_view(e.username)) == Some(match first_password_match(a.rows, e.title@, opt_view(e.username)) {
            Some(i) => i,
            None => a.rows.len() as int,
        }),
{
    let a2 = apply_password(a, e, sealed, group, now);
    match first_password_match(a.rows, e.title@, opt_view(e.username)) {
        Some(i) => {
            let c = choose|c: int| is_first_password_match(a.rows, e.title@, opt_view(e.username), c);
            assert forall|j: int| 0 <= j <= i implies same_password_key(#[trigger] a.rows[j], b.rows[j]) by {
                assert(same_password_key(a.rows[j], result[j]));
                assert(same_password_key(b.rows[j], result[j]));
            }
            lemma_password_first_transfer(a.rows, b.rows, e.title@, opt_view(e.username), i);
        },
        None => {
            let i = a.rows.len() as int;
            assert forall|j: int| 0 <= j < i implies !password_row_matches(#[trigger] a.rows[j], e.title@, opt_view(e.username)) by {
                if password_row_matches(a.rows[j], e.title@, opt_view(e.username)) {
                    lemma_password_match_has_first(a.rows, e.title@, opt_view(e.username), j);
                }
            }
            assert(is_first_password_match(a2.rows, e.title@, opt_view(e.username), i));
            assert forall|j: int| 0 <= j <= i implies same_password_key(#[trigger] a2.rows[j], b.rows[j]) by {
                assert(same_password_key(a2.rows[j], result[j]));
                assert(same_password_key(b.rows[j], result[j]));
            }
            lemma_password_first_transfer(a2.rows, b.rows, e.title@, opt_view(e.username), i);
        },
    }
    let b2 = apply_password(b, e, sealed, group, now);
    assert forall|j: int| 0 <= j < b2.rows.len() implies same_password_key(#[trigger] b2.rows[j], result[j]) by {
        assert(same_password_key(b.rows[j], result[j]));
    }
    lemma_password_key_prefix_trans(a.rows, a2.rows, result);
}

proof fn lemma_password_replay(a0: PasswordFold, b0: PasswordFold, archive: Seq<BackupPassword>, sealed: Seq<Option<String>>, links: Seq<(i64, i64)>, now: String, result: Seq<Password>, k: int)
    requires
        0 <= k <= archive.len(),
        sealed.len() == archive.len(),
        password_replays(a0, b0, result, b0),
        forall|m: int| 0 <= m <= archive.len() ==> password_key_prefix(#[trigger] password_pass(a0, archive, sealed, links, now, m).rows, result),
    ensures
        password_replays(password_pass(a0, archive, sealed, links, now, k), password_pass(b0, archive, sealed, links, now, k), result, b0),
    decreases k,
{
    if k > 0 {
        lemma_password_replay(a0, b0, archive, sealed, links, now, result, k - 1);
        let pa = password_pass(a0, archive, sealed, links, now, k - 1);
        let pb = password_pass(b0, archive, sealed, links, now, k - 1);
        assert(password_key_prefix(password_pass(a0, archive, sealed, links, now, k).rows, result));
        lemma_password_replay_step(pa, pb, result, b0, archive[k - 1], sealed[k - 1], resolved_group(links, archive[k - 1].group_id), now);
    }
}

/// Merging the same credentials again into what their first merge produced
/// inserts nothing; the rows keep their identifiers and match keys.
pub proof fn lemma_passwords_merge_again(st: PasswordFold, archive: Seq<BackupPassword>, sealed: Seq<Option<String>>, links: Seq<(i64, i64)>, now: String)
    requires
        sealed.len() == archive.len(),
    ensures
        ({
            let once = password_pass(st, archive, sealed, links, now, archive.len() as int);
            let again = password_pass((PasswordFold { rows: once.rows, next_id: once.next_id, inserted: 0 }), archive, sealed, links, now, archive.len() as int);
            &&& again.inserted == 0
            &&& again.next_id == once.next_id
            &&& again.rows.len() == once.rows.len()
            &&& password_key_prefix(again.rows, once.rows)
        }),
{
    let n = archive.len() as int;
    let once = password_pass(st, archive, sealed, links, now, n);
    let result = once.rows;
    let b0 = (PasswordFold { rows: once.rows, next_id: once.next_id, inserted: 0 });
    assert forall|m: int| 0 <= m <= n implies password_key_prefix(#[trigger] password_pass(st, archive, sealed, links, now, m).rows, result) by {
        lemma_password_pass_prefix(st, archive, sealed, links, now, m, n);
    }
    assert(password_key_prefix(st.rows, result)) by {
        assert(password_key_prefix(password_pass(st, archive, sealed, links, now, 0).rows, result));
    }
    assert forall|i: int| 0 <= i < result.len() implies same_password_key(#[trigger] result[i], result[i]) by {}
    lemma_password_replay(st, b0, archive, sealed, links, now, result, n);
}

/// Whether two note rows agree on identifier and match key.
pub open spec fn same_note_key(a: SecureRecord, b: SecureRecord) -> bool {
    a.id == b.id && a.title@ == b.title@ && a.group_id == b.group_id
}

/// Whether `a` agrees with the start of `b` on identifiers and match keys.
pub open spec fn note_key_prefix(a: Seq<SecureRecord>, b: Seq<SecureRecord>) -> bool {
    a.len() <= b.len() && forall|i: int| 0 <= i < a.len() ==> same_note_key(#[trigger] a[i], b[i])
}

proof fn lemma_note_first_is(rows: Seq<SecureRecord>, title: Seq<char>, group: Option<i64>, i: int)
    requires
        is_first_note_match(rows, title, group, i),
    ensures
        first_note_match(rows, title, group) == Some(i),
{
    let c = choose|c: int| is_first_note_match(rows, title, group, c);
    if c < i {
        assert(!note_row_matches(rows[c], title, group));
    } else if c > i {
        assert(!note_row_matches(rows[i], title, group));
    }
}

proof fn lemma_note_match_has_first(rows: Seq<SecureRecord>, title: Seq<char>, group: Option<i64>, j: int)
    requires
        0 <= j < rows.len(),
        note_row_matches(rows[j], title, group),
    ensures
        first_note_match(rows, title, group) is Some,
    decreases j,
{
    if forall|v: int| 0 <= v < j ==> !note_row_matches(#[trigger] rows[v], title, group) {
        assert(is_first_note_match(rows, title, group, j));
    } else {
        let v = choose|v: int| 0 <= v < j && note_row_matches(#[trigger] rows[v], title, group);
        lemma_note_match_has_first(rows, title, group, v);
    }
}

proof fn lemma_note_first_transfer(x: Seq<SecureRecord>, y: Seq<SecureRecord>, title: Seq<char>, group: Option<i64>, i: int)
    requires
        is_first_note_match(x, title, group, i),
        i < y.len(),
        forall|j: int| 0 <= j <= i ==> same_note_key(#[trigger] x[j], y[j]),
    ensures
        first_note_match(y, title, group) == Some(i),
{
    assert(same_note_key(x[i], y[i]));
    assert forall|j: int| 0 <= j < i implies !note_row_matches(#[trigger] y[j], title, group) by {
        assert(same_note_key(x[j], y[j]));
    }
    lemma_note_first_is(y, title, group, i);
}

proof fn lemma_note_key_prefix_trans(a: Seq<SecureRecord>, b: Seq<SecureRecord>, c: Seq<SecureRecord>)
    requires
        note_key_prefix(a, b),
        note_key_prefix(b, c),
    ensures
        note_key_prefix(a, c),
{
    assert forall|i: int| 0 <= i < a.len() implies same_note_key(#[trigger] a[i], c[i]) by {
        assert(same_note_key(a[i], b[i]));
        assert(same_note_key(b[i], c[i]));
    }
}

proof fn lemma_note_pass_prefix(st: NoteFold, archive: Seq<BackupNote>, sealed: Seq<Option<String>>, links: Seq<(i64, i64)>, now: String, k: int, n: int)
    requires
        0 <= k <= n,
    ensures
        note_key_prefix(note_pass(st, archive, sealed, links, now, k).rows, note_pass(st, archive, sealed, links, now, n).rows),
    decreases n - k,
{
    if k < n {
        lemma_note_pass_prefix(st, archive, sealed, links, now, k, n - 1);
        let prev = note_pass(st, archive, sealed, links, now, n - 1);
        let next = note_pass(st, archive, sealed, links, now, n);
        assert(note_key_prefix(prev.rows, next.rows));
        lemma_note_key_prefix_trans(note_pass(st, archive, sealed, links, now, k).rows, prev.rows, next.rows);
    }
}

/// How the second run stands to the first after the same steps.
pub open spec fn note_replays(a: NoteFold, b: NoteFold, result: Seq<SecureRecord>, b0: NoteFold) -> bool {
    &&& note_key_prefix(a.rows, result)
    &&& b.rows.len() == result.len()
    &&& note_key_prefix(b.rows, result)
    &&& b.next_id == b0.next_id
    &&& b.inserted == b0.inserted
}

proof fn lemma_note_replay_step(a: NoteFold, b: NoteFold, result: Seq<SecureRecord>, b0: NoteFold, e: BackupNote, sealed: Option<String>, group: Option<i64>, now: String)
    requires
        note_replays(a, b, result, b0),
        note_key_prefix(apply_note(a, e, sealed, group, now).rows, result),
    ensures
        note_replays(apply_note(a, e, sealed, group, now), apply_note(b, e, sealed, group, now), result, b0),
        first_note_match(b.rows, e.title@, group) == Some(match first_note_match(a.rows, e.title@, group) {
            Some(i) => i,
            None => a.rows.len() as int,
        }),
{
    let a2 = apply_note(a, e, sealed, group, now);
    match first_note_match(a.rows, e.title@, group) {
        Some(i) => {
            let c = choose|c: int| is_first_note_match(a.rows, e.title@, group, c);
            assert forall|j: int| 0 <= j <= i implies same_note_key(#[trigger] a.rows[j], b.rows[j]) by {
                assert(same_note_key(a.rows[j], result[j]));
                assert(same_note_key(b.rows[j], result[j]));
            }
            lemma_note_first_transfer(a.rows, b.rows, e.title@, group, i);
        },
        None => {
            let i = a.rows.len() as int;
            assert forall|j: int| 0 <= j < i implies !note_row_matches(#[trigger] a.rows[j], e.title@, group) by {
                if note_row_matches(a.rows[j], e.title@, group) {
                    lemma_note_match_has_first(a.rows, e.title@, group, j);
                }
            }
            assert(is_first_note_match(a2.rows, e.title@, group, i));
            assert forall|j: int| 0 <= j <= i implies same_note_key(#[trigger] a2.rows[j], b.rows[j]) by {
                assert(same_note_key(a2.rows[j], result[j]));
                assert(same_note_key(b.rows[j], result[j]));
            }
            lemma_note_first_transfer(a2.rows, b.rows, e.title@, group, i);
        },
    }
    let b2 = apply_note(b, e, sealed, group, now);
    assert forall|j: int| 0 <= j < b2.rows.len() implies same_note_key(#[trigger] b2.rows[j], result[j]) by {
        assert(same_note_key(b.rows[j], result[j]));
    }
    lemma_note_key_prefix_trans(a.rows, a2.rows, result);
}

proof fn lemma_note_replay(a0: NoteFold, b0: NoteFold, archive: Seq<BackupNote>, sealed: Seq<Option<String>>, links: Seq<(i64, i64)>, now: String, result: Seq<SecureRecord>, k: int)
    requires
        0 <= k <= archive.len(),
        sealed.len() == archive.len(),
        note_replays(a0, b0, result, b0),
        forall|m: int| 0 <= m <= archive.len() ==> note_key_prefix(#[trigger] note_pass(a0, archive, sealed, links, now, m).rows, result),
    ensures
        note_replays(note_pass(a0, archive, sealed, links, now, k), note_pass(b0, archive, sealed, links, now, k), result, b0),
    decreases k,
{
    if k > 0 {
        lemma_note_replay(a0, b0, archive, sealed, links, now, result, k - 1);
        let pa = note_pass(a0, archive, sealed, links, now, k - 1);
        let pb = note_pass(b0, archive, sealed, links, now, k - 1);
        assert(note_key_prefix(note_pass(a0, archive, sealed, links, now, k).rows, result));
        lemma_note_replay_step(pa, pb, result, b0, archive[k - 1], sealed[k - 1], resolved_group(links, archive[k - 1].group_id), now);
    }
}

/// Merging the same notes again into what their first merge produced
/// inserts nothing; the rows keep their identifiers and match keys.
pub proof fn lemma_notes_merge_again(st: NoteFold, archive: Seq<BackupNote>, sealed: Seq<Option<String>>, links: Seq<(i64, i64)>, now: String)
    requires
        sealed.len() == archive.len(),
    ensures
        ({
            let once = note_pass(st, archive, sealed, links, now, archive.len() as int);
            let again = note_pass((NoteFold { rows: once.rows, next_id: once.next_id, inserted: 0 }), archive, sealed, links, now, archive.len() as int);
            &&& again.inserted == 0
            &&& again.next_id == once.next_id
            &&& again.rows.len() == once.rows.len()
            &&& note_key_prefix(again.rows, once.rows)
        }),
{
    let n = archive.len() as int;
    let once = note_pass(st, archive, sealed, links, now, n);
    let result = once.rows;
    let b0 = (NoteFold { rows: once.rows, next_id: once.next_id, inserted: 0 });
    assert forall|m: int| 0 <= m <= n implies note_key_prefix(#[trigger] note_pass(st, archive, sealed, links, now, m).rows, result) by {
        lemma_note_pass_prefix(st, archive, sealed, links, now, m, n);
    }
    assert(note_key_prefix(st.rows, result)) by {
        assert(note_key_prefix(note_pass(st, archive, sealed, links, now, 0).rows, result));
    }
    assert forall|i: int| 0 <= i < result.len() implies same_note_key(#[trigger] result[i], result[i]) by {}
    lemma_note_replay(st, b0, archive, sealed, links, now, result, n);
}

/// Whether two setting rows agree on identifier and match key.
pub open spec fn same_setting_key(a: UserSetting, b: UserSetting) -> bool {
    a.id == b.id && a.key@ == b.key@
}

/// Whether `a` agrees with the start of `b` on identifiers and match keys.
pub open spec fn setting_key_prefix(a: Seq<UserSetting>, b: Seq<UserSetting>) -> bool {
    a.len() <= b.len() && forall|i: int| 0 <= i < a.len() ==> same_setting_key(#[trigger] a[i], b[i])
}

proof fn lemma_setting_first_is(rows: Seq<UserSetting>, key: Seq<char>, i: int)
    requires
        is_first_setting_match(rows, key, i),
    ensures
        first_setting_match(rows, key) == Some(i),
{
    let c = choose|c: int| is_first_setting_match(rows, key, c);
    if c < i {
        assert(!setting_row_matches(rows[c], key));
    } else if c > i {
        assert(!setting_row_matches(rows[i], key));
    }
}

proof fn lemma_setting_match_has_first(rows: Seq<UserSetting>, key: Seq<char>, j: int)
    requires
        0 <= j < rows.len(),
        setting_row_matches(rows[j], key),
    ensures
        first_setting_match(rows, key) is Some,
    decreases j,
{
    if forall|v: int| 0 <= v < j ==> !setting_row_matches(#[trigger] rows[v], key) {
        assert(is_first_setting_match(rows, key, j));
    } else {
        let v = choose|v: int| 0 <= v < j && setting_row_matches(#[trigger] rows[v], key);
        lemma_setting_match_has_first(rows, key, v);
    }
}

proof fn lemma_setting_first_transfer(x: Seq<UserSetting>, y: Seq<UserSetting>, key: Seq<char>, i: int)
    requires
        is_first_setting_match(x, key, i),
        i < y.len(),
        forall|j: int| 0 <= j <= i ==> same_setting_key(#[trigger] x[j], y[j]),
    ensures
        first_setting_match(y, key) == Some(i),
{
    assert(same_setting_key(x[i], y[i]));
    assert forall|j: int| 0 <= j < i implies !setting_row_matches(#[trigger] y[j], key) by {
        assert(same_setting_key(x[j], y[j]));
    }
    lemma_setting_first_is(y, key, i);
}

proof fn lemma_setting_key_prefix_trans(a: Seq<UserSetting>, b: Seq<UserSetting>, c: Seq<UserSetting>)
    requires
        setting_key_prefix(a, b),
        setting_key_prefix(b, c),
    ensures
        setting_key_prefix(a, c),
{
    assert forall|i: int| 0 <= i < a.len() implies same_setting_key(#[trigger] a[i], c[i]) by {
        assert(same_setting_key(a[i], b[i]));
        assert(same_setting_key(b[i], c[i]));
    }
}

proof fn lemma_setting_pass_prefix(st: SettingFold, archive: Seq<BackupSetting>, now: String, k: int, n: int)
    requires
        0 <= k <= n,
    ensures
        setting_key_prefix(setting_pass(st, archive, now, k).rows, setting_pass(st, archive, now, n).rows),
    decreases n - k,
{
    if k < n {
        lemma_setting_pass_prefix(st, archive, now, k, n - 1);
        let prev = setting_pass(st, archive, now, n - 1);
        let next = setting_pass(st, archive, now, n);
        assert(setting_key_prefix(prev.rows, next.rows));
        lemma_setting_key_prefix_trans(setting_pass(st, archive, now, k).rows, prev.rows, next.rows);
    }
}

/// How the second run stands to the first after the same steps.
pub open spec fn setting_replays(a: SettingFold, b: SettingFold, result: Seq<UserSetting>, b0: SettingFold) -> bool {
    &&& setting_key_prefix(a.rows, result)
    &&& b.rows.len() == result.len()
    &&& setting_key_prefix(b.rows, result)
    &&& b.next_id == b0.next_id
    &&& b.inserted == b0.inserted
}

proof fn lemma_setting_replay_step(a: SettingFold, b: SettingFold, result: Seq<UserSetting>, b0: SettingFold, e: BackupSetting, now: String)
    requires
        setting_replays(a, b, result, b0),
        setting_key_prefix(apply_setting(a, e, now).rows, result),
    ensures
        setting_replays(apply_setting(a, e, now), apply_setting(b, e, now), result, b0),
{
    let a2 = apply_setting(a, e, now);
    match first_setting_match(a.rows, e.key@) {
        Some(i) => {
            let c = choose|c: int| is_first_setting_match(a.rows, e.key@, c);
            assert forall|j: int| 0 <= j <= i implies same_setting_key(#[trigger] a.rows[j], b.rows[j]) by {
                assert(same_setting_key(a.rows[j], result[j]));
                assert(same_setting_key(b.rows[j], result[j]));
            }
            lemma_setting_first_transfer(a.rows, b.rows, e.key@, i);
        },
        None => {
            let i = a.rows.len() as int;
            assert forall|j: int| 0 <= j < i implies !setting_row_matches(#[trigger] a.rows[j], e.key@) by {
                if setting_row_matches(a.rows[j], e.key@) {
                    lemma_setting_match_has_first(a.rows, e.key@, j);
                }
            }
            assert(is_first_setting_match(a2.rows, e.key@, i));
            assert forall|j: int| 0 <= j <= i implies same_setting_key(#[trigger] a2.rows[j], b.rows[j]) by {
                assert(same_setting_key(a2.rows[j], result[j]));
                assert(same_setting_key(b.rows[j], result[j]));
            }
            lemma_setting_first_transfer(a2.rows, b.rows, e.key@, i);
        },
    }
    let b2 = apply_setting(b, e, now);
    assert forall|j: int| 0 <= j < b2.rows.len() implies same_setting_key(#[trigger] b2.rows[j], result[j]) by {
        assert(same_setting_key(b.rows[j], result[j]));
    }
    lemma_setting_key_prefix_trans(a.rows, a2.rows, result);
}

proof fn lemma_setting_replay(a0: SettingFold, b0: SettingFold, archive: Seq<BackupSetting>, now: String, result: Seq<UserSetting>, k: int)
    requires
        0 <= k <= archive.len(),
        
        setting_replays(a0, b0, result, b0),
        forall|m: int| 0 <= m <= archive.len() ==> setting_key_prefix(#[trigger] setting_pass(a0, archive, now, m).rows, result),
    ensures
        setting_replays(setting_pass(a0, archive, now, k), setting_pass(b0, archive, now, k), result, b0),
    decreases k,
{
    if k > 0 {
        lemma_setting_replay(a0, b0, archive, now, result, k - 1);
        let pa = setting_pass(a0, archive, now, k - 1);
        let pb = setting_pass(b0, archive, now, k - 1);
        assert(setting_key_prefix(setting_pass(a0, archive, now, k).rows, result));
        lemma_setting_replay_step(pa, pb, result, b0, archive[k - 1], now);
    }
}

/// Merging the same settings again into what their first merge produced
/// inserts nothing; the rows keep their identifiers and match keys.
pub proof fn lemma_settings_merge_again(st: SettingFold, archive: Seq<BackupSetting>, now: String)
    requires
        
    ensures
        ({
            let once = setting_pass(st, archive, now, archive.len() as int);
            let again = setting_pass((SettingFold { rows: once.rows, next_id: once.next_id, inserted: 0, skipped: Seq::empty() }), archive, now, archive.len() as int);
            &&& again.inserted == 0
            &&& again.next_id == once.next_id
            &&& again.rows.len() == once.rows.len()
            &&& setting_key_prefix(again.rows, once.rows)
        }),
{
    let n = archive.len() as int;
    let once = setting_pass(st, archive, now, n);
    let result = once.rows;
    let b0 = (SettingFold { rows: once.rows, next_id: once.next_id, inserted: 0, skipped: Seq::empty() });
    assert forall|m: int| 0 <= m <= n implies setting_key_prefix(#[trigger] setting_pass(st, archive, now, m).rows, result) by {
        lemma_setting_pass_prefix(st, archive, now, m, n);
    }
    assert(setting_key_prefix(st.rows, result)) by {
        assert(setting_key_prefix(setting_pass(st, archive, now, 0).rows, result));
    }
    assert forall|i: int| 0 <= i < result.len() implies same_setting_key(#[trigger] result[i], result[i]) by {}
    lemma_setting_replay(st, b0, archive, now, result, n);
}

/// Importing a snapshot a second time, into what the first import left, with
/// its secrets stored as the first time and the same clock, inserts nothing:
/// every group, credential, note and setting matches a row, the groups are
/// linked to the same rows, and no identifier is used up.
pub proof fn lemma_import_again_inserts_nothing(
    store: VaultStore,
    after: VaultStore,
    snap: Snapshot,
    sealed_passwords: Seq<Option<String>>,
    sealed_notes: Seq<Option<String>>,
    now: String,
)
    requires
        sealed_passwords.len() == snap.passwords@.len(),
        sealed_notes.len() == snap.notes@.len(),
        store_holds(after, merge_outcome(store, snap, sealed_passwords, sealed_notes, now), store),
    ensures
        ({
            let once = merge_outcome(store, snap, sealed_passwords, sealed_notes, now);
            let again = merge_outcome(after, snap, sealed_passwords, sealed_notes, now);
            &&& again.groups.inserted == 0
            &&& again.passwords.inserted == 0
            &&& again.note_groups.inserted == 0
            &&& again.notes.inserted == 0
            &&& again.settings.inserted == 0
            &&& again.groups.links == once.groups.links
            &&& again.note_groups.links == once.note_groups.links
            &&& again.groups.next_id == after.next_group_id
            &&& again.passwords.next_id == after.next_password_id
            &&& again.note_groups.next_id == after.next_note_group_id
            &&& again.notes.next_id == after.next_note_id
            &&& again.settings.next_id == after.next_setting_id
        }),
{
    let once = merge_outcome(store, snap, sealed_passwords, sealed_notes, now);
    let g0 = GroupFold { rows: store.groups@, links: Seq::empty(), next_id: store.next_group_id, inserted: 0 };
    lemma_groups_merge_again(g0, snap.groups@, group_order(snap.groups@), now);
    let ng0 = GroupFold {
        rows: store.note_groups@.map_values(|g: SecureRecordGroup| note_group_as_group(g)),
        links: Seq::empty(),
        next_id: store.next_note_group_id,
        inserted: 0,
    };
    lemma_groups_merge_again(ng0, snap.note_groups@, group_order(snap.note_groups@), now);
    assert(after.note_groups@.map_values(|g: SecureRecordGroup| note_group_as_group(g)) =~= once.note_groups.rows);
    lemma_passwords_merge_again(
        PasswordFold { rows: store.passwords@, next_id: store.next_password_id, inserted: 0 },
        snap.passwords@,
        sealed_passwords,
        once.groups.links,
        now,
    );
    lemma_notes_merge_again(
        NoteFold { rows: store.notes@, next_id: store.next_note_id, inserted: 0 },
        snap.notes@,
        sealed_notes,
        once.note_groups.links,
        now,
    );
    lemma_settings_merge_again(
        SettingFold { rows: store.settings@, next_id: store.next_setting_id, inserted: 0, skipped: Seq::empty() },
        snap.user_settings@,
        now,
    );
}

/// `base` with the display attributes (colour, sort key, update time) of `from`.
pub open spec fn with_display(base: Group, from: Group) -> Group {
    Group {
        id: base.id,
        name: base.name,
        parent_id: base.parent_id,
        icon: base.icon,
        color: from.color,
        sort_order: from.sort_order,
        created_at: base.created_at,
        updated_at: from.updated_at,
    }
}

/// How the rows of the two runs stand after the same steps: the rows in
/// `written` carry in the second run what the first run wrote there; the
/// others are, in the second run, as in the result and, in the first run,
/// as they were at its start.
pub open spec fn overlaid(a: Seq<Group>, b: Seq<Group>, result: Seq<Group>, start: Seq<Group>, written: Set<int>) -> bool {
    &&& forall|i: int| 0 <= i < result.len() && #[trigger] written.contains(i) ==> i < a.len() && b[i] == with_display(result[i], a[i])
    &&& forall|i: int| 0 <= i < result.len() && !#[trigger] written.contains(i) ==> b[i] == result[i]
    &&& forall|i: int| 0 <= i < a.len() && !#[trigger] written.contains(i) ==> i < start.len() && a[i] == start[i]
}

proof fn lemma_overlay_step(
    a: GroupFold,
    b: GroupFold,
    result: Seq<Group>,
    b0: GroupFold,
    start: Seq<Group>,
    written: Set<int>,
    g: BackupGroup,
    parent: Option<i64>,
    now: String,
)
    requires
        replays(a, b, result, b0),
        key_prefix(apply_group(a, g, parent, now).rows, result),
        overlaid(a.rows, b.rows, result, start, written),
    ensures
        replays(apply_group(a, g, parent, now), apply_group(b, g, parent, now), result, b0),
        exists|w: Set<int>| overlaid(apply_group(a, g, parent, now).rows, apply_group(b, g, parent, now).rows, result, start, w),
{
    lemma_replay_step(a, b, result, b0, g, parent, now);
    let a2 = apply_group(a, g, parent, now);
    let b2 = apply_group(b, g, parent, now);
    let t = match first_group_match(a.rows, g.name@, parent) {
        Some(i) => i,
        None => a.rows.len() as int,
    };
    let w2 = written.insert(t);
    assert(t < b.rows.len());
    assert(b2.rows[t] == with_display(result[t], a2.rows[t])) by {
        if written.contains(t) {
            assert(b.rows[t] == with_display(result[t], a.rows[t]));
        } else {
            assert(b.rows[t] == result[t]);
        }
    }
    assert forall|i: int| 0 <= i < result.len() && #[trigger] w2.contains(i) implies i < a2.rows.len()
        && b2.rows[i] == with_display(result[i], a2.rows[i]) by {
        if i != t {
            assert(written.contains(i));
        }
    }
    assert forall|i: int| 0 <= i < a2.rows.len() && !#[trigger] w2.contains(i) implies i < start.len() && a2.rows[i] == start[i] by {
        assert(i != t);
        assert(!written.contains(i));
        assert(i < a.rows.len());
    }
    assert(overlaid(a2.rows, b2.rows, result, start, w2));
}

proof fn lemma_root_overlay(a0: GroupFold, b0: GroupFold, archive: Seq<BackupGroup>, now: String, result: Seq<Group>, start: Seq<Group>, k: int)
    requires
        0 <= k <= archive.len(),
        replays(a0, b0, result, b0),
        exists|w: Set<int>| overlaid(a0.rows, b0.rows, result, start, w),
        forall|m: int| 0 <= m <= archive.len() ==> key_prefix(#[trigger] root_pass(a0, archive, now, m).rows, result),
    ensures
        exists|w: Set<int>| overlaid(root_pass(a0, archive, now, k).rows, root_pass(b0, archive, now, k).rows, result, start, w),
    decreases k,
{
    if k == 0 {
        let w = choose|w: Set<int>| overlaid(a0.rows, b0.rows, result, start, w);
        assert(overlaid(root_pass(a0, archive, now, k).rows, root_pass(b0, archive, now, k).rows, result, start, w));
    } else {
        lemma_root_overlay(a0, b0, archive, now, result, start, k - 1);
        lemma_root_replay(a0, b0, archive, now, result, k - 1);
        let pa = root_pass(a0, archive, now, k - 1);
        let pb = root_pass(b0, archive, now, k - 1);
        let w = choose|w: Set<int>| overlaid(pa.rows, pb.rows, result, start, w);
        if is_root_entry(archive, archive[k - 1]) {
            assert(key_prefix(root_pass(a0, archive, now, k).rows, result));
            lemma_overlay_step(pa, pb, result, b0, start, w, archive[k - 1], None, now);
            let na = apply_group(pa, archive[k - 1], None, now).rows;
            let nb = apply_group(pb, archive[k - 1], None, now).rows;
            let w2 = choose|w2: Set<int>| overlaid(na, nb, result, start, w2);
            assert(overlaid(root_pass(a0, archive, now, k).rows, root_pass(b0, archive, now, k).rows, result, start, w2));
        } else {
            assert(overlaid(root_pass(a0, archive, now, k).rows, root_pass(b0, archive, now, k).rows, result, start, w));
        }
    }
}

proof fn lemma_child_overlay(
    a0: GroupFold,
    b0: GroupFold,
    archive: Seq<BackupGroup>,
    order: Seq<int>,
    now: String,
    result: Seq<Group>,
    b00: GroupFold,
    start: Seq<Group>,
    k: int,
)
    requires
        0 <= k <= order.len(),
        replays(a0, b0, result, b00),
        exists|w: Set<int>| overlaid(a0.rows, b0.rows, result, start, w),
        forall|m: int| 0 <= m <= order.len() ==> key_prefix(#[trigger] child_pass(a0, archive, order, now, m).rows, result),
    ensures
        exists|w: Set<int>| overlaid(child_pass(a0, archive, order, now, k).rows, child_pass(b0, archive, order, now, k).rows, result, start, w),
    decreases k,
{
    if k == 0 {
        let w = choose|w: Set<int>| overlaid(a0.rows, b0.rows, result, start, w);
        assert(overlaid(child_pass(a0, archive, order, now, k).rows, child_pass(b0, archive, order, now, k).rows, result, start, w));
    } else {
        lemma_child_overlay(a0, b0, archive, order, now, result, b00, start, k - 1);
        lemma_child_replay(a0, b0, archive, order, now, result, b00, k - 1);
        let pa = child_pass(a0, archive, order, now, k - 1);
        let pb = child_pass(b0, archive, order, now, k - 1);
        let g = archive[order[k - 1]];
        let w = choose|w: Set<int>| overlaid(pa.rows, pb.rows, result, start, w);
        let par = link_of(pa.links, parent_key(g));
        assert(key_prefix(child_pass(a0, archive, order, now, k).rows, result));
        lemma_overlay_step(pa, pb, result, b00, start, w, g, par, now);
        let na = apply_group(pa, g, par, now).rows;
        let nb = apply_group(pb, g, par, now).rows;
        let w2 = choose|w2: Set<int>| overlaid(na, nb, result, start, w2);
        assert(pa.links == pb.links);
        assert(overlaid(child_pass(a0, archive, order, now, k).rows, child_pass(b0, archive, order, now, k).rows, result, start, w2));
    }
}

/// Merging a forest twice leaves the same rows as merging it once.
pub proof fn lemma_groups_merge_idempotent(st: GroupFold, archive: Seq<BackupGroup>, order: Seq<int>, now: String)
    ensures
        ({
            let once = merge_groups_spec(st, archive, order, now);
            let again = merge_groups_spec(
                GroupFold { rows: once.rows, links: st.links, next_id: once.next_id, inserted: 0 },
                archive,
                order,
                now,
            );
            again.rows == once.rows
        }),
{
    let n = archive.len() as int;
    let c = order.len() as int;
    let once = merge_groups_spec(st, archive, order, now);
    let result = once.rows;
    let b0 = GroupFold { rows: result, links: st.links, next_id: once.next_id, inserted: 0 };
    let mid = root_pass(st, archive, now, n);
    lemma_groups_merge_again(st, archive, order, now);
    lemma_child_pass_prefix(mid, archive, order, now, 0, c);
    assert forall|m: int| 0 <= m <= n implies key_prefix(#[trigger] root_pass(st, archive, now, m).rows, result) by {
        lemma_root_pass_prefix(st, archive, now, m, n);
        lemma_key_prefix_trans(root_pass(st, archive, now, m).rows, mid.rows, result);
    }
    assert forall|m: int| 0 <= m <= c implies key_prefix(#[trigger] child_pass(mid, archive, order, now, m).rows, result) by {
        lemma_child_pass_prefix(mid, archive, order, now, m, c);
    }
    assert(key_prefix(st.rows, result)) by {
        assert(key_prefix(root_pass(st, archive, now, 0).rows, result));
    }
    assert forall|i: int| 0 <= i < result.len() implies same_key(#[trigger] result[i], result[i]) by {}
    assert(overlaid(st.rows, b0.rows, result, st.rows, Set::empty()));
    lemma_root_overlay(st, b0, archive, now, result, st.rows, n);
    lemma_root_replay(st, b0, archive, now, result, n);
    let mid_b = root_pass(b0, archive, now, n);
    lemma_child_overlay(mid, mid_b, archive, order, now, result, b0, st.rows, c);
    let again = merge_groups_spec(b0, archive, order, now);
    let w = choose|w: Set<int>| overlaid(once.rows, again.rows, result, st.rows, w);
    assert forall|i: int| 0 <= i < result.len() implies again.rows[i] == result[i] by {
        if w.contains(i) {
            assert(again.rows[i] == with_display(result[i], once.rows[i]));
        }
    }
    assert(again.rows =~= result);
}

/// `base` with the fields a credential merge writes taken from `from`.
pub open spec fn password_with_written(base: Password, from: Password) -> Password {
    Password {
        id: base.id,
        title: base.title,
        username: base.username,
        password: from.password,
        url: from.url,
        notes: from.notes,
        group_id: from.group_id,
        created_at: base.created_at,
        updated_at: from.updated_at,
        last_used_at: base.last_used_at,
        use_count: base.use_count,
        favorite: base.favorite,
        tags: base.tags,
    }
}

/// How the credential rows of the two runs stand after the same steps.
pub open spec fn password_overlaid(a: Seq<Password>, b: Seq<Password>, result: Seq<Password>, start: Seq<Password>, written: Set<int>) -> bool {
    &&& forall|i: int| 0 <= i < result.len() && #[trigger] written.contains(i) ==> i < a.len() && b[i] == password_with_written(result[i], a[i])
    &&& forall|i: int| 0 <= i < result.len() && !#[trigger] written.contains(i) ==> b[i] == result[i]
    &&& forall|i: int| 0 <= i < a.len() && !#[trigger] written.contains(i) ==> i < start.len() && a[i] == start[i]
}

proof fn lemma_password_overlay_step(
    a: PasswordFold,
    b: PasswordFold,
    result: Seq<Password>,
    b0: PasswordFold,
    start: Seq<Password>,
    written: Set<int>,
    e: BackupPassword, sealed: Option<String>, group: Option<i64>, now: String,
)
    requires
        password_replays(a, b, result, b0),
        password_key_prefix(apply_password(a, e, sealed, group, now).rows, result),
        password_overlaid(a.rows, b.rows, result, start, written),
    ensures
        password_replays(apply_password(a, e, sealed, group, now), apply_password(b, e, sealed, group, now), result, b0),
        exists|w: Set<int>| password_overlaid(apply_password(a, e, sealed, group, now).rows, apply_password(b, e, sealed, group, now).rows, result, start, w),
{
    lemma_password_replay_step(a, b, result, b0, e, sealed, group, now);
    let a2 = apply_password(a, e, sealed, group, now);
    let b2 = apply_password(b, e, sealed, group, now);
    let t = match first_password_match(a.rows, e.title@, opt_view(e.username)) {
        Some(i) => i,
        None => a.rows.len() as int,
    };
    let w2 = written.insert(t);
    assert(t < b.rows.len());
    assert(b2.rows[t] == password_with_written(result[t], a2.rows[t])) by {
        if written.contains(t) {
            assert(b.rows[t] == password_with_written(result[t], a.rows[t]));
        } else {
            assert(b.rows[t] == result[t]);
        }
    }
    assert forall|i: int| 0 <= i < result.len() && #[trigger] w2.contains(i) implies i < a2.rows.len()
        && b2.rows[i] == password_with_written(result[i], a2.rows[i]) by {
        if i != t {
            assert(written.contains(i));
        }
    }
    assert forall|i: int| 0 <= i < a2.rows.len() && !#[trigger] w2.contains(i) implies i < start.len() && a2.rows[i] == start[i] by {
        assert(i != t);
        assert(!written.contains(i));
        assert(i < a.rows.len());
    }
    assert(password_overlaid(a2.rows, b2.rows, result, start, w2));
}

proof fn lemma_password_overlay(a0: PasswordFold, b0: PasswordFold, archive: Seq<BackupPassword>, sealed: Seq<Option<String>>, links: Seq<(i64, i64)>, now: String, result: Seq<Password>, start: Seq<Password>, k: int)
    requires
        0 <= k <= archive.len(),
        sealed.len() == archive.len(),
        password_replays(a0, b0, result, b0),
        exists|w: Set<int>| password_overlaid(a0.rows, b0.rows, result, start, w),
        forall|m: int| 0 <= m <= archive.len() ==> password_key_prefix(#[trigger] password_pass(a0, archive, sealed, links, now, m).rows, result),
    ensures
        exists|w: Set<int>| password_overlaid(password_pass(a0, archive, sealed, links, now, k).rows, password_pass(b0, archive, sealed, links, now, k).rows, result, start, w),
    decreases k,
{
    if k == 0 {
        let w = choose|w: Set<int>| password_overlaid(a0.rows, b0.rows, result, start, w);
        assert(password_overlaid(password_pass(a0, archive, sealed, links, now, k).rows, password_pass(b0, archive, sealed, links, now, k).rows, result, start, w));
    } else {
        lemma_password_overlay(a0, b0, archive, sealed, links, now, result, start, k - 1);
        lemma_password_replay(a0, b0, archive, sealed, links, now, result, k - 1);
        let pa = password_pass(a0, archive, sealed, links, now, k - 1);
        let pb = password_pass(b0, archive, sealed, links, now, k - 1);
        let w = choose|w: Set<int>| password_overlaid(pa.rows, pb.rows, result, start, w);
        assert(password_key_prefix(password_pass(a0, archive, sealed, links, now, k).rows, result));
        lemma_password_overlay_step(pa, pb, result, b0, start, w, archive[k - 1], sealed[k - 1], resolved_group(links, archive[k - 1].group_id), now);
        let na = password_pass(a0, archive, sealed, links, now, k).rows;
        let nb = password_pass(b0, archive, sealed, links, now, k).rows;
        let w2 = choose|w2: Set<int>| password_overlaid(na, nb, result, start, w2);
        assert(password_overlaid(na, nb, result, start, w2));
    }
}

/// Merging the same credentials twice, with the same stored secrets, group links
/// and clock, leaves the same rows as merging them once.
pub proof fn lemma_passwords_merge_idempotent(st: PasswordFold, archive: Seq<BackupPassword>, sealed: Seq<Option<String>>, links: Seq<(i64, i64)>, now: String)
    requires
        sealed.len() == archive.len(),
    ensures
        ({
            let once = password_pass(st, archive, sealed, links, now, archive.len() as int);
            let again = password_pass((PasswordFold { rows: once.rows, next_id: once.next_id, inserted: 0 }), archive, sealed, links, now, archive.len() as int);
            again.rows == once.rows
        }),
{
    let n = archive.len() as int;
    let once = password_pass(st, archive, sealed, links, now, n);
    let result = once.rows;
    let b0 = (PasswordFold { rows: once.rows, next_id: once.next_id, inserted: 0 });
    lemma_passwords_merge_again(st, archive, sealed, links, now);
    assert forall|m: int| 0 <= m <= n implies password_key_prefix(#[trigger] password_pass(st, archive, sealed, links, now, m).rows, result) by {
        lemma_password_pass_prefix(st, archive, sealed, links, now, m, n);
    }
    assert(password_key_prefix(st.rows, result)) by {
        assert(password_key_prefix(password_pass(st, archive, sealed, links, now, 0).rows, result));
    }
    assert forall|i: int| 0 <= i < result.len() implies same_password_key(#[trigger] result[i], result[i]) by {}
    assert(password_overlaid(st.rows, b0.rows, result, st.rows, Set::empty()));
    lemma_password_overlay(st, b0, archive, sealed, links, now, result, st.rows, n);
    let again = password_pass(b0, archive, sealed, links, now, n);
    let w = choose|w: Set<int>| password_overlaid(once.rows, again.rows, result, st.rows, w);
    assert forall|i: int| 0 <= i < result.len() implies again.rows[i] == result[i] by {
        if w.contains(i) {
            assert(again.rows[i] == password_with_written(result[i], once.rows[i]));
        }
    }
    assert(again.rows =~= result);
}

/// `base` with the fields a note merge writes taken from `from`.
pub open spec fn note_with_written(base: SecureRecord, from: SecureRecord) -> SecureRecord {
    SecureRecord {
        id: base.id,
        title: base.title,
        content: from.content,
        group_id: base.group_id,
        pinned: from.pinned,
        archived: from.archived,
        created_at: base.created_at,
        updated_at: from.updated_at,
    }
}

/// How the note rows of the two runs stand after the same steps.
pub open spec fn note_overlaid(a: Seq<SecureRecord>, b: Seq<SecureRecord>, result: Seq<SecureRecord>, start: Seq<SecureRecord>, written: Set<int>) -> bool {
    &&& forall|i: int| 0 <= i < result.len() && #[trigger] written.contains(i) ==> i < a.len() && b[i] == note_with_written(result[i], a[i])
    &&& forall|i: int| 0 <= i < result.len() && !#[trigger] written.contains(i) ==> b[i] == result[i]
    &&& forall|i: int| 0 <= i < a.len() && !#[trigger] written.contains(i) ==> i < start.len() && a[i] == start[i]
}

proof fn lemma_note_overlay_step(
    a: NoteFold,
    b: NoteFold,
    result: Seq<SecureRecord>,
    b0: NoteFold,
    start: Seq<SecureRecord>,
    written: Set<int>,
    e: BackupNote, sealed: Option<String>, group: Option<i64>, now: String,
)
    requires
        note_replays(a, b, result, b0),
        note_key_prefix(apply_note(a, e, sealed, group, now).rows, result),
        note_overlaid(a.rows, b.rows, result, start, written),
    ensures
        note_replays(apply_note(a, e, sealed, group, now), apply_note(b, e, sealed, group, now), result, b0),
        exists|w: Set<int>| note_overlaid(apply_note(a, e, sealed, group, now).rows, apply_note(b, e, sealed, group, now).rows, result, start, w),
{
    lemma_note_replay_step(a, b, result, b0, e, sealed, group, now);
    let a2 = apply_note(a, e, sealed, group, now);
    let b2 = apply_note(b, e, sealed, group, now);
    let t = match first_note_match(a.rows, e.title@, group) {
        Some(i) => i,
        None => a.rows.len() as int,
    };
    let w2 = written.insert(t);
    assert(t < b.rows.len());
    assert(b2.rows[t] == note_with_written(result[t], a2.rows[t])) by {
        if written.contains(t) {
            assert(b.rows[t] == note_with_written(result[t], a.rows[t]));
        } else {
            assert(b.rows[t] == result[t]);
        }
    }
    assert forall|i: int| 0 <= i < result.len() && #[trigger] w2.contains(i) implies i < a2.rows.len()
        && b2.rows[i] == note_with_written(result[i], a2.rows[i]) by {
        if i != t {
            assert(written.contains(i));
        }
    }
    assert forall|i: int| 0 <= i < a2.rows.len() && !#[trigger] w2.contains(i) implies i < start.len() && a2.rows[i] == start[i] by {
        assert(i != t);
        assert(!written.contains(i));
        assert(i < a.rows.len());
    }
    assert(note_overlaid(a2.rows, b2.rows, result, start, w2));
}

proof fn lemma_note_overlay(a0: NoteFold, b0: NoteFold, archive: Seq<BackupNote>, sealed: Seq<Option<String>>, links: Seq<(i64, i64)>, now: String, result: Seq<SecureRecord>, start: Seq<SecureRecord>, k: int)
    requires
        0 <= k <= archive.len(),
        sealed.len() == archive.len(),
        note_replays(a0, b0, result, b0),
        exists|w: Set<int>| note_overlaid(a0.rows, b0.rows, result, start, w),
        forall|m: int| 0 <= m <= archive.len() ==> note_key_prefix(#[trigger] note_pass(a0, archive, sealed, links, now, m).rows, result),
    ensures
        exists|w: Set<int>| note_overlaid(note_pass(a0, archive, sealed, links, now, k).rows, note_pass(b0, archive, sealed, links, now, k).rows, result, start, w),
    decreases k,
{
    if k == 0 {
        let w = choose|w: Set<int>| note_overlaid(a0.rows, b0.rows, result, start, w);
        assert(note_overlaid(note_pass(a0, archive, sealed, links, now, k).rows, note_pass(b0, archive, sealed, links, now, k).rows, result, start, w));
    } else {
        lemma_note_overlay(a0, b0, archive, sealed, links, now, result, start, k - 1);
        lemma_note_replay(a0, b0, archive, sealed, links, now, result, k - 1);
        let pa = note_pass(a0, archive, sealed, links, now, k - 1);
        let pb = note_pass(b0, archive, sealed, links, now, k - 1);
        let w = choose|w: Set<int>| note_overlaid(pa.rows, pb.rows, result, start, w);
        assert(note_key_prefix(note_pass(a0, archive, sealed, links, now, k).rows, result));
        lemma_note_overlay_step(pa, pb, result, b0, start, w, archive[k - 1], sealed[k - 1], resolved_group(links, archive[k - 1].group_id), now);
        let na = note_pass(a0, archive, sealed, links, now, k).rows;
        let nb = note_pass(b0, archive, sealed, links, now, k).rows;
        let w2 = choose|w2: Set<int>| note_overlaid(na, nb, result, start, w2);
        assert(note_overlaid(na, nb, result, start, w2));
    }
}

/// Merging the same notes twice, with the same stored secrets, group links
/// and clock, leaves the same rows as merging them once.
pub proof fn lemma_notes_merge_idempotent(st: NoteFold, archive: Seq<BackupNote>, sealed: Seq<Option<String>>, links: Seq<(i64, i64)>, now: String)
    requires
        sealed.len() == archive.len(),
    ensures
        ({
            let once = note_pass(st, archive, sealed, links, now, archive.len() as int);
            let again = note_pass((NoteFold { rows: once.rows, next_id: once.next_id, inserted: 0 }), archive, sealed, links, now, archive.len() as int);
            again.rows == once.rows
        }),
{
    let n = archive.len() as int;
    let once = note_pass(st, archive, sealed, links, now, n);
    let result = once.rows;
    let b0 = (NoteFold { rows: once.rows, next_id: once.next_id, inserted: 0 });
    lemma_notes_merge_again(st, archive, sealed, links, now);
    assert forall|m: int| 0 <= m <= n implies note_key_prefix(#[trigger] note_pass(st, archive, sealed, links, now, m).rows, result) by {
        lemma_note_pass_prefix(st, archive, sealed, links, now, m, n);
    }
    assert(note_key_prefix(st.rows, result)) by {
        assert(note_key_prefix(note_pass(st, archive, sealed, links, now, 0).rows, result));
    }
    assert forall|i: int| 0 <= i < result.len() implies same_note_key(#[trigger] result[i], result[i]) by {}
    assert(note_overlaid(st.rows, b0.rows, result, st.rows, Set::empty()));
    lemma_note_overlay(st, b0, archive, sealed, links, now, result, st.rows, n);
    let again = note_pass(b0, archive, sealed, links, now, n);
    let w = choose|w: Set<int>| note_overlaid(once.rows, again.rows, result, st.rows, w);
    assert forall|i: int| 0 <= i < result.len() implies again.rows[i] == result[i] by {
        if w.contains(i) {
            assert(again.rows[i] == note_with_written(result[i], once.rows[i]));
        }
    }
    assert(again.rows =~= result);
}

/// Importing a snapshot a second time, into what the first import left, with
/// its secrets stored as the first time and the same clock, leaves the group
/// forests, credentials and notes exactly as the first import left them, and
/// the settings with the same rows under the same keys.
pub proof fn lemma_import_again_keeps_rows(
    store: VaultStore,
    after: VaultStore,
    snap: Snapshot,
    sealed_passwords: Seq<Option<String>>,
    sealed_notes: Seq<Option<String>>,
    now: String,
)
    requires
        sealed_passwords.len() == snap.passwords@.len(),
        sealed_notes.len() == snap.notes@.len(),
        store_holds(after, merge_outcome(store, snap, sealed_passwords, sealed_notes, now), store),
    ensures
        ({
            let again = merge_outcome(after, snap, sealed_passwords, sealed_notes, now);
            &&& again.groups.rows == after.groups@
            &&& again.passwords.rows == after.passwords@
            &&& again.note_groups.rows.map_values(|g: Group| group_as_note_group(g)) == after.note_groups@
            &&& again.notes.rows == after.notes@
            &&& again.settings.rows.len() == after.settings@.len()
            &&& setting_key_prefix(again.settings.rows, after.settings@)
        }),
{
    let once = merge_outcome(store, snap, sealed_passwords, sealed_notes, now);
    lemma_import_again_inserts_nothing(store, after, snap, sealed_passwords, sealed_notes, now);
    let g0 = GroupFold { rows: store.groups@, links: Seq::empty(), next_id: store.next_group_id, inserted: 0 };
    lemma_groups_merge_idempotent(g0, snap.groups@, group_order(snap.groups@), now);
    let ng0 = GroupFold {
        rows: store.note_groups@.map_values(|g: SecureRecordGroup| note_group_as_group(g)),
        links: Seq::empty(),
        next_id: store.next_note_group_id,
        inserted: 0,
    };
    lemma_groups_merge_idempotent(ng0, snap.note_groups@, group_order(snap.note_groups@), now);
    assert(after.note_groups@.map_values(|g: SecureRecordGroup| note_group_as_group(g)) =~= once.note_groups.rows);
    lemma_passwords_merge_idempotent(
        PasswordFold { rows: store.passwords@, next_id: store.next_password_id, inserted: 0 },
        snap.passwords@,
        sealed_passwords,
        once.groups.links,
        now,
    );
    lemma_notes_merge_idempotent(
        NoteFold { rows: store.notes@, next_id: store.next_note_id, inserted: 0 },
        snap.notes@,
        sealed_notes,
        once.note_groups.links,
        now,
    );
    lemma_settings_merge_again(
        SettingFold { rows: store.settings@, next_id: store.next_setting_id, inserted: 0, skipped: Seq::empty() },
        snap.user_settings@,
        now,
    );
}

/// Whether no two archived credentials share title and username.
pub open spec fn credential_keys_distinct(archive: Seq<BackupPassword>) -> bool {
    forall|i: int, j: int| 0 <= i < j < archive.len() ==>
        !(#[trigger] archive[i].title@ == #[trigger] archive[j].title@
            && opt_view(archive[i].username) == opt_view(archive[j].username))
}

/// Whether row `p` is credential `b` as first inserted with identifier `id`.
pub open spec fn credential_inserted(p: Password, b: BackupPassword, id: int, sealed: Option<String>, group: Option<i64>, now: String) -> bool {
    &&& p.id == Some(id as i64)
    &&& p.title == b.title
    &&& p.username == b.username
    &&& p.password == sealed
    &&& p.url == b.url
    &&& p.notes == b.notes
    &&& p.group_id == group
    &&& p.created_at == crate::merge::stamped(b.created_at, now)
    &&& p.updated_at == crate::merge::stamped(b.updated_at, now)
}

proof fn lemma_password_pass_fresh(
    st: PasswordFold,
    archive: Seq<BackupPassword>,
    sealed: Seq<Option<String>>,
    links: Seq<(i64, i64)>,
    now: String,
    k: int,
)
    requires
        st.rows.len() == 0,
        credential_keys_distinct(archive),
        sealed.len() == archive.len(),
        0 <= k <= archive.len(),
        st.next_id + archive.len() <= i64::MAX,
    ensures
        password_pass(st, archive, sealed, links, now, k).rows.len() == k,
        password_pass(st, archive, sealed, links, now, k).next_id == st.next_id + k,
        forall|j: int| 0 <= j < k ==> credential_inserted(
            #[trigger] password_pass(st, archive, sealed, links, now, k).rows[j],
            archive[j], st.next_id + j, sealed[j], resolved_group(links, archive[j].group_id), now),
    decreases k,
{
    if k > 0 {
        lemma_password_pass_fresh(st, archive, sealed, links, now, k - 1);
        let prev = password_pass(st, archive, sealed, links, now, k - 1);
        let e = archive[k - 1];
        assert forall|i: int| 0 <= i < prev.rows.len() implies
            !password_row_matches(#[trigger] prev.rows[i], e.title@, opt_view(e.username)) by {
            assert(credential_inserted(prev.rows[i], archive[i], st.next_id + i, sealed[i],
                resolved_group(links, archive[i].group_id), now));
        }
        assert(first_password_match(prev.rows, e.title@, opt_view(e.username)) is None);
    }
}

/// Round trip of credentials: a snapshot imported into a store without
/// credentials and exported again gives back every credential in order,
/// with its title, username, plaintext secret, url and notes; the group
/// reference is remapped through the import's links, and a missing
/// timestamp reads as the import's clock.
pub proof fn lemma_credentials_round_trip(
    store: VaultStore,
    after: VaultStore,
    snap: Snapshot,
    sealed_passwords: Seq<Option<String>>,
    sealed_notes: Seq<Option<String>>,
    now: String,
    key: Seq<u8>,
    stamp: Seq<char>,
    exported: Snapshot,
)
    requires
        store.passwords@.len() == 0,
        store.next_password_id + snap.passwords@.len() <= i64::MAX,
        credential_keys_distinct(snap.passwords@),
        passwords_sealed(key, snap.passwords@, sealed_passwords),
        sealed_notes.len() == snap.notes@.len(),
        store_holds(after, merge_outcome(store, snap, sealed_passwords, sealed_notes, now), store),
        snapshot_of(key, after, stamp, exported),
    ensures
        exported.passwords@.len() == snap.passwords@.len(),
        forall|j: int| 0 <= j < exported.passwords@.len() ==> {
            let e = #[trigger] exported.passwords@[j];
            let b = snap.passwords@[j];
            &&& e.title == b.title
            &&& e.username == b.username
            &&& opt_view(e.password) == opt_view(b.password)
            &&& e.url == b.url
            &&& e.notes == b.notes
            &&& e.group_id == resolved_group(merge_outcome(store, snap, sealed_passwords, sealed_notes, now).groups.links, b.group_id)
            &&& e.created_at == crate::merge::stamped(b.created_at, now)
            &&& e.updated_at == crate::merge::stamped(b.updated_at, now)
        },
{
    let once = merge_outcome(store, snap, sealed_passwords, sealed_notes, now);
    let st = PasswordFold { rows: store.passwords@, next_id: store.next_password_id, inserted: 0 };
    lemma_password_pass_fresh(st, snap.passwords@, sealed_passwords, once.groups.links, now, snap.passwords@.len() as int);
    assert forall|j: int| 0 <= j < exported.passwords@.len() implies {
        let e = #[trigger] exported.passwords@[j];
        let b = snap.passwords@[j];
        &&& e.title == b.title
        &&& e.username == b.username
        &&& opt_view(e.password) == opt_view(b.password)
        &&& e.url == b.url
        &&& e.notes == b.notes
        &&& e.group_id == resolved_group(once.groups.links, b.group_id)
        &&& e.created_at == crate::merge::stamped(b.created_at, now)
        &&& e.updated_at == crate::merge::stamped(b.updated_at, now)
    } by {
        assert(password_archived(key, after.passwords@[j], exported.passwords@[j]));
        assert(credential_inserted(after.passwords@[j], snap.passwords@[j], st.next_id + j, sealed_passwords[j],
            resolved_group(once.groups.links, snap.passwords@[j].group_id), now));
        crate::snapshot::lemma_sealed_reveals(key, opt_view(snap.passwords@[j].password), opt_view(sealed_passwords[j]));
    }
}

/// Whether no two archived settings share a key.
pub open spec fn setting_keys_distinct(archive: Seq<BackupSetting>) -> bool {
    forall|i: int, j: int| 0 <= i < j < archive.len() ==> #[trigger] archive[i].key@ != #[trigger] archive[j].key@
}

/// Whether row `s` is setting `b` as first inserted with identifier `id`.
pub open spec fn setting_inserted(s: UserSetting, b: BackupSetting, id: int, now: String) -> bool {
    &&& s.id == Some(id as i64)
    &&& s.key == b.key
    &&& s.value == b.value
    &&& s.setting_type == b.setting_type
    &&& s.category == b.category
    &&& s.description == b.description
    &&& s.created_at == crate::merge::stamped(b.created_at, now)
    &&& s.updated_at == crate::merge::stamped(b.updated_at, now)
}

proof fn lemma_setting_pass_fresh(st: SettingFold, archive: Seq<BackupSetting>, now: String, k: int)
    requires
        st.rows.len() == 0,
        setting_keys_distinct(archive),
        0 <= k <= archive.len(),
        st.next_id + archive.len() <= i64::MAX,
    ensures
        setting_pass(st, archive, now, k).rows.len() == k,
        setting_pass(st, archive, now, k).skipped == st.skipped,
        setting_pass(st, archive, now, k).next_id == st.next_id + k,
        forall|j: int| 0 <= j < k ==> setting_inserted(#[trigger] setting_pass(st, archive, now, k).rows[j], archive[j], st.next_id + j, now),
    decreases k,
{
    if k > 0 {
        lemma_setting_pass_fresh(st, archive, now, k - 1);
        let prev = setting_pass(st, archive, now, k - 1);
        let e = archive[k - 1];
        assert forall|i: int| 0 <= i < prev.rows.len() implies !setting_row_matches(#[trigger] prev.rows[i], e.key@) by {
            assert(setting_inserted(prev.rows[i], archive[i], st.next_id + i, now));
        }
        assert(first_setting_match(prev.rows, e.key@) is None);
    }
}

/// Round trip of settings: a snapshot imported into a store without
/// settings and exported again gives back every setting in order, with its
/// key, value, type, category and description; none is skipped.
pub proof fn lemma_settings_round_trip(
    store: VaultStore,
    after: VaultStore,
    snap: Snapshot,
    sealed_passwords: Seq<Option<String>>,
    sealed_notes: Seq<Option<String>>,
    now: String,
    key: Seq<u8>,
    stamp: Seq<char>,
    exported: Snapshot,
)
    requires
        store.settings@.len() == 0,
        store.next_setting_id + snap.user_settings@.len() <= i64::MAX,
        setting_keys_distinct(snap.user_settings@),
        store_holds(after, merge_outcome(store, snap, sealed_passwords, sealed_notes, now), store),
        snapshot_of(key, after, stamp, exported),
    ensures
        merge_outcome(store, snap, sealed_passwords, sealed_notes, now).settings.skipped.len() == 0,
        exported.user_settings@.len() == snap.user_settings@.len(),
        forall|j: int| 0 <= j < exported.user_settings@.len() ==> {
            let e = #[trigger] exported.user_settings@[j];
            let b = snap.user_settings@[j];
            &&& e.key == b.key
            &&& e.value == b.value
            &&& e.setting_type == b.setting_type
            &&& e.category == b.category
            &&& e.description == b.description
            &&& e.created_at == crate::merge::stamped(b.created_at, now)
            &&& e.updated_at == crate::merge::stamped(b.updated_at, now)
        },
{
    let st = SettingFold { rows: store.settings@, next_id: store.next_setting_id, inserted: 0, skipped: Seq::empty() };
    lemma_setting_pass_fresh(st, snap.user_settings@, now, snap.user_settings@.len() as int);
    assert forall|j: int| 0 <= j < exported.user_settings@.len() implies {
        let e = #[trigger] exported.user_settings@[j];
        let b = snap.user_settings@[j];
        &&& e.key == b.key
        &&& e.value == b.value
        &&& e.setting_type == b.setting_type
        &&& e.category == b.category
        &&& e.description == b.description
        &&& e.created_at == crate::merge::stamped(b.created_at, now)
        &&& e.updated_at == crate::merge::stamped(b.updated_at, now)
    } by {
        assert(crate::snapshot::setting_archived(after.settings@[j], exported.user_settings@[j]));
        assert(setting_inserted(after.settings@[j], snap.user_settings@[j], st.next_id + j, now));
    }
}

/// Whether no two archived notes share a title and land in the same group
/// under `links`.
pub open spec fn note_keys_distinct(archive: Seq<BackupNote>, links: Seq<(i64, i64)>) -> bool {
    forall|i: int, j: int| 0 <= i < j < archive.len() ==>
        !(#[trigger] archive[i].title@ == #[trigger] archive[j].title@
            && resolved_group(links, archive[i].group_id) == resolved_group(links, archive[j].group_id))
}

/// Whether row `n` is note `b` as first inserted with identifier `id`.
pub open spec fn note_inserted(n: SecureRecord, b: BackupNote, id: int, sealed: Option<String>, group: Option<i64>, now: String) -> bool {
    &&& n.id == Some(id as i64)
    &&& n.title == b.title
    &&& n.content == sealed
    &&& n.group_id == group
    &&& n.pinned == Some(b.pinned)
    &&& n.archived == Some(b.archived)
    &&& n.created_at == crate::merge::stamped(b.created_at, now)
    &&& n.updated_at == crate::merge::stamped(b.updated_at, now)
}

proof fn lemma_note_pass_fresh(
    st: NoteFold,
    archive: Seq<BackupNote>,
    sealed: Seq<Option<String>>,
    links: Seq<(i64, i64)>,
    now: String,
    k: int,
)
    requires
        st.rows.len() == 0,
        note_keys_distinct(archive, links),
        sealed.len() == archive.len(),
        0 <= k <= archive.len(),
        st.next_id + archive.len() <= i64::MAX,
    ensures
        note_pass(st, archive, sealed, links, now, k).rows.len() == k,
        note_pass(st, archive, sealed, links, now, k).next_id == st.next_id + k,
        forall|j: int| 0 <= j < k ==> note_inserted(
            #[trigger] note_pass(st, archive, sealed, links, now, k).rows[j],
            archive[j], st.next_id + j, sealed[j], resolved_group(links, archive[j].group_id), now),
    decreases k,
{
    if k > 0 {
        lemma_note_pass_fresh(st, archive, sealed, links, now, k - 1);
        let prev = note_pass(st, archive, sealed, links, now, k - 1);
        let e = archive[k - 1];
        let group = resolved_group(links, e.group_id);
        assert forall|i: int| 0 <= i < prev.rows.len() implies !note_row_matches(#[trigger] prev.rows[i], e.title@, group) by {
            assert(note_inserted(prev.rows[i], archive[i], st.next_id + i, sealed[i],
                resolved_group(links, archive[i].group_id), now));
        }
        assert(first_note_match(prev.rows, e.title@, group) is None);
    }
}

/// Round trip of notes: a snapshot imported into a store without notes and
/// exported again gives back every note in order, with its title, plaintext
/// body and flags, its group remapped through the import's links; unless
/// two notes share a title and land in the same group.
pub proof fn lemma_notes_round_trip(
    store: VaultStore,
    after: VaultStore,
    snap: Snapshot,
    sealed_passwords: Seq<Option<String>>,
    sealed_notes: Seq<Option<String>>,
    now: String,
    key: Seq<u8>,
    stamp: Seq<char>,
    exported: Snapshot,
)
    requires
        store.notes@.len() == 0,
        store.next_note_id + snap.notes@.len() <= i64::MAX,
        note_keys_distinct(snap.notes@, merge_outcome(store, snap, sealed_passwords, sealed_notes, now).note_groups.links),
        crate::import::notes_sealed(key, snap.notes@, sealed_notes),
        sealed_passwords.len() == snap.passwords@.len(),
        store_holds(after, merge_outcome(store, snap, sealed_passwords, sealed_notes, now), store),
        snapshot_of(key, after, stamp, exported),
    ensures
        exported.notes@.len() == snap.notes@.len(),
        forall|j: int| 0 <= j < exported.notes@.len() ==> {
            let e = #[trigger] exported.notes@[j];
            let b = snap.notes@[j];
            &&& e.title == b.title
            &&& opt_view(e.content) == opt_view(b.content)
            &&& e.pinned == b.pinned
            &&& e.archived == b.archived
            &&& e.group_id == resolved_group(merge_outcome(store, snap, sealed_passwords, sealed_notes, now).note_groups.links, b.group_id)
            &&& e.created_at == crate::merge::stamped(b.created_at, now)
            &&& e.updated_at == crate::merge::stamped(b.updated_at, now)
        },
{
    let once = merge_outcome(store, snap, sealed_passwords, sealed_notes, now);
    let st = NoteFold { rows: store.notes@, next_id: store.next_note_id, inserted: 0 };
    lemma_note_pass_fresh(st, snap.notes@, sealed_notes, once.note_groups.links, now, snap.notes@.len() as int);
    assert forall|j: int| 0 <= j < exported.notes@.len() implies {
        let e = #[trigger] exported.notes@[j];
        let b = snap.notes@[j];
        &&& e.title == b.title
        &&& opt_view(e.content) == opt_view(b.content)
        &&& e.pinned == b.pinned
        &&& e.archived == b.archived
        &&& e.group_id == resolved_group(once.note_groups.links, b.group_id)
        &&& e.created_at == crate::merge::stamped(b.created_at, now)
        &&& e.updated_at == crate::merge::stamped(b.updated_at, now)
    } by {
        assert(crate::snapshot::note_archived(key, after.notes@[j], exported.notes@[j]));
        assert(note_inserted(after.notes@[j], snap.notes@[j], st.next_id + j, sealed_notes[j],
            resolved_group(once.note_groups.links, snap.notes@[j].group_id), now));
        crate::snapshot::lemma_sealed_reveals(key, opt_view(snap.notes@[j].content), opt_view(sealed_notes[j]));
    }
}

/// Whether no two archived groups have the same name under the same
/// archived parent (roots counting as siblings of each other).
pub open spec fn sibling_names_distinct(archive: Seq<BackupGroup>) -> bool {
    forall|i: int, j: int| 0 <= i < archive.len() && 0 <= j < archive.len() && i != j
        && #[trigger] archive[i].name@ == #[trigger] archive[j].name@ ==> {
        let ri = is_root_entry(archive, archive[i]);
        let rj = is_root_entry(archive, archive[j]);
        ri != rj || (!ri && archive[i].parent_id->0 != archive[j].parent_id->0)
    }
}

/// The row that merging archived group `b` inserts with identifier `id`
/// under `parent`.
pub open spec fn group_inserted(b: BackupGroup, id: i64, parent: Option<i64>, now: String) -> Group {
    Group {
        id: Some(id),
        name: b.name,
        parent_id: parent,
        icon: None,
        color: b.color,
        sort_order: b.sort,
        created_at: crate::merge::stamped(b.created_at, now),
        updated_at: crate::merge::stamped(b.updated_at, now),
    }
}

/// Every row belongs to a merged group, as that group inserted it.
#[verifier::opaque]
pub open spec fn rows_owned(st: GroupFold, archive: Seq<BackupGroup>, done: spec_fn(int) -> bool, now: String) -> bool {
    forall|i: int| 0 <= i < st.rows.len() ==> exists|j: int| 0 <= j < archive.len() && done(j)
        && #[trigger] st.rows[i] == group_inserted(archive[j], st.rows[i].id->0,
            placed_parent(st.links, archive, archive[j]), now)
}

/// Merged groups are linked to distinct identifiers below the next one.
#[verifier::opaque]
pub open spec fn links_fresh(st: GroupFold, archive: Seq<BackupGroup>, done: spec_fn(int) -> bool) -> bool {
    &&& forall|j: int| 0 <= j < archive.len() && #[trigger] done(j) ==> link_of(st.links, archive_key(archive[j]))->0 < st.next_id
    &&& forall|j: int, m: int| 0 <= j < archive.len() && 0 <= m < archive.len() && #[trigger] done(j) && #[trigger] done(m)
        && j != m ==> link_of(st.links, archive_key(archive[j])) != link_of(st.links, archive_key(archive[m]))
}

/// Every merged group has its row, as it inserted it.
#[verifier::opaque]
pub open spec fn groups_placed(st: GroupFold, archive: Seq<BackupGroup>, done: spec_fn(int) -> bool, now: String) -> bool {
    forall|j: int| 0 <= j < archive.len() && #[trigger] done(j) ==> exists|i: int| 0 <= i < st.rows.len()
        && #[trigger] st.rows[i] == group_inserted(archive[j], link_of(st.links, archive_key(archive[j]))->0,
            placed_parent(st.links, archive, archive[j]), now)
}

/// What holds of a merge into a store without groups once the archived
/// groups in `done` are merged: each has its own fresh row, as inserted.
pub open spec fn fresh_so_far(st: GroupFold, archive: Seq<BackupGroup>, done: spec_fn(int) -> bool, now: String) -> bool {
    &&& linked_so_far(st, archive, done)
    &&& rows_owned(st, archive, done, now)
    &&& links_fresh(st, archive, done)
    &&& groups_placed(st, archive, done, now)
}

/// The parent a group is placed under, when its parent is merged.
pub open spec fn parent_ready(st: GroupFold, archive: Seq<BackupGroup>, done: spec_fn(int) -> bool, m: int, parent: Option<i64>) -> bool {
    &&& is_root_entry(archive, archive[m]) ==> parent is None
    &&& !is_root_entry(archive, archive[m]) ==> parent == link_of(st.links, archive[m].parent_id->0)
        && exists|x: int| 0 <= x < archive.len() && done(x) && #[trigger] archive_key(archive[x]) == archive[m].parent_id->0
}

/// A group about to be merged matches no row: each row belongs to a group
/// of another name or another parent.
#[verifier::rlimit(60)]
proof fn lemma_fresh_no_match(
    st: GroupFold,
    archive: Seq<BackupGroup>,
    done: spec_fn(int) -> bool,
    m: int,
    parent: Option<i64>,
    now: String,
)
    requires
        archive_keys_unique(archive),
        sibling_names_distinct(archive),
        0 <= m < archive.len(),
        !done(m),
        linked_so_far(st, archive, done),
        rows_owned(st, archive, done, now),
        links_fresh(st, archive, done),
        parent_ready(st, archive, done, m, parent),
    ensures
        first_group_match(st.rows, archive[m].name@, parent) is None,
{
    reveal(rows_owned);
    reveal(links_fresh);
    let g = archive[m];
    assert forall|i: int| 0 <= i < st.rows.len() implies !group_row_matches(#[trigger] st.rows[i], g.name@, parent) by {
        let j = choose|j: int| 0 <= j < archive.len() && done(j)
            && #[trigger] st.rows[i] == group_inserted(archive[j], st.rows[i].id->0, placed_parent(st.links, archive, archive[j]), now);
        if group_row_matches(st.rows[i], g.name@, parent) {
            assert(j != m);
            assert(archive[j].name@ == archive[m].name@);
            let rj = is_root_entry(archive, archive[j]);
            let rm = is_root_entry(archive, g);
            if !rj {
                let x = choose|x: int| 0 <= x < archive.len() && done(x) && #[trigger] archive_key(archive[x]) == archive[j].parent_id->0;
                assert(link_of(st.links, archive_key(archive[x])) is Some);
                if !rm {
                    let y = choose|y: int| 0 <= y < archive.len() && done(y) && #[trigger] archive_key(archive[y]) == archive[m].parent_id->0;
                    assert(archive[j].parent_id->0 != archive[m].parent_id->0);
                    assert(x != y);
                    assert(link_of(st.links, archive_key(archive[x])) != link_of(st.links, archive_key(archive[y])));
                }
            } else if !rm {
                let y = choose|y: int| 0 <= y < archive.len() && done(y) && #[trigger] archive_key(archive[y]) == archive[m].parent_id->0;
                assert(link_of(st.links, archive_key(archive[y])) is Some);
            }
        }
    }
}

/// Whether every merged child's parent is merged too.
pub open spec fn parents_merged(archive: Seq<BackupGroup>, done: spec_fn(int) -> bool) -> bool {
    forall|j: int| 0 <= j < archive.len() && #[trigger] done(j) && !is_root_entry(archive, archive[j]) ==>
        exists|x: int| 0 <= x < archive.len() && done(x) && #[trigger] archive_key(archive[x]) == archive[j].parent_id->0
}

/// Linking one more group leaves every merged group's placed parent as it was.
proof fn lemma_placed_stable(
    links: Seq<(i64, i64)>,
    archive: Seq<BackupGroup>,
    done: spec_fn(int) -> bool,
    m: int,
    v: i64,
)
    requires
        archive_keys_unique(archive),
        0 <= m < archive.len(),
        !done(m),
        parents_merged(archive, done),
        !is_root_entry(archive, archive[m]) ==>
            exists|x: int| 0 <= x < archive.len() && done(x) && #[trigger] archive_key(archive[x]) == archive[m].parent_id->0,
    ensures
        forall|j: int| 0 <= j < archive.len() && (done(j) || j == m) ==>
            #[trigger] placed_parent(links.push((archive_key(archive[m]), v)), archive, archive[j]) == placed_parent(links, archive, archive[j]),
{
    let key = archive_key(archive[m]);
    let next = links.push((key, v));
    assert forall|q: i64| q != key implies link_of(next, q) == link_of(links, q) by {
        lemma_link_push(links, key, v, q);
    }
    assert forall|j: int| 0 <= j < archive.len() && (done(j) || j == m) implies
        #[trigger] placed_parent(next, archive, archive[j]) == placed_parent(links, archive, archive[j]) by {
        if !is_root_entry(archive, archive[j]) {
            if j == m {
                let y = choose|y: int| 0 <= y < archive.len() && done(y) && #[trigger] archive_key(archive[y]) == archive[m].parent_id->0;
                assert(y != m);
            } else {
                let y = choose|y: int| 0 <= y < archive.len() && done(y) && #[trigger] archive_key(archive[y]) == archive[j].parent_id->0;
                assert(y != m);
            }
        }
    }
}

/// What merging a group that matches no row does: its row is appended with
/// the next identifier, and its identifier is linked to it.
pub open spec fn appended(st: GroupFold, next: GroupFold, g: BackupGroup, parent: Option<i64>, now: String) -> bool {
    &&& next.links == st.links.push((archive_key(g), st.next_id))
    &&& next.rows == st.rows.push(group_inserted(g, st.next_id, parent, now))
    &&& next.next_id == st.next_id + 1
}

proof fn lemma_fresh_owned(
    st: GroupFold,
    next: GroupFold,
    archive: Seq<BackupGroup>,
    done: spec_fn(int) -> bool,
    m: int,
    parent: Option<i64>,
    now: String,
)
    requires
        0 <= m < archive.len(),
        rows_owned(st, archive, done, now),
        appended(st, next, archive[m], parent, now),
        placed_parent(st.links, archive, archive[m]) == parent,
        forall|j: int| 0 <= j < archive.len() && (done(j) || j == m) ==>
            #[trigger] placed_parent(next.links, archive, archive[j]) == placed_parent(st.links, archive, archive[j]),
    ensures
        rows_owned(next, archive, |j: int| done(j) || j == m, now),
{
    reveal(rows_owned);
    let done2 = |j: int| done(j) || j == m;
    assert forall|i: int| 0 <= i < next.rows.len() implies exists|j: int| 0 <= j < archive.len() && done2(j)
        && #[trigger] next.rows[i] == group_inserted(archive[j], next.rows[i].id->0,
            placed_parent(next.links, archive, archive[j]), now) by {
        if i < st.rows.len() {
            let j = choose|j: int| 0 <= j < archive.len() && done(j)
                && #[trigger] st.rows[i] == group_inserted(archive[j], st.rows[i].id->0, placed_parent(st.links, archive, archive[j]), now);
            assert(done2(j));
            assert(next.rows[i] == st.rows[i]);
            assert(next.rows[i] == group_inserted(archive[j], next.rows[i].id->0, placed_parent(next.links, archive, archive[j]), now));
        } else {
            assert(done2(m));
            assert(next.rows[i] == group_inserted(archive[m], next.rows[i].id->0, placed_parent(next.links, archive, archive[m]), now));
        }
    }
}

proof fn lemma_fresh_links(
    st: GroupFold,
    next: GroupFold,
    archive: Seq<BackupGroup>,
    done: spec_fn(int) -> bool,
    m: int,
    parent: Option<i64>,
    now: String,
)
    requires
        archive_keys_unique(archive),
        0 <= m < archive.len(),
        !done(m),
        links_fresh(st, archive, done),
        appended(st, next, archive[m], parent, now),
    ensures
        links_fresh(next, archive, |j: int| done(j) || j == m),
{
    reveal(links_fresh);
    let done2 = |j: int| done(j) || j == m;
    let key = archive_key(archive[m]);
    assert forall|q: i64| q != key implies link_of(next.links, q) == link_of(st.links, q) by {
        lemma_link_push(st.links, key, st.next_id, q);
    }
    lemma_link_push(st.links, key, st.next_id, key);
    assert forall|j: int| 0 <= j < archive.len() && #[trigger] done2(j) implies link_of(next.links, archive_key(archive[j]))->0 < next.next_id by {
        if j != m {
            assert(archive_key(archive[j]) != key);
        }
    }
    assert forall|j: int, k: int| 0 <= j < archive.len() && 0 <= k < archive.len() && #[trigger] done2(j) && #[trigger] done2(k)
        && j != k implies link_of(next.links, archive_key(archive[j])) != link_of(next.links, archive_key(archive[k])) by {
        if j != m {
            assert(archive_key(archive[j]) != key);
        }
        if k != m {
            assert(archive_key(archive[k]) != key);
        }
        if j != m && k != m {
            assert(done(j) && done(k));
        }
    }
}

proof fn lemma_fresh_placed(
    st: GroupFold,
    next: GroupFold,
    archive: Seq<BackupGroup>,
    done: spec_fn(int) -> bool,
    m: int,
    parent: Option<i64>,
    now: String,
)
    requires
        archive_keys_unique(archive),
        0 <= m < archive.len(),
        !done(m),
        groups_placed(st, archive, done, now),
        appended(st, next, archive[m], parent, now),
        placed_parent(st.links, archive, archive[m]) == parent,
        forall|j: int| 0 <= j < archive.len() && (done(j) || j == m) ==>
            #[trigger] placed_parent(next.links, archive, archive[j]) == placed_parent(st.links, archive, archive[j]),
    ensures
        groups_placed(next, archive, |j: int| done(j) || j == m, now),
{
    reveal(groups_placed);
    let done2 = |j: int| done(j) || j == m;
    let key = archive_key(archive[m]);
    assert forall|q: i64| q != key implies link_of(next.links, q) == link_of(st.links, q) by {
        lemma_link_push(st.links, key, st.next_id, q);
    }
    lemma_link_push(st.links, key, st.next_id, key);
    assert forall|j: int| 0 <= j < archive.len() && #[trigger] done2(j) implies exists|i: int| 0 <= i < next.rows.len()
        && #[trigger] next.rows[i] == group_inserted(archive[j], link_of(next.links, archive_key(archive[j]))->0,
            placed_parent(next.links, archive, archive[j]), now) by {
        if j == m {
            assert(next.rows[st.rows.len() as int] == group_inserted(archive[j], st.next_id, parent, now));
        } else {
            assert(done(j));
            assert(archive_key(archive[j]) != key);
            let i = choose|i: int| 0 <= i < st.rows.len()
                && #[trigger] st.rows[i] == group_inserted(archive[j], link_of(st.links, archive_key(archive[j]))->0,
                    placed_parent(st.links, archive, archive[j]), now);
            assert(next.rows[i] == st.rows[i]);
        }
    }
}

/// Merging one more group into a store without collisions inserts its row
/// with the next identifier, and keeps every earlier group's row.
proof fn lemma_fresh_step(
    st: GroupFold,
    archive: Seq<BackupGroup>,
    done: spec_fn(int) -> bool,
    m: int,
    parent: Option<i64>,
    now: String,
)
    requires
        archive_keys_unique(archive),
        sibling_names_distinct(archive),
        0 <= m < archive.len(),
        !done(m),
        fresh_so_far(st, archive, done, now),
        parent_ready(st, archive, done, m, parent),
        st.next_id < i64::MAX,
    ensures
        fresh_so_far(apply_group(st, archive[m], parent, now), archive, |j: int| done(j) || j == m, now),
        apply_group(st, archive[m], parent, now).next_id == st.next_id + 1,
{
    let g = archive[m];
    lemma_apply_step(st, archive, done, m, parent, now);
    lemma_fresh_no_match(st, archive, done, m, parent, now);
    assert(parents_merged(archive, done));
    lemma_placed_stable(st.links, archive, done, m, st.next_id);
    let next = apply_group(st, g, parent, now);
    assert(appended(st, next, g, parent, now)) by {
        assert(next.rows == st.rows.push(group_inserted(g, st.next_id, parent, now)));
    }
    assert(placed_parent(st.links, archive, g) == parent);
    lemma_fresh_owned(st, next, archive, done, m, parent, now);
    lemma_fresh_links(st, next, archive, done, m, parent, now);
    lemma_fresh_placed(st, next, archive, done, m, parent, now);
}

proof fn lemma_owned_agree(st: GroupFold, archive: Seq<BackupGroup>, d1: spec_fn(int) -> bool, d2: spec_fn(int) -> bool, now: String)
    requires
        rows_owned(st, archive, d1, now),
        forall|j: int| 0 <= j < archive.len() ==> #[trigger] d1(j) == d2(j),
    ensures
        rows_owned(st, archive, d2, now),
{
    reveal(rows_owned);
    assert forall|i: int| 0 <= i < st.rows.len() implies exists|j: int| 0 <= j < archive.len() && d2(j)
        && #[trigger] st.rows[i] == group_inserted(archive[j], st.rows[i].id->0,
            placed_parent(st.links, archive, archive[j]), now) by {
        let j = choose|j: int| 0 <= j < archive.len() && d1(j)
            && #[trigger] st.rows[i] == group_inserted(archive[j], st.rows[i].id->0, placed_parent(st.links, archive, archive[j]), now);
        assert(d2(j));
    }
}

proof fn lemma_links_fresh_agree(st: GroupFold, archive: Seq<BackupGroup>, d1: spec_fn(int) -> bool, d2: spec_fn(int) -> bool)
    requires
        links_fresh(st, archive, d1),
        forall|j: int| 0 <= j < archive.len() ==> #[trigger] d1(j) == d2(j),
    ensures
        links_fresh(st, archive, d2),
{
    reveal(links_fresh);
    assert forall|j: int| 0 <= j < archive.len() && #[trigger] d2(j) implies link_of(st.links, archive_key(archive[j]))->0 < st.next_id by {
        assert(d1(j));
    }
    assert forall|j: int, m: int| 0 <= j < archive.len() && 0 <= m < archive.len() && #[trigger] d2(j) && #[trigger] d2(m)
        && j != m implies link_of(st.links, archive_key(archive[j])) != link_of(st.links, archive_key(archive[m])) by {
        assert(d1(j) && d1(m));
    }
}

proof fn lemma_placed_agree(st: GroupFold, archive: Seq<BackupGroup>, d1: spec_fn(int) -> bool, d2: spec_fn(int) -> bool, now: String)
    requires
        groups_placed(st, archive, d1, now),
        forall|j: int| 0 <= j < archive.len() ==> #[trigger] d1(j) == d2(j),
    ensures
        groups_placed(st, archive, d2, now),
{
    reveal(groups_placed);
    assert forall|j: int| 0 <= j < archive.len() && #[trigger] d2(j) implies exists|i: int| 0 <= i < st.rows.len()
        && #[trigger] st.rows[i] == group_inserted(archive[j], link_of(st.links, archive_key(archive[j]))->0,
            placed_parent(st.links, archive, archive[j]), now) by {
        assert(d1(j));
    }
}

proof fn lemma_fresh_done_agree(
    st: GroupFold,
    archive: Seq<BackupGroup>,
    d1: spec_fn(int) -> bool,
    d2: spec_fn(int) -> bool,
    now: String,
)
    requires
        fresh_so_far(st, archive, d1, now),
        forall|j: int| 0 <= j < archive.len() ==> #[trigger] d1(j) == d2(j),
    ensures
        fresh_so_far(st, archive, d2, now),
{
    lemma_done_agree(st, archive, d1, d2);
    lemma_owned_agree(st, archive, d1, d2, now);
    lemma_links_fresh_agree(st, archive, d1, d2);
    lemma_placed_agree(st, archive, d1, d2, now);
}

proof fn lemma_root_fresh(st: GroupFold, archive: Seq<BackupGroup>, now: String, k: int)
    requires
        st.rows.len() == 0,
        st.links.len() == 0,
        archive_keys_unique(archive),
        sibling_names_distinct(archive),
        0 <= k <= archive.len(),
        st.next_id + archive.len() <= i64::MAX,
    ensures
        fresh_so_far(root_pass(st, archive, now, k), archive, |j: int| j < k && is_root_entry(archive, archive[j]), now),
        root_pass(st, archive, now, k).next_id == st.next_id + root_keys(archive, k).len(),
        root_keys(archive, k).len() <= k,
    decreases k,
{
    let done = |j: int| j < k && is_root_entry(archive, archive[j]);
    if k == 0 {
        lemma_root_pass(st, archive, now, 0);
        reveal(rows_owned);
        reveal(links_fresh);
        reveal(groups_placed);
    } else {
        lemma_root_fresh(st, archive, now, k - 1);
        let prev_done = |j: int| j < k - 1 && is_root_entry(archive, archive[j]);
        let prev = root_pass(st, archive, now, k - 1);
        if is_root_entry(archive, archive[k - 1]) {
            lemma_fresh_step(prev, archive, prev_done, k - 1, None, now);
            let d2 = |j: int| prev_done(j) || j == k - 1;
            assert(d2 =~= done);
        } else {
            assert(prev_done =~= done);
        }
    }
}

proof fn lemma_child_fresh(mid: GroupFold, archive: Seq<BackupGroup>, order: Seq<int>, now: String, k: int)
    requires
        archive_keys_unique(archive),
        sibling_names_distinct(archive),
        valid_order(archive, order),
        0 <= k <= order.len(),
        fresh_so_far(mid, archive, |j: int| is_root_entry(archive, archive[j]), now),
        mid.next_id + order.len() <= i64::MAX,
    ensures
        fresh_so_far(child_pass(mid, archive, order, now, k), archive,
            |j: int| is_root_entry(archive, archive[j]) || exists|s: int| 0 <= s < k && order[s] == j, now),
        child_pass(mid, archive, order, now, k).next_id == mid.next_id + k,
    decreases k,
{
    let done = |j: int| is_root_entry(archive, archive[j]) || exists|s: int| 0 <= s < k && order[s] == j;
    if k == 0 {
        lemma_fresh_done_agree(mid, archive, |j: int| is_root_entry(archive, archive[j]), done, now);
    } else {
        lemma_child_fresh(mid, archive, order, now, k - 1);
        let prev_done = |j: int| is_root_entry(archive, archive[j]) || exists|s: int| 0 <= s < k - 1 && order[s] == j;
        let prev = child_pass(mid, archive, order, now, k - 1);
        let m = order[k - 1];
        let g = archive[m];
        assert(0 <= m < archive.len() && !is_root_entry(archive, g));
        assert(!prev_done(m)) by {
            if exists|s: int| 0 <= s < k - 1 && order[s] == m {
                let s = choose|s: int| 0 <= s < k - 1 && order[s] == m;
                assert(order[s] != order[k - 1]);
            }
        }
        assert(parent_placed_before(archive, order, k - 1));
        let x = choose|x: int| 0 <= x < archive.len()
            && archive_key(#[trigger] archive[x]) == parent_key(archive[order[k - 1]])
            && (is_root_entry(archive, archive[x]) || exists|s: int| 0 <= s < k - 1 && #[trigger] order[s] == x);
        assert(prev_done(x));
        let parent = link_of(prev.links, parent_key(g));
        assert(parent_key(g) == g.parent_id->0);
        assert(parent_ready(prev, archive, prev_done, m, parent));
        lemma_fresh_step(prev, archive, prev_done, m, parent, now);
        let d2 = |j: int| prev_done(j) || j == m;
        assert forall|j: int| 0 <= j < archive.len() implies #[trigger] d2(j) == done(j) by {
            if exists|s: int| 0 <= s < k && order[s] == j {
                let s = choose|s: int| 0 <= s < k && order[s] == j;
                if s < k - 1 {
                    assert(prev_done(j));
                }
            }
            if j == m {
                assert(done(j));
            }
        }
        lemma_fresh_done_agree(child_pass(mid, archive, order, now, k), archive, d2, done, now);
    }
}

/// Round trip of a group forest: merged into a store without groups, every
/// archived group gets a row of its own, inserted with its name, colour,
/// sort key and timestamps (the import's clock where one is missing), under
/// the row linked to its archived parent; unless two archived groups share
/// a name under the same archived parent.
pub proof fn lemma_groups_round_trip(st: GroupFold, archive: Seq<BackupGroup>, order: Seq<int>, now: String, k: int)
    requires
        st.rows.len() == 0,
        st.links.len() == 0,
        st.next_id + archive.len() <= i64::MAX,
        valid_order(archive, order),
        root_keys(archive, archive.len() as int).len() + order.len() == archive.len(),
        archive_keys_unique(archive),
        sibling_names_distinct(archive),
        0 <= k < archive.len(),
    ensures
        ({
            let end = merge_groups_spec(st, archive, order, now);
            exists|i: int| 0 <= i < end.rows.len() && #[trigger] end.rows[i] == group_inserted(archive[k],
                link_of(end.links, archive_key(archive[k]))->0, placed_parent(end.links, archive, archive[k]), now)
        }),
{
    let n = archive.len() as int;
    lemma_root_fresh(st, archive, now, n);
    let mid = root_pass(st, archive, now, n);
    lemma_fresh_done_agree(mid, archive, |j: int| j < n && is_root_entry(archive, archive[j]),
        |j: int| is_root_entry(archive, archive[j]), now);
    lemma_child_fresh(mid, archive, order, now, order.len() as int);
    let done = |j: int| is_root_entry(archive, archive[j]) || exists|s: int| 0 <= s < order.len() && order[s] == j;
    if !is_root_entry(archive, archive[k]) {
        assert(order.contains(k));
    }
    assert(done(k));
    let end = merge_groups_spec(st, archive, order, now);
    reveal(groups_placed);
    assert(groups_placed(end, archive, done, now));
}

/// Round trip of credential groups: a snapshot imported into a store
/// without groups and exported again holds, for every archived group, a
/// group with its name, colour, sort key and timestamps (the import's clock
/// where one is missing), whose identifier is the one the group was linked
/// to and whose parent is the identifier its archived parent was linked to.
/// It holds of every archive without a cycle of parents (witnessed by any
/// order that lists each child after its parent), whatever order the
/// archive lists its groups in; unless two archived groups share a name
/// under the same archived parent.
pub proof fn lemma_group_forest_round_trip(
    store: VaultStore,
    after: VaultStore,
    snap: Snapshot,
    sealed_passwords: Seq<Option<String>>,
    sealed_notes: Seq<Option<String>>,
    now: String,
    key: Seq<u8>,
    stamp: Seq<char>,
    exported: Snapshot,
    acyclic_order: Seq<int>,
    k: int,
)
    requires
        store.groups@.len() == 0,
        store.next_group_id + snap.groups@.len() <= i64::MAX,
        valid_order(snap.groups@, acyclic_order),
        archive_keys_unique(snap.groups@),
        sibling_names_distinct(snap.groups@),
        0 <= k < snap.groups@.len(),
        store_holds(after, merge_outcome(store, snap, sealed_passwords, sealed_notes, now), store),
        snapshot_of(key, after, stamp, exported),
    ensures
        ({
            let links = merge_outcome(store, snap, sealed_passwords, sealed_notes, now).groups.links;
            let b = snap.groups@[k];
            exists|i: int| 0 <= i < exported.groups@.len() && {
                let e = #[trigger] exported.groups@[i];
                &&& e.id == Some(link_of(links, archive_key(b))->0)
                &&& e.name == b.name
                &&& e.parent_id == placed_parent(links, snap.groups@, b)
                &&& e.color == b.color
                &&& e.sort == b.sort
                &&& e.created_at == crate::merge::stamped(b.created_at, now)
                &&& e.updated_at == crate::merge::stamped(b.updated_at, now)
            }
        }),
{
    let st = GroupFold { rows: store.groups@, links: Seq::empty(), next_id: store.next_group_id, inserted: 0 };
    lemma_resolution_complete(snap.groups@, acyclic_order);
    lemma_resolution_valid(snap.groups@);
    let order = group_order(snap.groups@);
    lemma_groups_round_trip(st, snap.groups@, order, now, k);
    let end = merge_groups_spec(st, snap.groups@, order, now);
    let i = choose|i: int| 0 <= i < end.rows.len() && #[trigger] end.rows[i] == group_inserted(snap.groups@[k],
        link_of(end.links, archive_key(snap.groups@[k]))->0, placed_parent(end.links, snap.groups@, snap.groups@[k]), now);
    assert(crate::snapshot::group_archived(after.groups@[i], exported.groups@[i]));
}

} // verus!
