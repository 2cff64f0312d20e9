//! The order in which a group forest's children are merged: repeated passes
//! over the children still pending, each placing, in archive order, every
//! child whose parent is already placed. Roots are placed before any pass.
//! Resolution fails exactly when a pass places nothing, that is when the
//! pending children's parent links run in a cycle.
use vstd::prelude::*;
use crate::merge::{archive_key, is_root_entry};
use crate::snapshot::BackupGroup;

verus! {

/// The identifier a group names as its parent; a missing one reads as 0.
pub open spec fn parent_key(g: BackupGroup) -> i64 {
    match g.parent_id {
        Some(p) => p,
        None => 0,
    }
}

/// The identifiers of the first `k` archived root entries, in order.
pub open spec fn root_keys(archive: Seq<BackupGroup>, k: int) -> Seq<i64>
    decreases k,
{
    if k <= 0 {
        Seq::empty()
    } else if is_root_entry(archive, archive[k - 1]) {
        root_keys(archive, k - 1).push(archive_key(archive[k - 1]))
    } else {
        root_keys(archive, k - 1)
    }
}

/// The indices of the first `k` archived entries that are children, in order.
pub open spec fn child_indices(archive: Seq<BackupGroup>, k: int) -> Seq<int>
    decreases k,
{
    if k <= 0 {
        Seq::empty()
    } else if is_root_entry(archive, archive[k - 1]) {
        child_indices(archive, k - 1)
    } else {
        child_indices(archive, k - 1).push(k - 1)
    }
}

/// One pass over `pending` with the placed identifiers `keys`: the children
/// placed, in order, those left pending, and the identifiers placed after it.
pub open spec fn pass_spec(archive: Seq<BackupGroup>, keys: Seq<i64>, pending: Seq<int>) -> (Seq<int>, Seq<int>, Seq<i64>)
    decreases pending.len(),
{
    if pending.len() == 0 {
        (Seq::empty(), Seq::empty(), keys)
    } else {
        let (placed, rest, ks) = pass_spec(archive, keys, pending.drop_last());
        let k = pending.last();
        if ks.contains(parent_key(archive[k])) {
            (placed.push(k), rest, ks.push(archive_key(archive[k])))
        } else {
            (placed, rest.push(k), ks)
        }
    }
}

/// Passes until nothing is pending; `None` where a pass places nothing (or
/// the passes allowed run out, which they never do before that).
pub open spec fn rounds_spec(archive: Seq<BackupGroup>, keys: Seq<i64>, pending: Seq<int>, fuel: nat) -> Option<Seq<int>>
    decreases fuel,
{
    if pending.len() == 0 {
        Some(Seq::empty())
    } else if fuel == 0 {
        None
    } else {
        let (placed, rest, ks) = pass_spec(archive, keys, pending);
        if placed.len() == 0 {
            None
        } else {
            match rounds_spec(archive, ks, rest, (fuel - 1) as nat) {
                Some(o) => Some(placed + o),
                None => None,
            }
        }
    }
}

/// The order in which the archive's children are merged, if every one can
/// be placed after its parent.
pub open spec fn resolution_order(archive: Seq<BackupGroup>) -> Option<Seq<int>> {
    let children = child_indices(archive, archive.len() as int);
    rounds_spec(archive, root_keys(archive, archive.len() as int), children, children.len())
}

/// Whether `order` lists every child of the archive once, each after its
/// parent: the parent is a root entry or comes earlier in `order`.
pub open spec fn valid_order(archive: Seq<BackupGroup>, order: Seq<int>) -> bool {
    &&& forall|t: int| 0 <= t < order.len() ==> 0 <= #[trigger] order[t] < archive.len()
        && !is_root_entry(archive, archive[order[t]])
    &&& forall|s: int, t: int| 0 <= s < t < order.len() ==> #[trigger] order[s] != #[trigger] order[t]
    &&& forall|k: int| 0 <= k < archive.len() && !is_root_entry(archive, #[trigger] archive[k]) ==> order.contains(k)
    &&& forall|t: int| 0 <= t < order.len() ==> #[trigger] parent_placed_before(archive, order, t)
}

/// Whether the parent of the `t`-th child in `order` is a root entry or an
/// earlier child of `order`.
pub open spec fn parent_placed_before(archive: Seq<BackupGroup>, order: Seq<int>, t: int) -> bool {
    exists|j: int| 0 <= j < archive.len()
        && archive_key(#[trigger] archive[j]) == parent_key(archive[order[t]])
        && (is_root_entry(archive, archive[j]) || exists|s: int| 0 <= s < t && #[trigger] order[s] == j)
}

/// Indices as mathematical integers.
pub open spec fn indices(v: Seq<usize>) -> Seq<int> {
    v.map_values(|x: usize| x as int)
}

fn key_of(g: &BackupGroup) -> (r: i64)
    ensures
        r == archive_key(*g),
{
    match g.id {
        Some(x) => x,
        None => 0,
    }
}

fn contains_key(keys: &Vec<i64>, q: i64) -> (r: bool)
    ensures
        r == keys@.contains(q),
{
    let mut i: usize = 0;
    while i < keys.len()
        invariant
            i <= keys@.len(),
            forall|j: int| 0 <= j < i ==> keys@[j] != q,
        decreases keys@.len() - i,
    {
        if keys[i] == q {
            assert(keys@[i as int] == q);
            return true;
        }
        i = i + 1;
    }
    false
}

/// Whether `g` is a root entry of `archive`.
fn is_root(archive: &Vec<BackupGroup>, g: &BackupGroup) -> (r: bool)
    ensures
        r == is_root_entry(archive@, *g),
{
    match g.parent_id {
        None => true,
        Some(p) => {
            let mut i: usize = 0;
            while i < archive.len()
                invariant
                    i <= archive@.len(),
                    g.parent_id == Some(p),
                    forall|k: int| 0 <= k < i ==> archive_key(#[trigger] archive@[k]) != p,
                decreases archive@.len() - i,
            {
                if key_of(&archive[i]) == p {
                    assert(archive_key(archive@[i as int]) == p);
                    assert(crate::merge::archive_has_key(archive@, p));
                    return false;
                }
                i = i + 1;
            }
            true
        },
    }
}

/// The order in which the archive's children are merged, or `None` where a
/// pass places nothing.
pub fn resolve_order(archive: &Vec<BackupGroup>) -> (r: Option<Vec<usize>>)
    ensures
        match r {
            Some(o) => resolution_order(archive@) == Some(indices(o@)),
            None => resolution_order(archive@) is None,
        },
        r matches Some(o) ==> root_keys(archive@, archive@.len() as int).len() + o@.len() == archive@.len()
            && forall|t: int| 0 <= t < o@.len() ==> #[trigger] o@[t] < archive@.len(),
{
    let n = archive.len();
    let mut keys: Vec<i64> = Vec::new();
    let mut pending: Vec<usize> = Vec::new();
    let mut i: usize = 0;
    while i < n
        invariant
            n == archive@.len(),
            i <= n,
            keys@ == root_keys(archive@, i as int),
            indices(pending@) == child_indices(archive@, i as int),
            keys@.len() + pending@.len() == i,
            forall|t: int| 0 <= t < pending@.len() ==> #[trigger] pending@[t] < n,
        decreases n - i,
    {
        let ghost before = pending@;
        if is_root(archive, &archive[i]) {
            keys.push(key_of(&archive[i]));
        } else {
            pending.push(i);
            assert(indices(pending@) =~= indices(before).push(i as int));
        }
        i = i + 1;
    }
    let ghost total = resolution_order(archive@);
    let ghost nroots = keys@.len();
    let mut order: Vec<usize> = Vec::new();
    let mut fuel: usize = pending.len();
    proof {
        assert(indices(order@) =~= Seq::<int>::empty());
        assert(total == rounds_spec(archive@, keys@, indices(pending@), fuel as nat));
        assert(indices(pending@).len() == pending@.len());
        match rounds_spec(archive@, keys@, indices(pending@), fuel as nat) {
            Some(o) => {
                assert(indices(order@) + o =~= o);
            },
            None => {},
        }
    }
    while pending.len() > 0
        invariant
            n == archive@.len(),
            forall|t: int| 0 <= t < pending@.len() ==> #[trigger] pending@[t] < n,
            forall|t: int| 0 <= t < order@.len() ==> #[trigger] order@[t] < n,
            nroots == root_keys(archive@, n as int).len(),
            nroots + order@.len() + pending@.len() == n,
            total == resolution_order(archive@),
            total == match rounds_spec(archive@, keys@, indices(pending@), fuel as nat) {
                Some(o) => Some(indices(order@) + o),
                None => None::<Seq<int>>,
            },
        decreases fuel,
    {
        if fuel == 0 {
            return None;
        }
        let mut placed: Vec<usize> = Vec::new();
        let mut rest: Vec<usize> = Vec::new();
        let ghost keys0 = keys@;
        let mut j: usize = 0;
        proof {
            assert(indices(pending@).take(0) =~= Seq::<int>::empty());
            assert(indices(placed@) =~= Seq::<int>::empty());
            assert(indices(rest@) =~= Seq::<int>::empty());
        }
        while j < pending.len()
            invariant
                n == archive@.len(),
                j <= pending@.len(),
                forall|t: int| 0 <= t < pending@.len() ==> #[trigger] pending@[t] < n,
                forall|t: int| 0 <= t < placed@.len() ==> #[trigger] placed@[t] < n,
                forall|t: int| 0 <= t < rest@.len() ==> #[trigger] rest@[t] < n,
                placed@.len() + rest@.len() == j,
                pass_spec(archive@, keys0, indices(pending@).take(j as int)) == (indices(placed@), indices(rest@), keys@),
            decreases pending@.len() - j,
        {
            let k = pending[j];
            proof {
                assert(indices(pending@).take(j + 1).drop_last() =~= indices(pending@).take(j as int));
                assert(indices(pending@).take(j + 1).last() == k as int);
            }
            let g = &archive[k];
            let p = match g.parent_id {
                Some(p) => p,
                None => 0,
            };
            let ghost placed_before = placed@;
            let ghost rest_before = rest@;
            let ghost keys_before = keys@;
            if contains_key(&keys, p) {
                placed.push(k);
                keys.push(key_of(g));
                assert(indices(placed@) =~= indices(placed_before).push(k as int));
            } else {
                rest.push(k);
                assert(indices(rest@) =~= indices(rest_before).push(k as int));
            }
            j = j + 1;
        }
        proof {
            assert(indices(pending@).take(pending@.len() as int) =~= indices(pending@));
        }
        if placed.len() == 0 {
            return None;
        }
        let ghost order_before = order@;
        let mut t: usize = 0;
        while t < placed.len()
            invariant
                t <= placed@.len(),
                forall|x: int| 0 <= x < placed@.len() ==> #[trigger] placed@[x] < n,
                forall|x: int| 0 <= x < order_before.len() ==> #[trigger] order_before[x] < n,
                order@ == order_before + placed@.take(t as int),
            decreases placed@.len() - t,
        {
            order.push(placed[t]);
            t = t + 1;
            assert(order@ =~= order_before + placed@.take(t as int));
        }
        proof {
            assert(placed@.take(placed@.len() as int) =~= placed@);
            assert(indices(order@) =~= indices(order_before) + indices(placed@));
            match rounds_spec(archive@, keys@, indices(rest@), (fuel - 1) as nat) {
                Some(o) => {
                    assert(indices(order_before) + (indices(placed@) + o) =~= indices(order@) + o);
                },
                None => {},
            }
        }
        pending = rest;
        fuel = fuel - 1;
    }
    proof {
        assert(indices(order@) + Seq::<int>::empty() =~= indices(order@));
    }
    Some(order)
}

/// The identifiers of the archived groups at `idx`.
pub open spec fn keys_of(archive: Seq<BackupGroup>, idx: Seq<int>) -> Seq<i64> {
    idx.map_values(|k: int| archive_key(archive[k]))
}

/// Whether `o` lists the entries of `pending` once each, each with its
/// parent identifier among `keys` or the identifiers of earlier entries.
pub open spec fn valid_wrt(archive: Seq<BackupGroup>, keys: Seq<i64>, pending: Seq<int>, o: Seq<int>) -> bool {
    &&& o.no_duplicates()
    &&& forall|x: int| o.contains(x) <==> pending.contains(x)
    &&& forall|t: int| 0 <= t < o.len() ==> (keys + keys_of(archive, o.take(t))).contains(parent_key(archive[#[trigger] o[t]]))
}

proof fn lemma_pass(archive: Seq<BackupGroup>, keys: Seq<i64>, pending: Seq<int>)
    ensures
        ({
            let (p, r, ks) = pass_spec(archive, keys, pending);
            &&& ks == keys + keys_of(archive, p)
            &&& p.len() + r.len() == pending.len()
            &&& forall|x: int| pending.contains(x) <==> (p.contains(x) || r.contains(x))
            &&& pending.no_duplicates() ==> p.no_duplicates() && r.no_duplicates()
                && forall|x: int| !(p.contains(x) && r.contains(x))
            &&& forall|t: int| 0 <= t < p.len() ==> (keys + keys_of(archive, p.take(t))).contains(parent_key(archive[#[trigger] p[t]]))
            &&& p.len() == 0 ==> forall|x: int| #[trigger] pending.contains(x) ==> !keys.contains(parent_key(archive[x]))
        }),
    decreases pending.len(),
{
    if pending.len() > 0 {
        let prev = pending.drop_last();
        lemma_pass(archive, keys, prev);
        let (p0, r0, ks0) = pass_spec(archive, keys, prev);
        let k = pending.last();
        assert(pending =~= prev.push(k));
        assert forall|x: int| pending.contains(x) <==> (prev.contains(x) || x == k) by {
            if pending.contains(x) {
                let i = choose|i: int| 0 <= i < pending.len() && pending[i] == x;
                if i < prev.len() {
                    assert(prev[i] == x);
                }
            }
            if prev.contains(x) {
                let i = choose|i: int| 0 <= i < prev.len() && prev[i] == x;
                assert(pending[i] == x);
            }
            if x == k {
                assert(pending[pending.len() - 1] == x);
            }
        }
        if pending.no_duplicates() {
            assert(prev.no_duplicates()) by {
                assert forall|i: int, j: int| 0 <= i < prev.len() && 0 <= j < prev.len() && i != j implies prev[i] != prev[j] by {
                    assert(pending[i] == prev[i] && pending[j] == prev[j]);
                }
            }
            assert(!prev.contains(k)) by {
                if prev.contains(k) {
                    let i = choose|i: int| 0 <= i < prev.len() && prev[i] == k;
                    assert(pending[i] == pending[pending.len() - 1]);
                }
            }
        }
        if ks0.contains(parent_key(archive[k])) {
            let p = p0.push(k);
            assert(keys_of(archive, p) =~= keys_of(archive, p0).push(archive_key(archive[k])));
            assert(ks0.push(archive_key(archive[k])) =~= keys + keys_of(archive, p));
            assert(p.take(p0.len() as int) =~= p0);
            assert forall|t: int| 0 <= t < p.len() implies (keys + keys_of(archive, p.take(t))).contains(parent_key(archive[#[trigger] p[t]])) by {
                if t < p0.len() {
                    assert(p.take(t) =~= p0.take(t));
                    assert(p[t] == p0[t]);
                }
            }
            assert forall|x: int| p.contains(x) <==> (p0.contains(x) || x == k) by {
                if p.contains(x) {
                    let i = choose|i: int| 0 <= i < p.len() && p[i] == x;
                    if i < p0.len() {
                        assert(p0[i] == x);
                    }
                }
                if p0.contains(x) {
                    let i = choose|i: int| 0 <= i < p0.len() && p0[i] == x;
                    assert(p[i] == x);
                }
                if x == k {
                    assert(p[p.len() - 1] == x);
                }
            }
            if pending.no_duplicates() {
                assert(p.no_duplicates()) by {
                    assert forall|i: int, j: int| 0 <= i < p.len() && 0 <= j < p.len() && i != j implies p[i] != p[j] by {
                        if i < p0.len() && j < p0.len() {
                        } else if i < p0.len() {
                            assert(p0.contains(p[i]));
                        } else if j < p0.len() {
                            assert(p0.contains(p[j]));
                        }
                    }
                }
            }
        } else {
            let r = r0.push(k);
            assert forall|x: int| r.contains(x) <==> (r0.contains(x) || x == k) by {
                if r.contains(x) {
                    let i = choose|i: int| 0 <= i < r.len() && r[i] == x;
                    if i < r0.len() {
                        assert(r0[i] == x);
                    }
                }
                if r0.contains(x) {
                    let i = choose|i: int| 0 <= i < r0.len() && r0[i] == x;
                    assert(r[i] == x);
                }
                if x == k {
                    assert(r[r.len() - 1] == x);
                }
            }
            if pending.no_duplicates() {
                assert(r.no_duplicates()) by {
                    assert forall|i: int, j: int| 0 <= i < r.len() && 0 <= j < r.len() && i != j implies r[i] != r[j] by {
                        if i < r0.len() && j < r0.len() {
                        } else if i < r0.len() {
                            assert(r0.contains(r[i]));
                        } else if j < r0.len() {
                            assert(r0.contains(r[j]));
                        }
                    }
                }
            }
            if p0.len() == 0 {
                assert(keys_of(archive, p0) =~= Seq::<i64>::empty());
                assert(ks0 =~= keys);
            }
        }
    }
}

proof fn lemma_rounds_valid(archive: Seq<BackupGroup>, keys: Seq<i64>, pending: Seq<int>, fuel: nat)
    requires
        pending.no_duplicates(),
        rounds_spec(archive, keys, pending, fuel) is Some,
    ensures
        valid_wrt(archive, keys, pending, rounds_spec(archive, keys, pending, fuel)->0),
        rounds_spec(archive, keys, pending, fuel)->0.len() == pending.len(),
    decreases fuel,
{
    let o = rounds_spec(archive, keys, pending, fuel)->0;
    if pending.len() == 0 {
        assert forall|x: int| o.contains(x) <==> pending.contains(x) by {}
    } else {
        let (p, r, ks) = pass_spec(archive, keys, pending);
        lemma_pass(archive, keys, pending);
        lemma_rounds_valid(archive, ks, r, (fuel - 1) as nat);
        let o2 = rounds_spec(archive, ks, r, (fuel - 1) as nat)->0;
        assert(o == p + o2);
        assert forall|x: int| o.contains(x) <==> (p.contains(x) || o2.contains(x)) by {
            if o.contains(x) {
                let i = choose|i: int| 0 <= i < o.len() && o[i] == x;
                if i < p.len() {
                    assert(p[i] == x);
                } else {
                    assert(o2[i - p.len()] == x);
                }
            }
            if p.contains(x) {
                let i = choose|i: int| 0 <= i < p.len() && p[i] == x;
                assert(o[i] == x);
            }
            if o2.contains(x) {
                let i = choose|i: int| 0 <= i < o2.len() && o2[i] == x;
                assert(o[i + p.len()] == x);
            }
        }
        assert(o.no_duplicates()) by {
            assert forall|i: int, j: int| 0 <= i < o.len() && 0 <= j < o.len() && i != j implies o[i] != o[j] by {
                if i < p.len() && j < p.len() {
                    assert(p[i] != p[j]);
                } else if i >= p.len() && j >= p.len() {
                    assert(o2[i - p.len()] != o2[j - p.len()]);
                } else if i < p.len() {
                    assert(p.contains(o[i]));
                    assert(o2.contains(o2[j - p.len()]));
                } else {
                    assert(p.contains(o[j]));
                    assert(o2.contains(o2[i - p.len()]));
                }
            }
        }
        assert forall|t: int| 0 <= t < o.len() implies (keys + keys_of(archive, o.take(t))).contains(parent_key(archive[#[trigger] o[t]])) by {
            if t < p.len() {
                assert(o.take(t) =~= p.take(t));
                assert(o[t] == p[t]);
            } else {
                let u = t - p.len();
                assert(o[t] == o2[u]);
                assert((ks + keys_of(archive, o2.take(u))).contains(parent_key(archive[o2[u]])));
                assert(o.take(t) =~= p + o2.take(u));
                assert(keys + keys_of(archive, o.take(t)) =~= ks + keys_of(archive, o2.take(u)));
            }
        }
    }
}

proof fn lemma_prefix_facts(archive: Seq<BackupGroup>, k: int)
    requires
        0 <= k <= archive.len(),
    ensures
        child_indices(archive, k).len() + root_keys(archive, k).len() == k,
        child_indices(archive, k).no_duplicates(),
        forall|x: int| #[trigger] child_indices(archive, k).contains(x) <==> 0 <= x < k && !is_root_entry(archive, archive[x]),
        forall|q: i64| #[trigger] root_keys(archive, k).contains(q) ==> exists|j: int| 0 <= j < k
            && is_root_entry(archive, archive[j]) && archive_key(#[trigger] archive[j]) == q,
        forall|j: int| 0 <= j < k && is_root_entry(archive, #[trigger] archive[j]) ==> root_keys(archive, k).contains(archive_key(archive[j])),
    decreases k,
{
    if k > 0 {
        lemma_prefix_facts(archive, k - 1);
        let c0 = child_indices(archive, k - 1);
        let r0 = root_keys(archive, k - 1);
        if is_root_entry(archive, archive[k - 1]) {
            let r = r0.push(archive_key(archive[k - 1]));
            assert forall|q: i64| #[trigger] r.contains(q) implies exists|j: int| 0 <= j < k
                && is_root_entry(archive, archive[j]) && archive_key(#[trigger] archive[j]) == q by {
                let i = choose|i: int| 0 <= i < r.len() && r[i] == q;
                if i < r0.len() {
                    assert(r0[i] == q);
                    assert(r0.contains(q));
                }
            }
            assert forall|j: int| 0 <= j < k && is_root_entry(archive, #[trigger] archive[j]) implies r.contains(archive_key(archive[j])) by {
                if j < k - 1 {
                    let i = choose|i: int| 0 <= i < r0.len() && r0[i] == archive_key(archive[j]);
                    assert(r[i] == archive_key(archive[j]));
                } else {
                    assert(r[r.len() - 1] == archive_key(archive[j]));
                }
            }
        } else {
            let c = c0.push(k - 1);
            assert forall|x: int| #[trigger] c.contains(x) <==> 0 <= x < k && !is_root_entry(archive, archive[x]) by {
                if c.contains(x) {
                    let i = choose|i: int| 0 <= i < c.len() && c[i] == x;
                    if i < c0.len() {
                        assert(c0[i] == x);
                        assert(c0.contains(x));
                    }
                }
                if 0 <= x < k - 1 && !is_root_entry(archive, archive[x]) {
                    assert(c0.contains(x));
                    let i = choose|i: int| 0 <= i < c0.len() && c0[i] == x;
                    assert(c[i] == x);
                }
                if x == k - 1 {
                    assert(c[c.len() - 1] == x);
                }
            }
            assert(c.no_duplicates()) by {
                assert forall|i: int, j: int| 0 <= i < c.len() && 0 <= j < c.len() && i != j implies c[i] != c[j] by {
                    if i < c0.len() && j < c0.len() {
                    } else if i < c0.len() {
                        assert(c0.contains(c[i]));
                    } else if j < c0.len() {
                        assert(c0.contains(c[j]));
                    }
                }
            }
        }
    }
}

/// The resolution order, where there is one, lists every child once, each
/// after its parent.
pub proof fn lemma_resolution_valid(archive: Seq<BackupGroup>)
    requires
        resolution_order(archive) is Some,
    ensures
        valid_order(archive, resolution_order(archive)->0),
        root_keys(archive, archive.len() as int).len() + resolution_order(archive)->0.len() == archive.len(),
{
    let n = archive.len() as int;
    let o = resolution_order(archive)->0;
    let keys = root_keys(archive, n);
    let children = child_indices(archive, n);
    lemma_prefix_facts(archive, n);
    lemma_rounds_valid(archive, keys, children, children.len());
    assert forall|t: int| 0 <= t < o.len() implies 0 <= #[trigger] o[t] < archive.len()
        && !is_root_entry(archive, archive[o[t]]) by {
        assert(o.contains(o[t]));
        assert(children.contains(o[t]));
    }
    assert forall|k: int| 0 <= k < archive.len() && !is_root_entry(archive, #[trigger] archive[k]) implies o.contains(k) by {
        assert(children.contains(k));
    }
    assert forall|t: int| 0 <= t < o.len() implies #[trigger] parent_placed_before(archive, o, t) by {
        let q = parent_key(archive[o[t]]);
        let ks = keys + keys_of(archive, o.take(t));
        assert(ks.contains(q));
        let i = choose|i: int| 0 <= i < ks.len() && ks[i] == q;
        if i < keys.len() {
            assert(keys[i] == q);
            assert(keys.contains(q));
            let j = choose|j: int| 0 <= j < n && is_root_entry(archive, archive[j]) && archive_key(#[trigger] archive[j]) == q;
            assert(archive_key(archive[j]) == q);
        } else {
            let s = i - keys.len();
            assert(keys_of(archive, o.take(t))[s] == q);
            let j = o[s];
            assert(o.take(t)[s] == j);
            assert(0 <= j < archive.len()) by {
                assert(o.contains(o[s]));
                assert(children.contains(o[s]));
            }
            assert(archive_key(archive[j]) == q);
        }
    }
    assert forall|s: int, t: int| 0 <= s < t < o.len() implies #[trigger] o[s] != #[trigger] o[t] by {}
}

proof fn lemma_first_in(o: Seq<int>, pending: Seq<int>, t0: int)
    requires
        0 <= t0 < o.len(),
        pending.contains(o[t0]),
    ensures
        exists|t: int| 0 <= t < o.len() && pending.contains(o[t])
            && forall|s: int| 0 <= s < t ==> !pending.contains(#[trigger] o[s]),
    decreases t0,
{
    if exists|s: int| 0 <= s < t0 && pending.contains(#[trigger] o[s]) {
        let s = choose|s: int| 0 <= s < t0 && pending.contains(#[trigger] o[s]);
        lemma_first_in(o, pending, s);
    }
}

proof fn lemma_pass_stuck(archive: Seq<BackupGroup>, keys: Seq<i64>, pending: Seq<int>)
    requires
        pass_spec(archive, keys, pending).0.len() == 0,
    ensures
        forall|x: int| #[trigger] pending.contains(x) ==> !keys.contains(parent_key(archive[x])),
{
    lemma_pass(archive, keys, pending);
}

/// Every entry of `order` is a child of the archive.
#[verifier::opaque]
pub open spec fn order_children(archive: Seq<BackupGroup>, order: Seq<int>) -> bool {
    forall|s: int| 0 <= s < order.len() ==> 0 <= #[trigger] order[s] < archive.len() && !is_root_entry(archive, archive[order[s]])
}

/// The first entry of `order` that is pending.
proof fn lemma_first_pending(order: Seq<int>, pending: Seq<int>, x0: int) -> (t: int)
    requires
        order.contains(x0),
        pending.contains(x0),
    ensures
        0 <= t < order.len(),
        pending.contains(order[t]),
        forall|s: int| 0 <= s < t ==> !pending.contains(#[trigger] order[s]),
{
    let t0 = choose|t0: int| 0 <= t0 < order.len() && order[t0] == x0;
    lemma_first_in(order, pending, t0);
    choose|t: int| 0 <= t < order.len() && pending.contains(order[t])
        && forall|s: int| 0 <= s < t ==> !pending.contains(#[trigger] order[s])
}

/// With a valid order at hand, some pending child always has its parent
/// placed: the first pending child of that order.
proof fn lemma_some_ready(archive: Seq<BackupGroup>, order: Seq<int>, keys: Seq<i64>, pending: Seq<int>)
    requires
        pending.len() > 0,
        forall|x: int| #[trigger] pending.contains(x) ==> order.contains(x),
        forall|t: int| 0 <= t < order.len() ==> #[trigger] parent_placed_before(archive, order, t),
        order_children(archive, order),
        forall|j: int| 0 <= j < archive.len() && #[trigger] is_root_entry(archive, archive[j]) ==> keys.contains(archive_key(archive[j])),
        forall|k: int| 0 <= k < archive.len() && !#[trigger] is_root_entry(archive, archive[k]) && !pending.contains(k)
            ==> keys.contains(archive_key(archive[k])),
    ensures
        exists|x: int| #[trigger] pending.contains(x) && keys.contains(parent_key(archive[x])),
{
    let x0 = pending[0];
    assert(pending.contains(x0));
    let t = lemma_first_pending(order, pending, x0);
    lemma_parent_known(archive, order, keys, pending, t);
}

proof fn lemma_parent_known(archive: Seq<BackupGroup>, order: Seq<int>, keys: Seq<i64>, pending: Seq<int>, t: int)
    requires
        0 <= t < order.len(),
        pending.contains(order[t]),
        forall|s: int| 0 <= s < t ==> !pending.contains(#[trigger] order[s]),
        parent_placed_before(archive, order, t),
        order_children(archive, order),
        forall|j: int| 0 <= j < archive.len() && #[trigger] is_root_entry(archive, archive[j]) ==> keys.contains(archive_key(archive[j])),
        forall|k: int| 0 <= k < archive.len() && !#[trigger] is_root_entry(archive, archive[k]) && !pending.contains(k)
            ==> keys.contains(archive_key(archive[k])),
    ensures
        exists|x: int| #[trigger] pending.contains(x) && keys.contains(parent_key(archive[x])),
{
    reveal(order_children);
    let j = choose|j: int| 0 <= j < archive.len()
        && archive_key(#[trigger] archive[j]) == parent_key(archive[order[t]])
        && (is_root_entry(archive, archive[j]) || exists|s: int| 0 <= s < t && #[trigger] order[s] == j);
    if !is_root_entry(archive, archive[j]) {
        let s = choose|s: int| 0 <= s < t && #[trigger] order[s] == j;
        assert(!pending.contains(order[s]));
    }
    assert(pending.contains(order[t]) && keys.contains(parent_key(archive[order[t]])));
}

proof fn lemma_rounds_complete(
    archive: Seq<BackupGroup>,
    order: Seq<int>,
    keys: Seq<i64>,
    pending: Seq<int>,
    fuel: nat,
)
    requires
        valid_order(archive, order),
        pending.no_duplicates(),
        forall|x: int| #[trigger] pending.contains(x) ==> 0 <= x < archive.len() && !is_root_entry(archive, archive[x]),
        fuel >= pending.len(),
        forall|j: int| 0 <= j < archive.len() && #[trigger] is_root_entry(archive, archive[j]) ==> keys.contains(archive_key(archive[j])),
        forall|k: int| 0 <= k < archive.len() && !#[trigger] is_root_entry(archive, archive[k]) && !pending.contains(k)
            ==> keys.contains(archive_key(archive[k])),
    ensures
        rounds_spec(archive, keys, pending, fuel) is Some,
    decreases fuel,
{
    if pending.len() > 0 {
        let (p, r, ks) = pass_spec(archive, keys, pending);
        lemma_pass(archive, keys, pending);
        if p.len() == 0 {
            lemma_pass_stuck(archive, keys, pending);
            assert forall|x: int| #[trigger] pending.contains(x) implies order.contains(x) by {
                assert(!is_root_entry(archive, archive[x]));
            }
            assert(order_children(archive, order)) by {
                reveal(order_children);
            }
            lemma_some_ready(archive, order, keys, pending);
        }
        {
            assert forall|x: int| #[trigger] r.contains(x) implies 0 <= x < archive.len() && !is_root_entry(archive, archive[x]) by {
                assert(pending.contains(x));
            }
            assert forall|j: int| 0 <= j < archive.len() && #[trigger] is_root_entry(archive, archive[j]) implies ks.contains(archive_key(archive[j])) by {
                let i = choose|i: int| 0 <= i < keys.len() && keys[i] == archive_key(archive[j]);
                assert(ks[i] == keys[i]);
            }
            assert forall|k: int| 0 <= k < archive.len() && !#[trigger] is_root_entry(archive, archive[k]) && !r.contains(k)
                implies ks.contains(archive_key(archive[k])) by {
                if pending.contains(k) {
                    assert(p.contains(k));
                    let i = choose|i: int| 0 <= i < p.len() && p[i] == k;
                    assert(ks[keys.len() + i] == archive_key(archive[k]));
                } else {
                    let i = choose|i: int| 0 <= i < keys.len() && keys[i] == archive_key(archive[k]);
                    assert(ks[i] == keys[i]);
                }
            }
            lemma_rounds_complete(archive, order, ks, r, (fuel - 1) as nat);
        }
    }
}

/// Resolution fails only where no order lists every child once after its
/// parent, that is where parent links run in a cycle.
pub proof fn lemma_resolution_complete(archive: Seq<BackupGroup>, order: Seq<int>)
    requires
        valid_order(archive, order),
    ensures
        resolution_order(archive) is Some,
{
    let n = archive.len() as int;
    lemma_prefix_facts(archive, n);
    let children = child_indices(archive, n);
    assert forall|k: int| 0 <= k < archive.len() && !#[trigger] is_root_entry(archive, archive[k]) && !children.contains(k)
        implies root_keys(archive, n).contains(archive_key(archive[k])) by {
        assert(children.contains(k));
    }
    lemma_rounds_complete(archive, order, root_keys(archive, n), children, children.len());
}

} // verus!
