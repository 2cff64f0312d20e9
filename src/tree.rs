//! Group forests as trees: each node holds its child groups, in table order.
//! A walk goes at most one level deeper than there are groups, so a cycle of
//! parent links cuts off instead of running forever.
use vstd::prelude::*;
use crate::models::{copy_text, Group, GroupWithChildren, SecureRecordGroup, SecureRecordGroupWithChildren};

verus! {

/// The groups whose parent is `parent`, in table order.
pub open spec fn children_of(groups: Seq<Group>, parent: Option<i64>) -> Seq<Group>
    decreases groups.len(),
{
    if groups.len() == 0 {
        Seq::empty()
    } else {
        let rest = children_of(groups.drop_last(), parent);
        if groups.last().parent_id == parent { rest.push(groups.last()) } else { rest }
    }
}

/// Whether node `n` shows group `g` (a missing identifier shows as 0).
pub open spec fn node_of(g: Group, n: GroupWithChildren) -> bool {
    &&& n.id == match g.id { Some(x) => x, None => 0 }
    &&& n.name == g.name
    &&& n.parent_id == g.parent_id
    &&& n.icon == g.icon
    &&& n.color == g.color
    &&& n.sort_order == g.sort_order
}

/// Whether `nodes` is the tree of the children of `parent`, `depth` levels deep.
pub open spec fn forest_of(groups: Seq<Group>, parent: Option<i64>, depth: nat, nodes: Seq<GroupWithChildren>) -> bool
    decreases depth,
{
    if depth == 0 {
        nodes.len() == 0
    } else {
        let sib = children_of(groups, parent);
        &&& nodes.len() == sib.len()
        &&& forall|i: int| 0 <= i < nodes.len() ==> node_of(sib[i], #[trigger] nodes[i])
            && forest_of(groups, sib[i].id, (depth - 1) as nat, nodes[i].children@)
    }
}

/// The groups whose parent is `parent`, in table order.
pub open spec fn note_children_of(groups: Seq<SecureRecordGroup>, parent: Option<i64>) -> Seq<SecureRecordGroup>
    decreases groups.len(),
{
    if groups.len() == 0 {
        Seq::empty()
    } else {
        let rest = note_children_of(groups.drop_last(), parent);
        if groups.last().parent_id == parent { rest.push(groups.last()) } else { rest }
    }
}

/// Whether node `n` shows note group `g` (a missing identifier shows as 0).
pub open spec fn note_node_of(g: SecureRecordGroup, n: SecureRecordGroupWithChildren) -> bool {
    &&& n.id == match g.id { Some(x) => x, None => 0 }
    &&& n.name == g.name
    &&& n.parent_id == g.parent_id
    &&& n.icon == g.icon
    &&& n.color == g.color
    &&& n.sort_order == g.sort_order
}

/// Whether `nodes` is the tree of the note groups under `parent`, `depth` levels deep.
pub open spec fn note_forest_of(
    groups: Seq<SecureRecordGroup>,
    parent: Option<i64>,
    depth: nat,
    nodes: Seq<SecureRecordGroupWithChildren>,
) -> bool
    decreases depth,
{
    if depth == 0 {
        nodes.len() == 0
    } else {
        let sib = note_children_of(groups, parent);
        &&& nodes.len() == sib.len()
        &&& forall|i: int| 0 <= i < nodes.len() ==> note_node_of(sib[i], #[trigger] nodes[i])
            && note_forest_of(groups, sib[i].id, (depth - 1) as nat, nodes[i].children@)
    }
}

/// The subtrees under `current_parent`, at most `depth` levels deep.
pub fn build_tree_recursive(groups: &Vec<Group>, current_parent: Option<i64>, depth: usize) -> (r: Vec<GroupWithChildren>)
    ensures
        forest_of(groups@, current_parent, depth as nat, r@),
    decreases depth,
{
    let mut result: Vec<GroupWithChildren> = Vec::new();
    if depth == 0 {
        return result;
    }
    let mut i: usize = 0;
    while i < groups.len()
        invariant
            depth > 0,
            i <= groups@.len(),
            result@.len() == children_of(groups@.take(i as int), current_parent).len(),
            forall|k: int| 0 <= k < result@.len() ==> node_of(children_of(groups@.take(i as int), current_parent)[k], #[trigger] result@[k])
                && forest_of(groups@, children_of(groups@.take(i as int), current_parent)[k].id, (depth - 1) as nat, result@[k].children@),
        decreases groups@.len() - i,
    {
        proof {
            assert(groups@.take(i + 1).drop_last() =~= groups@.take(i as int));
        }
        let group = &groups[i];
        if group.parent_id == current_parent {
            let children = build_tree_recursive(groups, group.id, depth - 1);
            let node = GroupWithChildren {
                id: group.id.unwrap_or(0),
                name: group.name.clone(),
                parent_id: group.parent_id,
                icon: copy_text(&group.icon),
                color: copy_text(&group.color),
                sort_order: group.sort_order,
                children,
            };
            result.push(node);
        }
        i = i + 1;
    }
    proof {
        assert(groups@.take(groups@.len() as int) =~= groups@);
    }
    result
}

/// The tree of credential groups under `root_parent_id`.
pub fn build_group_tree(groups: Vec<Group>, root_parent_id: Option<i64>) -> (r: Vec<GroupWithChildren>)
    requires
        groups@.len() < usize::MAX,
    ensures
        forest_of(groups@, root_parent_id, (groups@.len() + 1) as nat, r@),
{
    build_tree_recursive(&groups, root_parent_id, groups.len() + 1)
}

/// The note-group subtrees under `current_parent`, at most `depth` levels deep.
pub fn build_note_tree_recursive(
    groups: &Vec<SecureRecordGroup>,
    current_parent: Option<i64>,
    depth: usize,
) -> (r: Vec<SecureRecordGroupWithChildren>)
    ensures
        note_forest_of(groups@, current_parent, depth as nat, r@),
    decreases depth,
{
    let mut result: Vec<SecureRecordGroupWithChildren> = Vec::new();
    if depth == 0 {
        return result;
    }
    let mut i: usize = 0;
    while i < groups.len()
        invariant
            depth > 0,
            i <= groups@.len(),
            result@.len() == note_children_of(groups@.take(i as int), current_parent).len(),
            forall|k: int| 0 <= k < result@.len() ==> note_node_of(note_children_of(groups@.take(i as int), current_parent)[k], #[trigger] result@[k])
                && note_forest_of(groups@, note_children_of(groups@.take(i as int), current_parent)[k].id, (depth - 1) as nat, result@[k].children@),
        decreases groups@.len() - i,
    {
        proof {
            assert(groups@.take(i + 1).drop_last() =~= groups@.take(i as int));
        }
        let group = &groups[i];
        if group.parent_id == current_parent {
            let children = build_note_tree_recursive(groups, group.id, depth - 1);
            let node = SecureRecordGroupWithChildren {
                id: group.id.unwrap_or(0),
                name: group.name.clone(),
                parent_id: group.parent_id,
                icon: copy_text(&group.icon),
                color: copy_text(&group.color),
                sort_order: group.sort_order,
                children,
            };
            result.push(node);
        }
        i = i + 1;
    }
    proof {
        assert(groups@.take(groups@.len() as int) =~= groups@);
    }
    result
}

/// The tree of note groups under `root_parent_id`.
pub fn build_note_group_tree(groups: Vec<SecureRecordGroup>, root_parent_id: Option<i64>) -> (r: Vec<SecureRecordGroupWithChildren>)
    requires
        groups@.len() < usize::MAX,
    ensures
        note_forest_of(groups@, root_parent_id, (groups@.len() + 1) as nat, r@),
{
    build_note_tree_recursive(&groups, root_parent_id, groups.len() + 1)
}

} // verus!
