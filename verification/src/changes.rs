//! Which nodes differ between two versions of a scene, and how.
//!
//! Somebody else may be authoring the file while a human watches it; "the
//! scene changed" is true and useless, so the difference is said node by
//! node.
use vstd::prelude::*;

verus! {

/// What happened to a node. Deliberately coarse: the human wants to know
/// where to look.
#[derive(Debug, Clone, Copy, PartialEq, Eq, Structural)]
pub enum ChangeKind {
    Added,
    Removed,
    Moved,
    Edited,
    MovedAndEdited,
}

/// The words a change is shown as.
pub open spec fn label_of(kind: ChangeKind) -> Seq<char> {
    match kind {
        ChangeKind::Added => "added"@,
        ChangeKind::Removed => "removed"@,
        ChangeKind::Moved => "moved"@,
        ChangeKind::Edited => "edited"@,
        ChangeKind::MovedAndEdited => "moved + edited"@,
    }
}

impl ChangeKind {
    /// The words this change is shown as.
    pub fn label(self) -> (words: &'static str)
        ensures
            words@ == label_of(self),
    {
        match self {
            Self::Added => "added",
            Self::Removed => "removed",
            Self::Moved => "moved",
            Self::Edited => "edited",
            Self::MovedAndEdited => "moved + edited",
        }
    }
}

/// One node's worth of difference between two versions of a scene.
#[derive(Debug, Clone, PartialEq, Eq)]
pub struct Change {
    pub path: String,
    pub kind: ChangeKind,
}

/// What the comparison reads of a node: its path, its transform as the bit
/// patterns of position, rotation and scale, and its components in one
/// canonical text.
#[derive(Debug, Clone)]
pub struct NodeRecord {
    pub path: String,
    pub placement: Vec<u32>,
    pub components: String,
}

/// A node as plain values.
pub struct NodeView {
    pub path: Seq<char>,
    pub placement: Seq<u32>,
    pub components: Seq<char>,
}

impl View for NodeRecord {
    type V = NodeView;

    open spec fn view(&self) -> NodeView {
        NodeView { path: self.path@, placement: self.placement@, components: self.components@ }
    }
}

/// The nodes as plain values.
pub open spec fn nodes_view(nodes: Seq<NodeRecord>) -> Seq<NodeView> {
    nodes.map_values(|n: NodeRecord| n@)
}

/// The first node at or after `i` whose path is `path`.
pub open spec fn find_from(nodes: Seq<NodeView>, path: Seq<char>, i: int) -> Option<int>
    decreases nodes.len() - i,
{
    if i < 0 || i >= nodes.len() {
        None
    } else if nodes[i].path == path {
        Some(i)
    } else {
        find_from(nodes, path, i + 1)
    }
}

/// Whether some node has path `path`.
pub open spec fn has_path(nodes: Seq<NodeView>, path: Seq<char>) -> bool {
    exists|j: int| 0 <= j < nodes.len() && (#[trigger] nodes[j]).path == path
}

/// What happened to `node` since `previous`: added when no earlier node had
/// its path; otherwise compared with the first that did, moved when the
/// transform differs, edited when the components do, and nothing when
/// neither does.
pub open spec fn change_for(node: NodeView, previous: Seq<NodeView>) -> Option<ChangeKind> {
    match find_from(previous, node.path, 0) {
        None => Some(ChangeKind::Added),
        Some(i) => {
            let moved = previous[i].placement != node.placement;
            let recomposed = previous[i].components != node.components;
            if moved && recomposed {
                Some(ChangeKind::MovedAndEdited)
            } else if moved {
                Some(ChangeKind::Moved)
            } else if recomposed {
                Some(ChangeKind::Edited)
            } else {
                None
            }
        },
    }
}

/// The changes to the current nodes, in scene order.
pub open spec fn current_changes(current: Seq<NodeView>, previous: Seq<NodeView>) -> Seq<(Seq<char>, ChangeKind)>
    decreases current.len(),
{
    if current.len() == 0 {
        Seq::empty()
    } else {
        let rest = current_changes(current.drop_last(), previous);
        match change_for(current.last(), previous) {
            Some(kind) => rest.push((current.last().path, kind)),
            None => rest,
        }
    }
}

/// The earlier nodes whose path no current node has, in their old order.
pub open spec fn removals(previous: Seq<NodeView>, current: Seq<NodeView>) -> Seq<(Seq<char>, ChangeKind)>
    decreases previous.len(),
{
    if previous.len() == 0 {
        Seq::empty()
    } else {
        let rest = removals(previous.drop_last(), current);
        if has_path(current, previous.last().path) {
            rest
        } else {
            rest.push((previous.last().path, ChangeKind::Removed))
        }
    }
}

/// Every change from `previous` to `current`: the current nodes' first, then
/// the removals.
pub open spec fn changes_between(current: Seq<NodeView>, previous: Seq<NodeView>) -> Seq<(Seq<char>, ChangeKind)> {
    current_changes(current, previous) + removals(previous, current)
}

/// A change as plain values.
pub open spec fn change_view(c: Change) -> (Seq<char>, ChangeKind) {
    (c.path@, c.kind)
}

fn same_placement(a: &Vec<u32>, b: &Vec<u32>) -> (same: bool)
    ensures
        same == (a@ == b@),
{
    if a.len() != b.len() {
        return false;
    }
    let mut k: usize = 0;
    while k < a.len()
        invariant
            a@.len() == b@.len(),
            k <= a@.len(),
            forall|t: int| 0 <= t < k ==> a@[t] == b@[t],
        decreases a@.len() - k,
    {
        if a[k] != b[k] {
            return false;
        }
        k = k + 1;
    }
    assert(a@ =~= b@);
    true
}

proof fn lemma_find_from(nodes: Seq<NodeView>, path: Seq<char>, i: int)
    requires
        0 <= i,
    ensures
        find_from(nodes, path, i) matches Some(j) ==> i <= j < nodes.len() && nodes[j].path == path,
        find_from(nodes, path, i) is None ==> forall|j: int| i <= j < nodes.len() ==> (#[trigger] nodes[j]).path != path,
    decreases nodes.len() - i,
{
    if i < nodes.len() && nodes[i].path != path {
        lemma_find_from(nodes, path, i + 1);
    }
}

fn find_node(nodes: &Vec<NodeRecord>, path: &String) -> (found: Option<usize>)
    ensures
        match found {
            Some(i) => find_from(nodes_view(nodes@), path@, 0) == Some(i as int) && i < nodes@.len(),
            None => find_from(nodes_view(nodes@), path@, 0) is None,
        },
{
    let ghost v = nodes_view(nodes@);
    let mut i: usize = 0;
    while i < nodes.len()
        invariant
            v == nodes_view(nodes@),
            i <= nodes@.len(),
            find_from(v, path@, 0) == find_from(v, path@, i as int),
        decreases nodes@.len() - i,
    {
        if nodes[i].path == *path {
            return Some(i);
        }
        i = i + 1;
    }
    None
}

fn has_node(nodes: &Vec<NodeRecord>, path: &String) -> (found: bool)
    ensures
        found == has_path(nodes_view(nodes@), path@),
{
    let ghost v = nodes_view(nodes@);
    let mut i: usize = 0;
    while i < nodes.len()
        invariant
            v == nodes_view(nodes@),
            i <= nodes@.len(),
            forall|j: int| 0 <= j < i ==> (#[trigger] v[j]).path != path@,
        decreases nodes@.len() - i,
    {
        if nodes[i].path == *path {
            assert(v[i as int].path == path@);
            return true;
        }
        i = i + 1;
    }
    false
}

/// Which nodes differ between `previous` and `current`, and how.
pub fn changes_from(current: &Vec<NodeRecord>, previous: &Vec<NodeRecord>) -> (out: Vec<Change>)
    ensures
        out@.map_values(|c: Change| change_view(c)) == changes_between(nodes_view(current@), nodes_view(previous@)),
{
    let ghost cur = nodes_view(current@);
    let ghost prev = nodes_view(previous@);
    let mut out: Vec<Change> = Vec::new();
    let mut i: usize = 0;
    while i < current.len()
        invariant
            cur == nodes_view(current@),
            prev == nodes_view(previous@),
            i <= current@.len(),
            out@.map_values(|c: Change| change_view(c)) == current_changes(cur.take(i as int), prev),
        decreases current@.len() - i,
    {
        assert(cur.take(i + 1).drop_last() =~= cur.take(i as int));
        assert(cur.take(i + 1).last() == current@[i as int]@);
        let node = &current[i];
        match find_node(previous, &node.path) {
            None => {
                out.push(Change { path: node.path.clone(), kind: ChangeKind::Added });
            },
            Some(j) => {
                let before = &previous[j];
                assert(prev[j as int] == before@);
                let moved = !same_placement(&before.placement, &node.placement);
                let recomposed = !(before.components == node.components);
                if moved || recomposed {
                    let kind = if moved && recomposed {
                        ChangeKind::MovedAndEdited
                    } else if moved {
                        ChangeKind::Moved
                    } else {
                        ChangeKind::Edited
                    };
                    out.push(Change { path: node.path.clone(), kind });
                }
            },
        }
        i = i + 1;
        assert(out@.map_values(|c: Change| change_view(c)) =~= current_changes(cur.take(i as int), prev));
    }
    assert(cur.take(current@.len() as int) =~= cur);
    let ghost head = out@.map_values(|c: Change| change_view(c));
    let mut k: usize = 0;
    while k < previous.len()
        invariant
            cur == nodes_view(current@),
            prev == nodes_view(previous@),
            head == current_changes(cur, prev),
            k <= previous@.len(),
            out@.map_values(|c: Change| change_view(c)) == head + removals(prev.take(k as int), cur),
        decreases previous@.len() - k,
    {
        assert(prev.take(k + 1).drop_last() =~= prev.take(k as int));
        assert(prev.take(k + 1).last() == previous@[k as int]@);
        let node = &previous[k];
        let ghost r = removals(prev.take(k as int), cur);
        let ghost before = out@;
        if !has_node(current, &node.path) {
            let change = Change { path: node.path.clone(), kind: ChangeKind::Removed };
            out.push(change);
            assert(out@.map_values(|c: Change| change_view(c)) =~= before.map_values(|c: Change| change_view(c)).push(change_view(change)));
            assert((head + r).push(change_view(change)) =~= head + r.push(change_view(change)));
        }
        k = k + 1;
        assert(out@.map_values(|c: Change| change_view(c)) =~= head + removals(prev.take(k as int), cur));
    }
    assert(prev.take(previous@.len() as int) =~= prev);
    out
}

/// Whether no two nodes share a path, as in any valid scene.
pub open spec fn paths_unique(nodes: Seq<NodeView>) -> bool {
    forall|i: int, j: int| 0 <= i < nodes.len() && 0 <= j < nodes.len() && i != j ==> (#[trigger] nodes[i]).path
        != (#[trigger] nodes[j]).path
}

proof fn lemma_find_from_is_first(nodes: Seq<NodeView>, k: int)
    requires
        paths_unique(nodes),
        0 <= k < nodes.len(),
    ensures
        find_from(nodes, nodes[k].path, 0) == Some(k),
{
    lemma_find_from(nodes, nodes[k].path, 0);
    if find_from(nodes, nodes[k].path, 0) is None {
        assert(nodes[k].path != nodes[k].path);
    }
}

proof fn lemma_unchanged_current(nodes: Seq<NodeView>, all: Seq<NodeView>)
    requires
        paths_unique(all),
        nodes.len() <= all.len(),
        forall|k: int| 0 <= k < nodes.len() ==> nodes[k] == all[k],
    ensures
        current_changes(nodes, all) == Seq::<(Seq<char>, ChangeKind)>::empty(),
    decreases nodes.len(),
{
    if nodes.len() > 0 {
        let k = nodes.len() - 1;
        lemma_find_from_is_first(all, k);
        lemma_unchanged_current(nodes.drop_last(), all);
    }
}

proof fn lemma_no_removals(previous: Seq<NodeView>, current: Seq<NodeView>)
    requires
        forall|k: int| 0 <= k < previous.len() ==> has_path(current, (#[trigger] previous[k]).path),
    ensures
        removals(previous, current) == Seq::<(Seq<char>, ChangeKind)>::empty(),
    decreases previous.len(),
{
    if previous.len() > 0 {
        assert(has_path(current, previous[previous.len() - 1].path));
        lemma_no_removals(previous.drop_last(), current);
    }
}

/// A scene compared with itself has no changes.
pub proof fn law_a_scene_has_no_changes_from_itself(nodes: Seq<NodeView>)
    requires
        paths_unique(nodes),
    ensures
        changes_between(nodes, nodes) == Seq::<(Seq<char>, ChangeKind)>::empty(),
{
    lemma_unchanged_current(nodes, nodes);
    assert forall|k: int| 0 <= k < nodes.len() implies has_path(nodes, (#[trigger] nodes[k]).path) by {}
    lemma_no_removals(nodes, nodes);
    assert(changes_between(nodes, nodes) =~= Seq::<(Seq<char>, ChangeKind)>::empty());
}

/// Whether the reported change `c` is true of the two versions: added means
/// only the current version has the path, removed means only the earlier one
/// does, and anything else means both do.
pub open spec fn change_is_true(c: (Seq<char>, ChangeKind), current: Seq<NodeView>, previous: Seq<NodeView>) -> bool {
    match c.1 {
        ChangeKind::Added => has_path(current, c.0) && !has_path(previous, c.0),
        ChangeKind::Removed => has_path(previous, c.0) && !has_path(current, c.0),
        _ => has_path(current, c.0) && has_path(previous, c.0),
    }
}

proof fn lemma_current_changes_true(nodes: Seq<NodeView>, current: Seq<NodeView>, previous: Seq<NodeView>)
    requires
        nodes.len() <= current.len(),
        forall|k: int| 0 <= k < nodes.len() ==> nodes[k] == current[k],
    ensures
        forall|k: int| 0 <= k < current_changes(nodes, previous).len() ==> change_is_true(
            #[trigger] current_changes(nodes, previous)[k],
            current,
            previous,
        ),
        forall|k: int|
            0 <= k < nodes.len() && !has_path(previous, (#[trigger] nodes[k]).path) ==> current_changes(
                nodes,
                previous,
            ).contains((nodes[k].path, ChangeKind::Added)),
    decreases nodes.len(),
{
    if nodes.len() > 0 {
        let rest = nodes.drop_last();
        lemma_current_changes_true(rest, current, previous);
        let last = nodes.last();
        let t = nodes.len() - 1;
        assert(last == current[t]);
        assert(has_path(current, last.path));
        lemma_find_from(previous, last.path, 0);
        let r = current_changes(rest, previous);
        let all = current_changes(nodes, previous);
        match find_from(previous, last.path, 0) {
            None => {},
            Some(i) => {
                assert(previous[i].path == last.path);
                assert(has_path(previous, last.path));
            },
        }
        assert forall|k: int| 0 <= k < all.len() implies change_is_true(#[trigger] all[k], current, previous) by {
            if k < r.len() {
                assert(all[k] == r[k]);
            }
        }
        assert forall|k: int|
            0 <= k < nodes.len() && !has_path(previous, (#[trigger] nodes[k]).path) implies all.contains(
            (nodes[k].path, ChangeKind::Added),
        ) by {
            if k < rest.len() {
                assert(rest[k] == nodes[k]);
                let w = choose|w: int| 0 <= w < r.len() && r[w] == (rest[k].path, ChangeKind::Added);
                assert(all[w] == r[w]);
            } else {
                assert(all[all.len() - 1] == (last.path, ChangeKind::Added));
            }
        }
    }
}

proof fn lemma_removals_true(nodes: Seq<NodeView>, current: Seq<NodeView>, previous: Seq<NodeView>)
    requires
        nodes.len() <= previous.len(),
        forall|k: int| 0 <= k < nodes.len() ==> nodes[k] == previous[k],
    ensures
        forall|k: int| 0 <= k < removals(nodes, current).len() ==> change_is_true(
            #[trigger] removals(nodes, current)[k],
            current,
            previous,
        ),
        forall|k: int|
            0 <= k < nodes.len() && !has_path(current, (#[trigger] nodes[k]).path) ==> removals(nodes, current).contains(
                (nodes[k].path, ChangeKind::Removed),
            ),
    decreases nodes.len(),
{
    if nodes.len() > 0 {
        let rest = nodes.drop_last();
        lemma_removals_true(rest, current, previous);
        let last = nodes.last();
        let t = nodes.len() - 1;
        assert(last == previous[t]);
        assert(has_path(previous, last.path));
        let r = removals(rest, current);
        let all = removals(nodes, current);
        assert forall|k: int| 0 <= k < all.len() implies change_is_true(#[trigger] all[k], current, previous) by {
            if k < r.len() {
                assert(all[k] == r[k]);
            }
        }
        assert forall|k: int|
            0 <= k < nodes.len() && !has_path(current, (#[trigger] nodes[k]).path) implies all.contains(
            (nodes[k].path, ChangeKind::Removed),
        ) by {
            if k < rest.len() {
                assert(rest[k] == nodes[k]);
                let w = choose|w: int| 0 <= w < r.len() && r[w] == (rest[k].path, ChangeKind::Removed);
                assert(all[w] == r[w]);
            } else {
                assert(all[all.len() - 1] == (last.path, ChangeKind::Removed));
            }
        }
    }
}

/// Every change reported is true of the two versions, a node only the
/// current version has is reported added, and a node only the earlier one
/// has is reported removed.
pub proof fn law_changes_say_where_to_look(current: Seq<NodeView>, previous: Seq<NodeView>)
    ensures
        forall|k: int| 0 <= k < changes_between(current, previous).len() ==> change_is_true(
            #[trigger] changes_between(current, previous)[k],
            current,
            previous,
        ),
        forall|k: int|
            0 <= k < current.len() && !has_path(previous, (#[trigger] current[k]).path) ==> changes_between(
                current,
                previous,
            ).contains((current[k].path, ChangeKind::Added)),
        forall|k: int|
            0 <= k < previous.len() && !has_path(current, (#[trigger] previous[k]).path) ==> changes_between(
                current,
                previous,
            ).contains((previous[k].path, ChangeKind::Removed)),
{
    lemma_current_changes_true(current, current, previous);
    lemma_removals_true(previous, current, previous);
    let a = current_changes(current, previous);
    let b = removals(previous, current);
    let all = changes_between(current, previous);
    assert forall|k: int| 0 <= k < all.len() implies change_is_true(#[trigger] all[k], current, previous) by {
        if k < a.len() {
            assert(all[k] == a[k]);
        } else {
            assert(all[k] == b[k - a.len()]);
        }
    }
    assert forall|k: int|
        0 <= k < current.len() && !has_path(previous, (#[trigger] current[k]).path) implies all.contains(
        (current[k].path, ChangeKind::Added),
    ) by {
        let w = choose|w: int| 0 <= w < a.len() && a[w] == (current[k].path, ChangeKind::Added);
        assert(all[w] == a[w]);
    }
    assert forall|k: int|
        0 <= k < previous.len() && !has_path(current, (#[trigger] previous[k]).path) implies all.contains(
        (previous[k].path, ChangeKind::Removed),
    ) by {
        let w = choose|w: int| 0 <= w < b.len() && b[w] == (previous[k].path, ChangeKind::Removed);
        assert(all[a.len() + w] == b[w]);
    }
}

proof fn lemma_current_changes_members(nodes: Seq<NodeView>, previous: Seq<NodeView>)
    ensures
        forall|k: int|
            0 <= k < nodes.len() && #[trigger] change_for(nodes[k], previous) is Some ==> current_changes(nodes, previous).contains(
                (nodes[k].path, change_for(nodes[k], previous)->0),
            ),
        forall|w: int|
            #![trigger current_changes(nodes, previous)[w]]
            0 <= w < current_changes(nodes, previous).len() ==> exists|k: int|
                0 <= k < nodes.len() && (#[trigger] nodes[k]).path == current_changes(nodes, previous)[w].0
                    && change_for(nodes[k], previous) == Some(current_changes(nodes, previous)[w].1),
    decreases nodes.len(),
{
    if nodes.len() > 0 {
        let rest = nodes.drop_last();
        lemma_current_changes_members(rest, previous);
        let r = current_changes(rest, previous);
        let all = current_changes(nodes, previous);
        let last = nodes.last();
        assert forall|k: int|
            0 <= k < nodes.len() && #[trigger] change_for(nodes[k], previous) is Some implies all.contains(
            (nodes[k].path, change_for(nodes[k], previous)->0),
        ) by {
            if k < rest.len() {
                assert(rest[k] == nodes[k]);
                assert(change_for(rest[k], previous) is Some);
                let w = choose|w: int| 0 <= w < r.len() && r[w] == (rest[k].path, change_for(rest[k], previous)->0);
                assert(all[w] == r[w]);
            } else {
                assert(nodes[k] == last);
                assert(all[all.len() - 1] == (last.path, change_for(last, previous)->0));
            }
        }
        assert forall|w: int| #![trigger all[w]] 0 <= w < all.len() implies exists|k: int|
            0 <= k < nodes.len() && (#[trigger] nodes[k]).path == all[w].0 && change_for(nodes[k], previous) == Some(
                all[w].1,
            ) by {
            if w < r.len() {
                assert(all[w] == r[w]);
                let k = choose|k: int|
                    0 <= k < rest.len() && (#[trigger] rest[k]).path == r[w].0 && change_for(rest[k], previous) == Some(
                        r[w].1,
                    );
                assert(nodes[k] == rest[k]);
            } else {
                assert(nodes[nodes.len() - 1] == last);
            }
        }
    }
}

proof fn lemma_removals_gone(previous: Seq<NodeView>, current: Seq<NodeView>)
    ensures
        forall|w: int| 0 <= w < removals(previous, current).len() ==> !has_path(current, (#[trigger] removals(previous, current)[w]).0),
    decreases previous.len(),
{
    if previous.len() > 0 {
        lemma_removals_gone(previous.drop_last(), current);
        let r = removals(previous.drop_last(), current);
        let all = removals(previous, current);
        assert forall|w: int| 0 <= w < all.len() implies !has_path(current, (#[trigger] all[w]).0) by {
            if w < r.len() {
                assert(all[w] == r[w]);
            }
        }
    }
}

/// How a node both versions hold is reported, from how it differs: moved
/// when any part of its placement (position, rotation or scale) differs,
/// edited when its components do, both when both do, and not at all when
/// neither does. Paths are unique within each version.
pub proof fn law_a_node_in_both_is_reported_by_what_differs(
    current: Seq<NodeView>,
    previous: Seq<NodeView>,
    k: int,
    i: int,
)
    requires
        paths_unique(current),
        paths_unique(previous),
        0 <= k < current.len(),
        0 <= i < previous.len(),
        previous[i].path == current[k].path,
    ensures
        ({
            let path = current[k].path;
            let moved = previous[i].placement != current[k].placement;
            let edited = previous[i].components != current[k].components;
            let changes = changes_between(current, previous);
            &&& (moved && !edited) ==> changes.contains((path, ChangeKind::Moved))
            &&& (!moved && edited) ==> changes.contains((path, ChangeKind::Edited))
            &&& (moved && edited) ==> changes.contains((path, ChangeKind::MovedAndEdited))
            &&& (!moved && !edited) ==> forall|w: int| 0 <= w < changes.len() ==> (#[trigger] changes[w]).0 != path
        }),
{
    let path = current[k].path;
    let changes = changes_between(current, previous);
    let a = current_changes(current, previous);
    let b = removals(previous, current);
    lemma_find_from(previous, path, 0);
    assert(find_from(previous, path, 0) == Some(i)) by {
        match find_from(previous, path, 0) {
            None => {
                assert(previous[i].path != path);
            },
            Some(j) => {
                if j != i {
                    assert(previous[j].path != previous[i].path);
                }
            },
        }
    }
    lemma_current_changes_members(current, previous);
    lemma_removals_true(previous, current, previous);
    assert(has_path(current, path)) by {
        assert(current[k].path == path);
    }
    if change_for(current[k], previous) is Some {
        let c = (path, change_for(current[k], previous)->0);
        assert(a.contains(c));
        let w = choose|w: int| 0 <= w < a.len() && a[w] == c;
        assert(changes[w] == a[w]);
    } else {
        assert forall|w: int| 0 <= w < changes.len() implies (#[trigger] changes[w]).0 != path by {
            if w < a.len() {
                assert(changes[w] == a[w]);
                let j = choose|j: int|
                    0 <= j < current.len() && (#[trigger] current[j]).path == a[w].0 && change_for(current[j], previous)
                        == Some(a[w].1);
                if a[w].0 == path {
                    assert(j == k);
                }
            } else {
                assert(changes[w] == b[w - a.len()]);
                lemma_removals_gone(previous, current);
                assert(!has_path(current, b[w - a.len()].0));
            }
        }
    }
}

} // verus!
