//! Deciding what `loom prefab apply-overrides` promotes, and where.
//!
//! Promoting an instance's deviations into its prefab writes two files, so
//! the command reads both and then decides; this module is the deciding. Each
//! override key names a node inside the prefab and a field on it:
//! `Child/Path::Type.field` targets a descendant of the prefab's root, and a
//! bare `Type.field` targets the root itself.
use vstd::prelude::*;
use crate::text::{chars_of, string_of};

verus! {

/// What the command reads of a scene node.
#[derive(Debug, Clone)]
pub struct InstanceNode {
    pub path: String,
    /// The prefab this node instantiates, by its key in the scene.
    pub prefab: Option<String>,
    /// The keys of the node's overrides, in the order the scene keeps them.
    pub overrides: Vec<String>,
}

/// A scene's declaration of a prefab.
#[derive(Debug, Clone)]
pub struct PrefabDecl {
    pub key: String,
    /// The prefab file, relative to the scene's directory.
    pub path: String,
}

/// Why there is nothing to promote.
#[derive(Debug, Clone, PartialEq, Eq)]
pub enum OverrideRefusal {
    /// No node has the path asked for.
    UnknownNode,
    /// The node is not a prefab instance, so it has no overrides.
    NotAPrefabInstance,
    /// The scene declares no prefab under the instance's key.
    UnresolvedPrefab { alias: String },
    /// No override of the instance matches the selection.
    UnknownOverride,
    /// The prefab file has no nodes.
    EmptyPrefab,
    /// An override names a node the prefab does not have.
    OrphanedOverride { key: String, target: String },
}

/// Which instance, which prefab file, and which of its overrides.
#[derive(Debug, Clone)]
pub struct Selection {
    /// The prefab file the instance's declaration names.
    pub prefab_file: String,
    /// Indices into the instance's overrides, in their order.
    pub chosen: Vec<usize>,
}

/// One value to write into the prefab.
#[derive(Debug, Clone)]
pub struct Promotion {
    /// The override key it comes from.
    pub key: String,
    /// The prefab node it is written to.
    pub target: String,
    /// The field on that node.
    pub field: String,
}

/// A node as plain values.
pub struct InstanceView {
    pub path: Seq<char>,
    pub prefab: Option<Seq<char>>,
    pub overrides: Seq<Seq<char>>,
}

/// A declaration as plain values.
pub struct DeclView {
    pub key: Seq<char>,
    pub path: Seq<char>,
}

pub open spec fn string_seqs(v: Seq<String>) -> Seq<Seq<char>> {
    v.map_values(|s: String| s@)
}

pub open spec fn instance_view(n: InstanceNode) -> InstanceView {
    InstanceView {
        path: n.path@,
        prefab: match n.prefab {
            Some(p) => Some(p@),
            None => None,
        },
        overrides: string_seqs(n.overrides@),
    }
}

pub open spec fn instances_view(nodes: Seq<InstanceNode>) -> Seq<InstanceView> {
    nodes.map_values(|n: InstanceNode| instance_view(n))
}

pub open spec fn decls_view(decls: Seq<PrefabDecl>) -> Seq<DeclView> {
    decls.map_values(|d: PrefabDecl| DeclView { key: d.key@, path: d.path@ })
}

/// The first node at or after `i` with path `path`.
pub open spec fn first_node(nodes: Seq<InstanceView>, path: Seq<char>, i: int) -> Option<int>
    decreases nodes.len() - i,
{
    if i < 0 || i >= nodes.len() {
        None
    } else if nodes[i].path == path {
        Some(i)
    } else {
        first_node(nodes, path, i + 1)
    }
}

/// The first declaration at or after `i` with key `key`.
pub open spec fn first_decl(decls: Seq<DeclView>, key: Seq<char>, i: int) -> Option<int>
    decreases decls.len() - i,
{
    if i < 0 || i >= decls.len() {
        None
    } else if decls[i].key == key {
        Some(i)
    } else {
        first_decl(decls, key, i + 1)
    }
}

/// The indices of the overrides a selection of `keys` picks: all of them
/// when `keys` is empty, else those whose key is among `keys`.
pub open spec fn chosen_indices(overrides: Seq<Seq<char>>, keys: Seq<Seq<char>>) -> Seq<int>
    decreases overrides.len(),
{
    if overrides.len() == 0 {
        Seq::empty()
    } else {
        let rest = chosen_indices(overrides.drop_last(), keys);
        if keys.len() == 0 || keys.contains(overrides.last()) {
            rest.push(overrides.len() - 1)
        } else {
            rest
        }
    }
}

/// What the command selects: the instance at `node`, its prefab's file, and
/// the overrides `keys` picks; or why it cannot.
pub open spec fn selection_of(
    nodes: Seq<InstanceView>,
    decls: Seq<DeclView>,
    node: Seq<char>,
    keys: Seq<Seq<char>>,
) -> Result<(Seq<char>, Seq<int>), RefusalView> {
    match first_node(nodes, node, 0) {
        None => Err(RefusalView::UnknownNode),
        Some(i) => match nodes[i].prefab {
            None => Err(RefusalView::NotAPrefabInstance),
            Some(alias) => match first_decl(decls, alias, 0) {
                None => Err(RefusalView::UnresolvedPrefab(alias)),
                Some(d) => {
                    let chosen = chosen_indices(nodes[i].overrides, keys);
                    if chosen.len() == 0 {
                        Err(RefusalView::UnknownOverride)
                    } else {
                        Ok((decls[d].path, chosen))
                    }
                },
            },
        },
    }
}

/// A refusal as plain values.
pub enum RefusalView {
    UnknownNode,
    NotAPrefabInstance,
    UnresolvedPrefab(Seq<char>),
    UnknownOverride,
    EmptyPrefab,
    OrphanedOverride(Seq<char>, Seq<char>),
}

pub open spec fn refusal_view(r: OverrideRefusal) -> RefusalView {
    match r {
        OverrideRefusal::UnknownNode => RefusalView::UnknownNode,
        OverrideRefusal::NotAPrefabInstance => RefusalView::NotAPrefabInstance,
        OverrideRefusal::UnresolvedPrefab { alias } => RefusalView::UnresolvedPrefab(alias@),
        OverrideRefusal::UnknownOverride => RefusalView::UnknownOverride,
        OverrideRefusal::EmptyPrefab => RefusalView::EmptyPrefab,
        OverrideRefusal::OrphanedOverride { key, target } => RefusalView::OrphanedOverride(key@, target@),
    }
}

/// Where the first `::` of `key` at or after `i` begins.
pub open spec fn first_colons(key: Seq<char>, i: int) -> Option<int>
    decreases key.len() - i,
{
    if i < 0 || i + 1 >= key.len() {
        None
    } else if key[i] == ':' && key[i + 1] == ':' {
        Some(i)
    } else {
        first_colons(key, i + 1)
    }
}

/// The prefab node and the field an override key names, as `str::split_once`
/// on `::` splits it: the part before the first `::` is a path below the
/// prefab's root, and a key without `::` is a field of the root itself.
pub open spec fn target_and_field(root: Seq<char>, key: Seq<char>) -> (Seq<char>, Seq<char>) {
    match first_colons(key, 0) {
        Some(i) => (root + seq!['/'] + key.take(i), key.skip(i + 2)),
        None => (root, key),
    }
}

/// What promoting the overrides `keys` into a prefab whose node paths are
/// `paths` writes: for each key in order, the key, the node and the field;
/// or the first key that names a node the prefab does not have.
pub open spec fn promotions_of(paths: Seq<Seq<char>>, keys: Seq<Seq<char>>) -> Result<
    Seq<(Seq<char>, Seq<char>, Seq<char>)>,
    RefusalView,
>
    decreases keys.len(),
{
    if paths.len() == 0 {
        Err(RefusalView::EmptyPrefab)
    } else if keys.len() == 0 {
        Ok(Seq::empty())
    } else {
        match promotions_of(paths, keys.drop_last()) {
            Err(e) => Err(e),
            Ok(done) => {
                let (target, field) = target_and_field(paths[0], keys.last());
                if paths.contains(target) {
                    Ok(done.push((keys.last(), target, field)))
                } else {
                    Err(RefusalView::OrphanedOverride(keys.last(), target))
                }
            },
        }
    }
}

fn contains_string(list: &Vec<String>, s: &String) -> (found: bool)
    ensures
        found == string_seqs(list@).contains(s@),
{
    let ghost v = string_seqs(list@);
    let mut i: usize = 0;
    while i < list.len()
        invariant
            v == string_seqs(list@),
            i <= list@.len(),
            forall|j: int| 0 <= j < i ==> v[j] != s@,
        decreases list@.len() - i,
    {
        if list[i] == *s {
            assert(v[i as int] == s@);
            return true;
        }
        i = i + 1;
    }
    false
}

proof fn lemma_first_node(nodes: Seq<InstanceView>, path: Seq<char>, i: int)
    requires
        0 <= i,
    ensures
        first_node(nodes, path, i) matches Some(j) ==> i <= j < nodes.len(),
    decreases nodes.len() - i,
{
    if i < nodes.len() && nodes[i].path != path {
        lemma_first_node(nodes, path, i + 1);
    }
}

proof fn lemma_first_decl(decls: Seq<DeclView>, key: Seq<char>, i: int)
    requires
        0 <= i,
    ensures
        first_decl(decls, key, i) matches Some(j) ==> i <= j < decls.len(),
    decreases decls.len() - i,
{
    if i < decls.len() && decls[i].key != key {
        lemma_first_decl(decls, key, i + 1);
    }
}

fn choose_overrides(overrides: &Vec<String>, keys: &Vec<String>) -> (chosen: Vec<usize>)
    ensures
        chosen@.map_values(|i: usize| i as int) == chosen_indices(string_seqs(overrides@), string_seqs(keys@)),
{
    let ghost o = string_seqs(overrides@);
    let ghost k = string_seqs(keys@);
    let mut chosen: Vec<usize> = Vec::new();
    let mut i: usize = 0;
    while i < overrides.len()
        invariant
            o == string_seqs(overrides@),
            k == string_seqs(keys@),
            i <= overrides@.len(),
            chosen@.map_values(|x: usize| x as int) == chosen_indices(o.take(i as int), k),
        decreases overrides@.len() - i,
    {
        assert(o.take(i + 1).drop_last() =~= o.take(i as int));
        assert(o.take(i + 1).last() == overrides@[i as int]@);
        if keys.len() == 0 || contains_string(keys, &overrides[i]) {
            chosen.push(i);
        }
        i = i + 1;
        assert(chosen@.map_values(|x: usize| x as int) =~= chosen_indices(o.take(i as int), k));
    }
    assert(o.take(overrides@.len() as int) =~= o);
    chosen
}

fn find_instance(nodes: &Vec<InstanceNode>, node: &String) -> (found: Option<usize>)
    ensures
        match found {
            Some(i) => first_node(instances_view(nodes@), node@, 0) == Some(i as int) && i < nodes@.len(),
            None => first_node(instances_view(nodes@), node@, 0) is None,
        },
{
    let ghost nv = instances_view(nodes@);
    let mut i: usize = 0;
    while i < nodes.len()
        invariant
            nv == instances_view(nodes@),
            i <= nodes@.len(),
            first_node(nv, node@, 0) == first_node(nv, node@, i as int),
        decreases nodes@.len() - i,
    {
        if nodes[i].path == *node {
            return Some(i);
        }
        i = i + 1;
    }
    None
}

fn find_decl(decls: &Vec<PrefabDecl>, key: &String) -> (found: Option<usize>)
    ensures
        match found {
            Some(i) => first_decl(decls_view(decls@), key@, 0) == Some(i as int) && i < decls@.len(),
            None => first_decl(decls_view(decls@), key@, 0) is None,
        },
{
    let ghost dv = decls_view(decls@);
    let mut i: usize = 0;
    while i < decls.len()
        invariant
            dv == decls_view(decls@),
            i <= decls@.len(),
            first_decl(dv, key@, 0) == first_decl(dv, key@, i as int),
        decreases decls@.len() - i,
    {
        if decls[i].key == *key {
            return Some(i);
        }
        i = i + 1;
    }
    None
}

/// Pick the instance at `node`, its prefab's file and the overrides `keys`
/// selects (all of them when `keys` is empty); or say why there is nothing to
/// promote.
pub fn select_overrides(
    nodes: &Vec<InstanceNode>,
    decls: &Vec<PrefabDecl>,
    node: &String,
    keys: &Vec<String>,
) -> (selection: Result<Selection, OverrideRefusal>)
    ensures
        match (selection, selection_of(instances_view(nodes@), decls_view(decls@), node@, string_seqs(keys@))) {
            (Ok(sel), Ok((file, chosen))) => sel.prefab_file@ == file && sel.chosen@.map_values(|i: usize| i as int)
                == chosen,
            (Err(r), Err(v)) => refusal_view(r) == v,
            _ => false,
        },
{
    let ghost nv = instances_view(nodes@);
    let i = match find_instance(nodes, node) {
        None => {
            return Err(OverrideRefusal::UnknownNode);
        },
        Some(i) => i,
    };
    let instance = &nodes[i];
    assert(nv[i as int] == instance_view(*instance));
    let alias = match &instance.prefab {
        None => {
            return Err(OverrideRefusal::NotAPrefabInstance);
        },
        Some(alias) => alias,
    };
    let d = match find_decl(decls, alias) {
        None => {
            return Err(OverrideRefusal::UnresolvedPrefab { alias: alias.clone() });
        },
        Some(d) => d,
    };
    assert(decls_view(decls@)[d as int].path == decls@[d as int].path@);
    let chosen = choose_overrides(&instance.overrides, keys);
    if chosen.len() == 0 {
        return Err(OverrideRefusal::UnknownOverride);
    }
    Ok(Selection { prefab_file: decls[d].path.clone(), chosen })
}

/// A promotion as plain values: key, node, field.
pub open spec fn promotion_view(p: Promotion) -> (Seq<char>, Seq<char>, Seq<char>) {
    (p.key@, p.target@, p.field@)
}

fn colons_in(key: &Vec<char>) -> (at: Option<usize>)
    ensures
        match at {
            Some(i) => first_colons(key@, 0) == Some(i as int) && i + 2 <= key@.len(),
            None => first_colons(key@, 0) is None,
        },
{
    if key.len() < 2 {
        return None;
    }
    let last: usize = key.len() - 1;
    let mut i: usize = 0;
    while i < last
        invariant
            last + 1 == key@.len(),
            i <= last,
            first_colons(key@, 0) == first_colons(key@, i as int),
        decreases key@.len() - i,
    {
        if key[i] == ':' && key[i + 1] == ':' {
            return Some(i);
        }
        i = i + 1;
    }
    None
}

fn append_chars(out: &mut Vec<char>, from: &Vec<char>, start: usize, end: usize)
    requires
        start <= end <= from@.len(),
    ensures
        final(out)@ == old(out)@ + from@.subrange(start as int, end as int),
{
    let ghost first = out@;
    let mut k: usize = start;
    while k < end
        invariant
            start <= k <= end <= from@.len(),
            out@ == first + from@.subrange(start as int, k as int),
        decreases end - k,
    {
        out.push(from[k]);
        k = k + 1;
        assert(from@.subrange(start as int, k as int) =~= from@.subrange(start as int, k - 1).push(from@[k - 1]));
    }
}

fn split_override(root: &String, key: &String) -> (parts: (String, String))
    ensures
        (parts.0@, parts.1@) == target_and_field(root@, key@),
{
    let k = chars_of(key.as_str());
    match colons_in(&k) {
        None => (root.clone(), key.clone()),
        Some(i) => {
            let r = chars_of(root.as_str());
            let mut target: Vec<char> = Vec::new();
            append_chars(&mut target, &r, 0, r.len());
            target.push('/');
            append_chars(&mut target, &k, 0, i);
            let n: usize = k.len();
            let mut field: Vec<char> = Vec::new();
            append_chars(&mut field, &k, i + 2, n);
            assert(r@.subrange(0, r@.len() as int) =~= r@);
            assert(target@ =~= root@ + seq!['/'] + key@.take(i as int));
            assert(field@ =~= key@.skip(i + 2));
            (string_of(&target), string_of(&field))
        },
    }
}

/// What promoting the overrides `keys`, in order, writes into a prefab whose
/// node paths are `prefab_paths`, root first: a field on the named node for
/// each key. Refused when the prefab has no nodes, or at the first key that
/// names a node the prefab does not have.
pub fn plan_promotions(prefab_paths: &Vec<String>, keys: &Vec<String>) -> (plan: Result<Vec<Promotion>, OverrideRefusal>)
    ensures
        match (plan, promotions_of(string_seqs(prefab_paths@), string_seqs(keys@))) {
            (Ok(v), Ok(p)) => v@.map_values(|x: Promotion| promotion_view(x)) == p,
            (Err(r), Err(e)) => refusal_view(r) == e,
            _ => false,
        },
{
    let ghost paths = string_seqs(prefab_paths@);
    let ghost ks = string_seqs(keys@);
    if prefab_paths.len() == 0 {
        return Err(OverrideRefusal::EmptyPrefab);
    }
    let root = &prefab_paths[0];
    assert(paths[0] == root@);
    let mut out: Vec<Promotion> = Vec::new();
    let mut i: usize = 0;
    assert(ks.take(0) =~= Seq::<Seq<char>>::empty());
    assert(out@.map_values(|x: Promotion| promotion_view(x)) =~= Seq::<(Seq<char>, Seq<char>, Seq<char>)>::empty());
    while i < keys.len()
        invariant
            paths == string_seqs(prefab_paths@),
            ks == string_seqs(keys@),
            paths.len() > 0,
            paths[0] == root@,
            i <= keys@.len(),
            promotions_of(paths, ks.take(i as int)) == Ok::<Seq<(Seq<char>, Seq<char>, Seq<char>)>, RefusalView>(
                out@.map_values(|x: Promotion| promotion_view(x)),
            ),
        decreases keys@.len() - i,
    {
        assert(ks.take(i + 1).drop_last() =~= ks.take(i as int));
        assert(ks.take(i + 1).last() == keys@[i as int]@);
        let key = &keys[i];
        let (target, field) = split_override(root, key);
        if !contains_string(prefab_paths, &target) {
            assert(ks.take(keys@.len() as int) =~= ks);
            proof { lemma_promotions_stay_refused(paths, ks, i + 1); }
            return Err(OverrideRefusal::OrphanedOverride { key: key.clone(), target });
        }
        let p = Promotion { key: key.clone(), target, field };
        let ghost before = out@;
        out.push(p);
        assert(out@.map_values(|x: Promotion| promotion_view(x)) =~= before.map_values(|x: Promotion| promotion_view(x)).push(promotion_view(p)));
        i = i + 1;
    }
    assert(ks.take(keys@.len() as int) =~= ks);
    Ok(out)
}

proof fn lemma_promotions_stay_refused(paths: Seq<Seq<char>>, keys: Seq<Seq<char>>, i: int)
    requires
        0 <= i <= keys.len(),
        promotions_of(paths, keys.take(i)) is Err,
    ensures
        promotions_of(paths, keys) == promotions_of(paths, keys.take(i)),
    decreases keys.len() - i,
{
    if i < keys.len() {
        assert(keys.take(i + 1).drop_last() =~= keys.take(i));
        lemma_promotions_stay_refused(paths, keys, i + 1);
    } else {
        assert(keys.take(i) =~= keys);
    }
}

/// Naming no key promotes every override, in order; naming keys promotes
/// exactly the overrides among them.
pub proof fn law_no_key_named_promotes_them_all(overrides: Seq<Seq<char>>, keys: Seq<Seq<char>>)
    ensures
        keys.len() == 0 ==> chosen_indices(overrides, keys) == Seq::new(overrides.len(), |i: int| i),
        forall|j: int|
            0 <= j < chosen_indices(overrides, keys).len() ==> 0 <= #[trigger] chosen_indices(overrides, keys)[j]
                < overrides.len() && (keys.len() == 0 || keys.contains(overrides[chosen_indices(overrides, keys)[j]])),
    decreases overrides.len(),
{
    if overrides.len() > 0 {
        let rest = overrides.drop_last();
        law_no_key_named_promotes_them_all(rest, keys);
        let c = chosen_indices(overrides, keys);
        let r = chosen_indices(rest, keys);
        assert forall|j: int| 0 <= j < c.len() implies 0 <= #[trigger] c[j] < overrides.len() && (keys.len() == 0
            || keys.contains(overrides[c[j]])) by {
            if j < r.len() {
                assert(c[j] == r[j]);
                assert(overrides[r[j]] == rest[r[j]]);
            }
        }
        if keys.len() == 0 {
            assert(c =~= Seq::new(overrides.len(), |i: int| i));
        }
    } else {
        if keys.len() == 0 {
            assert(chosen_indices(overrides, keys) =~= Seq::new(overrides.len(), |i: int| i));
        }
    }
}

/// A plan that is not refused writes one field per key, in the keys' order,
/// and every field it writes is on a node the prefab has.
pub proof fn law_a_plan_only_writes_to_the_prefab(paths: Seq<Seq<char>>, keys: Seq<Seq<char>>)
    requires
        promotions_of(paths, keys) is Ok,
    ensures
        promotions_of(paths, keys)->Ok_0.len() == keys.len(),
        forall|j: int| 0 <= j < keys.len() ==> (#[trigger] promotions_of(paths, keys)->Ok_0[j]).0 == keys[j],
        forall|j: int| 0 <= j < keys.len() ==> paths.contains((#[trigger] promotions_of(paths, keys)->Ok_0[j]).1),
    decreases keys.len(),
{
    if keys.len() > 0 {
        let rest = keys.drop_last();
        law_a_plan_only_writes_to_the_prefab(paths, rest);
        let p = promotions_of(paths, keys)->Ok_0;
        let q = promotions_of(paths, rest)->Ok_0;
        assert forall|j: int| 0 <= j < keys.len() implies (#[trigger] p[j]).0 == keys[j] && paths.contains(p[j].1) by {
            if j < rest.len() {
                assert(p[j] == q[j]);
                assert(rest[j] == keys[j]);
            }
        }
    }
}

/// A key without `::` writes the field it names on the prefab's root.
pub proof fn law_a_bare_key_targets_the_root(root: Seq<char>, key: Seq<char>)
    requires
        forall|i: int| 0 <= i && i + 1 < key.len() ==> !(#[trigger] key[i] == ':' && key[i + 1] == ':'),
    ensures
        target_and_field(root, key) == (root, key),
{
    lemma_no_colons(key, 0);
}

proof fn lemma_no_colons(key: Seq<char>, i: int)
    requires
        0 <= i,
        forall|t: int| 0 <= t && t + 1 < key.len() ==> !(#[trigger] key[t] == ':' && key[t + 1] == ':'),
    ensures
        first_colons(key, i) is None,
    decreases key.len() - i,
{
    if i + 1 < key.len() {
        lemma_no_colons(key, i + 1);
    }
}

/// The paths of the nodes that instantiate the prefab declared under `key`,
/// in scene order: the Prefabs panel's list under that declaration.
pub open spec fn instances_of(nodes: Seq<InstanceView>, key: Seq<char>) -> Seq<Seq<char>>
    decreases nodes.len(),
{
    if nodes.len() == 0 {
        seq![]
    } else {
        let rest = instances_of(nodes.drop_last(), key);
        if nodes.last().prefab == Some(key) {
            rest.push(nodes.last().path)
        } else {
            rest
        }
    }
}

/// The instances of the prefab declared under `key`.
pub fn prefab_instances(nodes: &Vec<InstanceNode>, key: &String) -> (paths: Vec<String>)
    ensures
        string_seqs(paths@) == instances_of(instances_view(nodes@), key@),
{
    let ghost nv = instances_view(nodes@);
    let mut paths: Vec<String> = Vec::new();
    let mut i: usize = 0;
    while i < nodes.len()
        invariant
            nv == instances_view(nodes@),
            i <= nodes@.len(),
            string_seqs(paths@) == instances_of(nv.take(i as int), key@),
        decreases nodes@.len() - i,
    {
        assert(nv.take(i + 1).drop_last() =~= nv.take(i as int));
        assert(nv.take(i + 1).last() == instance_view(nodes@[i as int]));
        let hit = match &nodes[i].prefab {
            Some(p) => *p == *key,
            None => false,
        };
        if hit {
            let ghost before = paths@;
            paths.push(nodes[i].path.clone());
            assert(string_seqs(paths@) =~= string_seqs(before).push(nodes@[i as int].path@));
        }
        i = i + 1;
    }
    assert(nv.take(nodes@.len() as int) =~= nv);
    paths
}

/// The override targets among `targets` with no node of `paths` behind them,
/// in order: overrides the prefab no longer has a home for.
pub open spec fn unhomed(targets: Seq<Seq<char>>, paths: Seq<Seq<char>>) -> Seq<Seq<char>>
    decreases targets.len(),
{
    if targets.len() == 0 {
        seq![]
    } else {
        let rest = unhomed(targets.drop_last(), paths);
        if paths.contains(targets.last()) {
            rest
        } else {
            rest.push(targets.last())
        }
    }
}

/// The overrides that point at a node the scene does not have, for the
/// Problems panel: a loud warning, never a silent drop.
pub fn orphaned_overrides(targets: &Vec<String>, paths: &Vec<String>) -> (orphans: Vec<String>)
    ensures
        string_seqs(orphans@) == unhomed(string_seqs(targets@), string_seqs(paths@)),
{
    let ghost tv = string_seqs(targets@);
    let ghost pv = string_seqs(paths@);
    let mut orphans: Vec<String> = Vec::new();
    let mut i: usize = 0;
    while i < targets.len()
        invariant
            tv == string_seqs(targets@),
            pv == string_seqs(paths@),
            i <= targets@.len(),
            string_seqs(orphans@) == unhomed(tv.take(i as int), pv),
        decreases targets@.len() - i,
    {
        assert(tv.take(i + 1).drop_last() =~= tv.take(i as int));
        assert(tv.take(i + 1).last() == targets@[i as int]@);
        let mut found = false;
        let mut j: usize = 0;
        while j < paths.len()
            invariant
                pv == string_seqs(paths@),
                i < targets@.len(),
                j <= paths@.len(),
                found == exists|k: int| 0 <= k < j && pv[k] == targets@[i as int]@,
            decreases paths@.len() - j,
        {
            if paths[j] == targets[i] {
                assert(pv[j as int] == targets@[i as int]@);
                found = true;
            }
            j = j + 1;
        }
        assert(found == pv.contains(targets@[i as int]@));
        if !found {
            let ghost before = orphans@;
            orphans.push(targets[i].clone());
            assert(string_seqs(orphans@) =~= string_seqs(before).push(targets@[i as int]@));
        }
        i = i + 1;
    }
    assert(tv.take(targets@.len() as int) =~= tv);
    orphans
}

} // verus!
