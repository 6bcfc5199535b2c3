//! The editor's selection over the hierarchy: picking, stepping through,
//! following renames, and the subtrees a copy or a delete works on.
use vstd::prelude::*;
use crate::naming::{same_chars, strings_view};
use crate::text::{chars_of, string_of};

verus! {

/// The one node the selection is on, when it is on exactly one.
pub open spec fn focus_of(selected: Seq<Seq<char>>) -> Option<Seq<char>> {
    if selected.len() == 1 {
        Some(selected[0])
    } else {
        None
    }
}

/// The node the selection is on, when it is on exactly one.
pub fn focused(selected: &Vec<String>) -> (focus: Option<String>)
    ensures
        match focus {
            Some(f) => focus_of(strings_view(selected@)) == Some(f@),
            None => focus_of(strings_view(selected@)) is None,
        },
{
    if selected.len() == 1 {
        assert(strings_view(selected@)[0] == selected@[0]@);
        Some(selected[0].clone())
    } else {
        None
    }
}

/// Where `path` first occurs in `s` at or after `i`.
pub open spec fn first_at(s: Seq<Seq<char>>, path: Seq<char>, i: int) -> Option<int>
    decreases s.len() - i,
{
    if i < 0 || i >= s.len() {
        None
    } else if s[i] == path {
        Some(i)
    } else {
        first_at(s, path, i + 1)
    }
}

/// The selection after a click on `path`: the click alone, or, extending,
/// `path` toggled in or out (its first occurrence out).
pub open spec fn clicked(selected: Seq<Seq<char>>, path: Seq<char>, extend: bool) -> Seq<Seq<char>> {
    if !extend {
        seq![path]
    } else {
        match first_at(selected, path, 0) {
            Some(i) => selected.remove(i),
            None => selected.push(path),
        }
    }
}

/// Select `path`, or with `extend` toggle it in or out of the selection.
pub fn select(selected: &mut Vec<String>, path: &String, extend: bool)
    ensures
        strings_view(final(selected)@) == clicked(strings_view(old(selected)@), path@, extend),
{
    let ghost before = strings_view(selected@);
    if !extend {
        selected.clear();
        selected.push(path.clone());
        assert(strings_view(selected@) =~= seq![path@]);
        return;
    }
    let mut at: usize = 0;
    while at < selected.len()
        invariant
            extend,
            before == strings_view(selected@),
            before == strings_view(old(selected)@),
            at <= selected@.len(),
            first_at(before, path@, 0) == first_at(before, path@, at as int),
        decreases selected@.len() - at,
    {
        if selected[at] == *path {
            assert(before[at as int] == path@);
            assert(first_at(before, path@, at as int) == Some(at as int));
            selected.remove(at);
            assert(strings_view(selected@) =~= before.remove(at as int));
            return;
        }
        at = at + 1;
    }
    selected.push(path.clone());
    assert(strings_view(selected@) =~= before.push(path@));
}

/// Where stepping through `len` rows from row `current` lands: the next row,
/// or the previous, wrapping round at either end.
pub open spec fn stepped(len: nat, current: nat, forward: bool) -> nat {
    if forward {
        ((current as int + 1) % (len as int)) as nat
    } else {
        ((current as int + len as int - 1) % (len as int)) as nat
    }
}

/// An optional string as plain values.
pub open spec fn option_view(s: Option<String>) -> Option<Seq<char>> {
    match s {
        Some(t) => Some(t@),
        None => None,
    }
}

/// The row stepping starts from: the focused node's, or the first.
pub open spec fn step_origin(paths: Seq<Seq<char>>, focus: Option<Seq<char>>) -> nat {
    match focus {
        Some(f) => match first_at(paths, f, 0) {
            Some(i) => i as nat,
            None => 0,
        },
        None => 0,
    }
}

proof fn lemma_first_at(s: Seq<Seq<char>>, path: Seq<char>, i: int)
    requires
        0 <= i,
    ensures
        first_at(s, path, i) matches Some(j) ==> i <= j < s.len() && s[j] == path,
        first_at(s, path, i) is None ==> forall|j: int| i <= j < s.len() ==> s[j] != path,
    decreases s.len() - i,
{
    if i < s.len() && s[i] != path {
        lemma_first_at(s, path, i + 1);
    }
}

fn position_of(list: &Vec<String>, s: &String) -> (at: Option<usize>)
    ensures
        match at {
            Some(i) => first_at(strings_view(list@), s@, 0) == Some(i as int),
            None => first_at(strings_view(list@), s@, 0) is None,
        },
{
    let ghost v = strings_view(list@);
    let mut i: usize = 0;
    while i < list.len()
        invariant
            v == strings_view(list@),
            i <= list@.len(),
            first_at(v, s@, 0) == first_at(v, s@, i as int),
        decreases list@.len() - i,
    {
        if list[i] == *s {
            assert(v[i as int] == s@);
            return Some(i);
        }
        i = i + 1;
    }
    None
}

/// Tab through the hierarchy: the row after (or before) the focused node's,
/// wrapping round; nothing when there are no rows.
pub fn step_selection(paths: &Vec<String>, focus: &Option<String>, forward: bool) -> (next: Option<usize>)
    ensures
        paths@.len() == 0 ==> next is None,
        paths@.len() > 0 ==> next == Some(
            stepped(paths@.len(), step_origin(strings_view(paths@), option_view(*focus)), forward) as usize,
        ),
{
    let len = paths.len();
    if len == 0 {
        return None;
    }
    let ghost v = strings_view(paths@);
    let mut current: usize = 0;
    if let Some(f) = focus {
        if let Some(i) = position_of(paths, f) {
            current = i;
        }
    }
    assert(current as nat == step_origin(v, option_view(*focus)));
    assert(current < len) by {
        if let Some(f) = focus {
            lemma_first_at(v, f@, 0);
        }
    }
    let next = if forward {
        if current + 1 == len {
            0
        } else {
            current + 1
        }
    } else if current == 0 {
        len - 1
    } else {
        current - 1
    };
    assert(next as nat == stepped(len as nat, current as nat, forward)) by (nonlinear_arith)
        requires
            current < len,
            next == (if forward {
                if current + 1 == len {
                    0
                } else {
                    current + 1
                }
            } else if current == 0 {
                len - 1
            } else {
                current - 1
            }),
    ;
    Some(next)
}

/// Stepping forward and then back returns to the row it started on.
pub proof fn law_tab_then_shift_tab_returns(len: nat, current: nat)
    requires
        current < len,
    ensures
        stepped(len, stepped(len, current, true), false) == current,
        stepped(len, stepped(len, current, false), true) == current,
{
    let n = len as int;
    let c = current as int;
    assert(stepped(len, current, true) == (if c + 1 == n { 0 } else { c + 1 })) by (nonlinear_arith)
        requires
            0 <= c < n,
            stepped(len, current, true) == (c + 1) % n,
    ;
    assert(stepped(len, current, false) == (if c == 0 { n - 1 } else { c - 1 })) by (nonlinear_arith)
        requires
            0 <= c < n,
            stepped(len, current, false) == (c + n - 1) % n,
    ;
    let f = stepped(len, current, true) as int;
    let b = stepped(len, current, false) as int;
    assert(stepped(len, f as nat, false) == (f + n - 1) % n);
    assert(stepped(len, b as nat, true) == (b + 1) % n);
    assert((f + n - 1) % n == c) by (nonlinear_arith)
        requires
            0 <= c < n,
            f == (if c + 1 == n { 0 } else { c + 1 }),
    ;
    assert((b + 1) % n == c) by (nonlinear_arith)
        requires
            0 <= c < n,
            b == (if c == 0 { n - 1 } else { c - 1 }),
    ;
}

/// Whether `path` begins with `prefix`.
pub open spec fn has_prefix(path: Seq<char>, prefix: Seq<char>) -> bool {
    path.len() >= prefix.len() && path.take(prefix.len() as int) == prefix
}

/// Where a selected node is after the node at `from` moved to `to`: the node
/// itself follows, and so does everything under it.
pub open spec fn followed(path: Seq<char>, from: Seq<char>, to: Seq<char>) -> Seq<char> {
    let under = from + seq!['/'];
    if path == from {
        to
    } else if has_prefix(path, under) {
        to + seq!['/'] + path.skip(under.len() as int)
    } else {
        path
    }
}

/// The selection after the node at `from` moved to `to`: followed, but only
/// when the move landed, which is when `to` is among `paths`.
pub open spec fn reselected(selected: Seq<Seq<char>>, paths: Seq<Seq<char>>, from: Seq<char>, to: Seq<char>) -> Seq<
    Seq<char>,
> {
    if paths.contains(to) {
        selected.map_values(|p: Seq<char>| followed(p, from, to))
    } else {
        selected
    }
}

fn prefix_matches(path: &Vec<char>, prefix: &Vec<char>) -> (b: bool)
    ensures
        b == has_prefix(path@, prefix@),
{
    if path.len() < prefix.len() {
        return false;
    }
    let mut k: usize = 0;
    while k < prefix.len()
        invariant
            path@.len() >= prefix@.len(),
            k <= prefix@.len(),
            forall|t: int| 0 <= t < k ==> path@[t] == prefix@[t],
        decreases prefix@.len() - k,
    {
        if path[k] != prefix[k] {
            assert(path@.take(prefix@.len() as int)[k as int] != prefix@[k as int]);
            return false;
        }
        k = k + 1;
    }
    assert(path@.take(prefix@.len() as int) =~= prefix@);
    true
}

fn follow(path: &String, from: &Vec<char>, under: &Vec<char>, to: &Vec<char>) -> (out: String)
    requires
        under@ == from@ + seq!['/'],
    ensures
        out@ == followed(path@, from@, to@),
{
    let p = chars_of(path.as_str());
    let same = p.len() == from.len() && prefix_matches(&p, from);
    if same {
        assert(p@ =~= from@);
        return crate::text::string_of(to);
    }
    assert(p@ != from@) by {
        if p@ == from@ {
            assert(p@.take(from@.len() as int) =~= from@);
        }
    }
    if prefix_matches(&p, under) {
        let mut out = to.clone();
        out.push('/');
        let mut k: usize = under.len();
        let ghost head = out@;
        while k < p.len()
            invariant
                under@.len() <= k <= p@.len(),
                out@ == head + p@.subrange(under@.len() as int, k as int),
            decreases p@.len() - k,
        {
            out.push(p[k]);
            k = k + 1;
            assert(p@.subrange(under@.len() as int, k as int) =~= p@.subrange(under@.len() as int, k - 1).push(
                p@[k - 1],
            ));
        }
        assert(out@ =~= to@ + seq!['/'] + p@.skip(under@.len() as int));
        return crate::text::string_of(&out);
    }
    path.clone()
}

/// Follow the node at `from` to `to` in the selection, with everything under
/// it, when the move landed.
pub fn reselect(selected: &mut Vec<String>, paths: &Vec<String>, from: &str, to: &str)
    ensures
        strings_view(final(selected)@) == reselected(strings_view(old(selected)@), strings_view(paths@), from@, to@),
{
    let ghost before = strings_view(selected@);
    let target = String::from_str(to);
    if position_of(paths, &target).is_none() {
        proof {
            lemma_first_at(strings_view(paths@), to@, 0);
        }
        return;
    }
    proof {
        lemma_first_at(strings_view(paths@), to@, 0);
    }
    let from_chars = chars_of(from);
    let mut under = from_chars.clone();
    under.push('/');
    let to_chars = chars_of(to);
    let mut out: Vec<String> = Vec::new();
    let mut i: usize = 0;
    while i < selected.len()
        invariant
            before == strings_view(selected@),
            under@ == from@ + seq!['/'],
            from_chars@ == from@,
            to_chars@ == to@,
            i <= selected@.len(),
            out@.len() == i,
            forall|k: int| 0 <= k < i ==> #[trigger] out@[k]@ == followed(before[k], from@, to@),
        decreases selected@.len() - i,
    {
        let moved = follow(&selected[i], &from_chars, &under, &to_chars);
        out.push(moved);
        i = i + 1;
    }
    *selected = out;
    assert(strings_view(selected@) =~= before.map_values(|p: Seq<char>| followed(p, from@, to@)));
}

/// Whether entry `a` goes before entry `b` when entries are ordered by
/// `keys`, ascending or descending, and otherwise by where they were: the
/// order a stable sort by key gives.
pub open spec fn goes_before(keys: Seq<usize>, a: int, b: int, ascending: bool) -> bool {
    (if ascending {
        keys[a] < keys[b]
    } else {
        keys[a] > keys[b]
    }) || (keys[a] == keys[b] && a < b)
}

/// Whether `order` lists every entry of `keys` once, in stable-sort order.
pub open spec fn stably_sorted(order: Seq<usize>, keys: Seq<usize>, ascending: bool) -> bool {
    &&& order.len() == keys.len()
    &&& forall|k: int| 0 <= k < order.len() ==> #[trigger] order[k] < keys.len()
    &&& forall|i: usize| i < keys.len() ==> #[trigger] order.contains(i)
    &&& forall|j: int, k: int| 0 <= j < k < order.len() ==> goes_before(keys, #[trigger] order[j] as int, #[trigger] order[k] as int, ascending)
}

fn stays_ahead(existing: usize, key: usize, ascending: bool) -> (ahead: bool)
    ensures
        ahead == (if ascending {
            existing <= key
        } else {
            existing >= key
        }),
{
    if ascending {
        existing <= key
    } else {
        existing >= key
    }
}

fn arrange(keys: &Vec<usize>, ascending: bool) -> (order: Vec<usize>)
    ensures
        stably_sorted(order@, keys@, ascending),
{
    let mut order: Vec<usize> = Vec::new();
    let mut i: usize = 0;
    while i < keys.len()
        invariant
            i <= keys@.len(),
            stably_sorted(order@, keys@.take(i as int), ascending),
        decreases keys@.len() - i,
    {
        let key = keys[i];
        let mut p: usize = 0;
        while p < order.len() && stays_ahead(keys[order[p]], key, ascending)
            invariant
                i < keys@.len(),
                key == keys@[i as int],
                p <= order@.len(),
                stably_sorted(order@, keys@.take(i as int), ascending),
                forall|j: int| 0 <= j < p ==> (if ascending {
                    keys@[#[trigger] order@[j] as int] <= key
                } else {
                    keys@[order@[j] as int] >= key
                }),
            decreases order@.len() - p,
        {
            assert(order@[p as int] < i);
            p = p + 1;
        }
        let ghost before = order@;
        let ghost prefix = keys@.take(i as int);
        let ghost next_keys = keys@.take(i + 1);
        assert forall|k: int| 0 <= k < before.len() implies #[trigger] before[k] < i by {}
        order.insert(p, i);
        let ghost after = order@;
        assert forall|e: int| 0 <= e < i implies prefix[e] == next_keys[e] by {}
        assert forall|j: int, k: int| 0 <= j < k < after.len() implies goes_before(next_keys, #[trigger] after[j] as int, #[trigger] after[k] as int, ascending) by {
            if k < p {
                assert(after[j] == before[j] && after[k] == before[k]);
                assert(goes_before(prefix, before[j] as int, before[k] as int, ascending));
            } else if k == p {
                assert(after[j] == before[j]);
                assert(before[j] < i);
            } else if j < p {
                assert(after[j] == before[j] && after[k] == before[k - 1]);
                assert(goes_before(prefix, before[j] as int, before[k - 1] as int, ascending));
            } else if j == p {
                assert(after[k] == before[k - 1]);
                assert(before[k - 1] < i);
                if k - 1 > p {
                    assert(goes_before(prefix, before[p as int] as int, before[k - 1] as int, ascending));
                }
            } else {
                assert(after[j] == before[j - 1] && after[k] == before[k - 1]);
                assert(goes_before(prefix, before[j - 1] as int, before[k - 1] as int, ascending));
            }
        }
        assert forall|k: int| 0 <= k < after.len() implies #[trigger] after[k] < i + 1 by {
            if k < p {
                assert(after[k] == before[k]);
            } else if k > p {
                assert(after[k] == before[k - 1]);
            }
        }
        assert forall|x: usize| x < i + 1 implies #[trigger] after.contains(x) by {
            if x < i {
                assert(before.contains(x));
                let w = choose|w: int| 0 <= w < before.len() && before[w] == x;
                if w < p {
                    assert(after[w] == before[w]);
                } else {
                    assert(after[w + 1] == before[w]);
                }
            } else {
                assert(after[p as int] == i);
            }
        }
        i = i + 1;
    }
    assert(keys@.take(keys@.len() as int) =~= keys@);
    order
}

/// How deep a node is: the number of `/` in its path.
pub open spec fn depth(path: Seq<char>) -> nat
    decreases path.len(),
{
    if path.len() == 0 {
        0
    } else {
        depth(path.drop_last()) + if path.last() == '/' {
            1nat
        } else {
            0nat
        }
    }
}

/// Whether `path` is the node at `root` or under it.
pub open spec fn in_subtree(path: Seq<char>, root: Seq<char>) -> bool {
    path == root || has_prefix(path, root + seq!['/'])
}

proof fn lemma_depth_bound(path: Seq<char>)
    ensures
        depth(path) <= path.len(),
    decreases path.len(),
{
    if path.len() > 0 {
        lemma_depth_bound(path.drop_last());
    }
}

fn depth_of(path: &Vec<char>) -> (d: usize)
    ensures
        d == depth(path@),
{
    let mut d: usize = 0;
    let mut k: usize = 0;
    while k < path.len()
        invariant
            k <= path@.len(),
            d == depth(path@.take(k as int)),
        decreases path@.len() - k,
    {
        assert(path@.take(k + 1).drop_last() =~= path@.take(k as int));
        proof { lemma_depth_bound(path@.take(k as int)); }
        if path[k] == '/' {
            d = d + 1;
        }
        k = k + 1;
    }
    assert(path@.take(path@.len() as int) =~= path@);
    d
}

fn in_subtree_of(path: &Vec<char>, root: &Vec<char>, under: &Vec<char>) -> (b: bool)
    requires
        under@ == root@ + seq!['/'],
    ensures
        b == in_subtree(path@, root@),
{
    let same = path.len() == root.len() && prefix_matches(path, root);
    if same {
        assert(path@ =~= root@);
        return true;
    }
    assert(path@ != root@) by {
        if path@ == root@ {
            assert(path@.take(root@.len() as int) =~= root@);
        }
    }
    prefix_matches(path, under)
}

/// Whether `order` lists the nodes at or under `root` among `paths`, each
/// once, shallowest first and otherwise in scene order.
pub open spec fn subtree_listing(order: Seq<usize>, paths: Seq<Seq<char>>, root: Seq<char>) -> bool {
    &&& forall|k: int| 0 <= k < order.len() ==> #[trigger] order[k] < paths.len() && in_subtree(paths[order[k] as int], root)
    &&& forall|i: usize| i < paths.len() && in_subtree(paths[i as int], root) ==> #[trigger] order.contains(i)
    &&& forall|j: int, k: int|
        0 <= j < k < order.len() ==> depth(paths[#[trigger] order[j] as int]) < depth(paths[#[trigger] order[k] as int])
            || (depth(paths[order[j] as int]) == depth(paths[order[k] as int]) && order[j] < order[k])
}

/// Every node at or under `root`, shallowest first, as indices into `paths`:
/// a parent always comes before its children, so they can be re-created in
/// this order.
pub fn subtree_order(paths: &Vec<String>, root: &str) -> (order: Vec<usize>)
    ensures
        subtree_listing(order@, strings_view(paths@), root@),
{
    let ghost pv = strings_view(paths@);
    let root_chars = chars_of(root);
    let mut under = root_chars.clone();
    under.push('/');
    let mut members: Vec<usize> = Vec::new();
    let mut keys: Vec<usize> = Vec::new();
    let mut i: usize = 0;
    while i < paths.len()
        invariant
            pv == strings_view(paths@),
            root_chars@ == root@,
            under@ == root@ + seq!['/'],
            i <= paths@.len(),
            members@.len() == keys@.len(),
            forall|k: int| 0 <= k < members@.len() ==> #[trigger] members@[k] < i && in_subtree(pv[members@[k] as int], root@)
                && keys@[k] == depth(pv[members@[k] as int]),
            forall|j: int, k: int| 0 <= j < k < members@.len() ==> #[trigger] members@[j] < #[trigger] members@[k],
            forall|x: usize| x < i && in_subtree(pv[x as int], root@) ==> #[trigger] members@.contains(x),
        decreases paths@.len() - i,
    {
        let p = chars_of(paths[i].as_str());
        assert(p@ == pv[i as int]);
        let ghost old_members = members@;
        if in_subtree_of(&p, &root_chars, &under) {
            let d = depth_of(&p);
            members.push(i);
            keys.push(d);
            assert(members@[members@.len() - 1] == i);
        }
        assert forall|x: usize| x < i + 1 && in_subtree(pv[x as int], root@) implies #[trigger] members@.contains(x) by {
            if x < i {
                assert(old_members.contains(x));
                let w = choose|w: int| 0 <= w < old_members.len() && old_members[w] == x;
                assert(members@[w] == x);
            } else {
                assert(members@[members@.len() - 1] == x);
            }
        }
        i = i + 1;
    }
    let arranged = arrange(&keys, true);
    let mut order: Vec<usize> = Vec::new();
    let mut k: usize = 0;
    while k < arranged.len()
        invariant
            stably_sorted(arranged@, keys@, true),
            members@.len() == keys@.len(),
            k <= arranged@.len(),
            order@.len() == k,
            forall|t: int| 0 <= t < k ==> #[trigger] order@[t] == members@[arranged@[t] as int],
        decreases arranged@.len() - k,
    {
        order.push(members[arranged[k]]);
        k = k + 1;
    }
    proof {
        assert forall|x: usize| x < pv.len() && in_subtree(pv[x as int], root@) implies #[trigger] order@.contains(x) by {
            assert(members@.contains(x));
            let w = choose|w: int| 0 <= w < members@.len() && members@[w] == x;
            let wu: usize = w as usize;
            assert(wu < keys@.len());
            assert(arranged@.contains(wu));
            let t = choose|t: int| 0 <= t < arranged@.len() && arranged@[t] == wu;
            assert(order@[t] == x);
        }
        assert forall|j: int, k: int| 0 <= j < k < order@.len() implies depth(pv[#[trigger] order@[j] as int]) < depth(
            pv[#[trigger] order@[k] as int],
        ) || (depth(pv[order@[j] as int]) == depth(pv[order@[k] as int]) && order@[j] < order@[k]) by {
            let (a, b) = (arranged@[j] as int, arranged@[k] as int);
            assert(goes_before(keys@, a, b, true));
            if keys@[a] == keys@[b] && a < b {
                assert(members@[a] < members@[b]);
            }
        }
    }
    order
}

/// The nodes at or under `root` among `paths`, in scene order.
pub open spec fn subtree_of(paths: Seq<Seq<char>>, root: Seq<char>) -> Seq<Seq<char>>
    decreases paths.len(),
{
    if paths.len() == 0 {
        seq![]
    } else {
        let rest = subtree_of(paths.drop_last(), root);
        if in_subtree(paths.last(), root) {
            rest.push(paths.last())
        } else {
            rest
        }
    }
}

/// What a delete of `selected` takes, before ordering: for each selected node
/// in turn, the nodes at or under it.
pub open spec fn doomed(selected: Seq<Seq<char>>, paths: Seq<Seq<char>>) -> Seq<Seq<char>>
    decreases selected.len(),
{
    if selected.len() == 0 {
        seq![]
    } else {
        doomed(selected.drop_last(), paths) + subtree_of(paths, selected.last())
    }
}

/// `s` with each run of equal neighbours kept once.
pub open spec fn dedup(s: Seq<Seq<char>>) -> Seq<Seq<char>>
    decreases s.len(),
{
    if s.len() <= 1 {
        s
    } else {
        let d = dedup(s.drop_last());
        if s.last() == s[s.len() - 2] {
            d
        } else {
            d.push(s.last())
        }
    }
}

/// Whether `order` lists each entry of `all` once, deepest first and
/// otherwise in the order they were gathered.
pub open spec fn deepest_first(order: Seq<usize>, all: Seq<Seq<char>>) -> bool {
    &&& order.len() == all.len()
    &&& forall|k: int| 0 <= k < order.len() ==> #[trigger] order[k] < all.len()
    &&& forall|i: usize| i < all.len() ==> #[trigger] order.contains(i)
    &&& forall|j: int, k: int|
        0 <= j < k < order.len() ==> depth(all[#[trigger] order[j] as int]) > depth(all[#[trigger] order[k] as int])
            || (depth(all[order[j] as int]) == depth(all[order[k] as int]) && order[j] < order[k])
}

/// The entries of `all` in the order `order` gives.
pub open spec fn in_order(order: Seq<usize>, all: Seq<Seq<char>>) -> Seq<Seq<char>> {
    order.map_values(|i: usize| all[i as int])
}

/// Whether `out` is what a delete of `selected` removes, in the order it
/// removes them: everything at or under a selected node, deepest first, a
/// run of one path kept once.
pub open spec fn deletion_listing(out: Seq<Seq<char>>, selected: Seq<Seq<char>>, paths: Seq<Seq<char>>) -> bool {
    exists|order: Seq<usize>|
        #[trigger] deepest_first(order, doomed(selected, paths)) && out == dedup(in_order(order, doomed(selected, paths)))
}

/// The characters of each vector.
pub open spec fn chars_view(v: Seq<Vec<char>>) -> Seq<Seq<char>> {
    v.map_values(|c: Vec<char>| c@)
}

/// The nodes a delete of `selected` removes, in the order to remove them:
/// children before their parents, since a node that still has children
/// cannot be removed.
pub fn deletion_order(selected: &Vec<String>, paths: &Vec<String>) -> (out: Vec<String>)
    ensures
        deletion_listing(strings_view(out@), strings_view(selected@), strings_view(paths@)),
{
    let ghost sv = strings_view(selected@);
    let ghost pv = strings_view(paths@);
    let mut path_chars: Vec<Vec<char>> = Vec::new();
    let mut i: usize = 0;
    while i < paths.len()
        invariant
            pv == strings_view(paths@),
            i <= paths@.len(),
            chars_view(path_chars@) == pv.take(i as int),
        decreases paths@.len() - i,
    {
        let c = chars_of(paths[i].as_str());
        assert(c@ == pv[i as int]);
        let ghost old = path_chars@;
        path_chars.push(c);
        proof { lemma_chars_view_push(old, c); }
        assert(pv.take(i + 1) =~= pv.take(i as int).push(pv[i as int]));
        i = i + 1;
    }
    assert(pv.take(paths@.len() as int) =~= pv);
    let mut all: Vec<Vec<char>> = Vec::new();
    let mut a: usize = 0;
    while a < selected.len()
        invariant
            sv == strings_view(selected@),
            chars_view(path_chars@) == pv,
            a <= selected@.len(),
            chars_view(all@) == doomed(sv.take(a as int), pv),
        decreases selected@.len() - a,
    {
        let root = chars_of(selected[a].as_str());
        assert(root@ == sv[a as int]);
        let mut under = root.clone();
        under.push('/');
        let ghost start = chars_view(all@);
        let mut j: usize = 0;
        while j < path_chars.len()
            invariant
                chars_view(path_chars@) == pv,
                a < sv.len(),
                root@ == sv[a as int],
                under@ == root@ + seq!['/'],
                j <= path_chars@.len(),
                chars_view(all@) == start + subtree_of(pv.take(j as int), root@),
            decreases path_chars@.len() - j,
        {
            assert(pv.take(j + 1).drop_last() =~= pv.take(j as int));
            assert(path_chars@[j as int]@ == pv[j as int]);
            assert(pv.take(j + 1).last() == pv[j as int]);
            let ghost before = all@;
            if in_subtree_of(&path_chars[j], &root, &under) {
                let c = path_chars[j].clone();
                assert(c@ == pv[j as int]);
                all.push(c);
                proof { lemma_chars_view_push(before, c); }
                assert(chars_view(all@) =~= start + subtree_of(pv.take(j + 1), root@));
            }
            j = j + 1;
        }
        assert(pv.take(path_chars@.len() as int) =~= pv);
        assert(sv.take(a + 1).drop_last() =~= sv.take(a as int));
        a = a + 1;
    }
    assert(sv.take(selected@.len() as int) =~= sv);
    let ghost everything = doomed(sv, pv);
    let mut keys: Vec<usize> = Vec::new();
    let mut k: usize = 0;
    while k < all.len()
        invariant
            chars_view(all@) == everything,
            k <= all@.len(),
            keys@.len() == k,
            forall|t: int| 0 <= t < k ==> #[trigger] keys@[t] == depth(everything[t]),
        decreases all@.len() - k,
    {
        keys.push(depth_of(&all[k]));
        k = k + 1;
    }
    let arranged = arrange(&keys, false);
    let ghost sorted = in_order(arranged@, everything);
    assert(deepest_first(arranged@, everything)) by {
        assert forall|j: int, k: int| 0 <= j < k < arranged@.len() implies depth(everything[#[trigger] arranged@[j] as int])
            > depth(everything[#[trigger] arranged@[k] as int]) || (depth(everything[arranged@[j] as int]) == depth(
            everything[arranged@[k] as int],
        ) && arranged@[j] < arranged@[k]) by {
            assert(goes_before(keys@, arranged@[j] as int, arranged@[k] as int, false));
        }
    }
    let mut kept: Vec<Vec<char>> = Vec::new();
    let mut t: usize = 0;
    while t < arranged.len()
        invariant
            stably_sorted(arranged@, keys@, false),
            keys@.len() == all@.len(),
            chars_view(all@) == everything,
            sorted == in_order(arranged@, everything),
            t <= arranged@.len(),
            chars_view(kept@) == dedup(sorted.take(t as int)),
        decreases arranged@.len() - t,
    {
        let at = arranged[t];
        assert(all@[at as int]@ == sorted[t as int]);
        let fresh = if t == 0 {
            true
        } else {
            assert(all@[arranged@[t - 1] as int]@ == sorted[t - 1]);
            !same_chars(&all[at], &all[arranged[t - 1]])
        };
        assert(sorted.take(t + 1).drop_last() =~= sorted.take(t as int));
        if fresh {
            let c = all[at].clone();
            let ghost old = kept@;
            kept.push(c);
            proof { lemma_chars_view_push(old, c); }
        }
        t = t + 1;
        assert(chars_view(kept@) =~= dedup(sorted.take(t as int)));
    }
    assert(sorted.take(arranged@.len() as int) =~= sorted);
    let mut out: Vec<String> = Vec::new();
    let mut u: usize = 0;
    while u < kept.len()
        invariant
            u <= kept@.len(),
            strings_view(out@) == chars_view(kept@).take(u as int),
        decreases kept@.len() - u,
    {
        let text = string_of(&kept[u]);
        assert(text@ == chars_view(kept@)[u as int]);
        let ghost old = out@;
        out.push(text);
        proof { lemma_strings_view_push(old, text); }
        assert(chars_view(kept@).take(u + 1) =~= chars_view(kept@).take(u as int).push(text@));
        u = u + 1;
    }
    assert(chars_view(kept@).take(kept@.len() as int) =~= chars_view(kept@));
    out
}

proof fn lemma_chars_view_push(v: Seq<Vec<char>>, x: Vec<char>)
    ensures
        chars_view(v.push(x)) == chars_view(v).push(x@),
{
    assert(chars_view(v.push(x)) =~= chars_view(v).push(x@));
}

proof fn lemma_strings_view_push(v: Seq<String>, x: String)
    ensures
        strings_view(v.push(x)) == strings_view(v).push(x@),
{
    assert(strings_view(v.push(x)) =~= strings_view(v).push(x@));
}

proof fn lemma_depth_concat(x: Seq<char>, y: Seq<char>)
    ensures
        depth(x + y) == depth(x) + depth(y),
    decreases y.len(),
{
    if y.len() == 0 {
        assert(x + y =~= x);
    } else {
        assert((x + y).drop_last() =~= x + y.drop_last());
        lemma_depth_concat(x, y.drop_last());
    }
}

proof fn lemma_descendant_is_deeper(path: Seq<char>, root: Seq<char>)
    requires
        has_prefix(path, root + seq!['/']),
    ensures
        depth(path) > depth(root),
{
    let n: int = root.len() as int + 1;
    assert(path =~= path.take(n) + path.skip(n));
    lemma_depth_concat(path.take(n), path.skip(n));
    let head = root + seq!['/'];
    assert(head.drop_last() =~= root);
}

proof fn lemma_dedup_from(s: Seq<Seq<char>>, x: Seq<char>)
    requires
        dedup(s).contains(x),
    ensures
        s.contains(x),
    decreases s.len(),
{
    if s.len() > 1 {
        let d = dedup(s.drop_last());
        if d.contains(x) {
            lemma_dedup_from(s.drop_last(), x);
            let w = choose|w: int| 0 <= w < s.drop_last().len() && s.drop_last()[w] == x;
            assert(s[w] == x);
        } else {
            assert(x == s.last());
            assert(s[s.len() - 1] == x);
        }
    }
}

proof fn lemma_dedup_keeps_depth_order(s: Seq<Seq<char>>)
    requires
        forall|j: int, k: int| 0 <= j < k < s.len() ==> depth(#[trigger] s[j]) >= depth(#[trigger] s[k]),
    ensures
        forall|j: int, k: int| 0 <= j < k < dedup(s).len() ==> depth(#[trigger] dedup(s)[j]) >= depth(#[trigger] dedup(s)[k]),
    decreases s.len(),
{
    if s.len() > 1 {
        let p = s.drop_last();
        assert forall|j: int, k: int| 0 <= j < k < p.len() implies depth(#[trigger] p[j]) >= depth(#[trigger] p[k]) by {
            assert(p[j] == s[j] && p[k] == s[k]);
        }
        lemma_dedup_keeps_depth_order(p);
        let d = dedup(p);
        if s.last() != s[s.len() - 2] {
            let e = d.push(s.last());
            assert forall|j: int, k: int| 0 <= j < k < e.len() implies depth(#[trigger] e[j]) >= depth(#[trigger] e[k]) by {
                if k == e.len() - 1 {
                    assert(d.contains(e[j]));
                    lemma_dedup_from(p, e[j]);
                    let w = choose|w: int| 0 <= w < p.len() && p[w] == e[j];
                    assert(s[w] == e[j]);
                    assert(s[s.len() - 1] == e[k]);
                } else {
                    assert(e[j] == d[j] && e[k] == d[k]);
                }
            }
        }
    }
}

/// A delete never removes a node before something under it: in the order
/// `deletion_order` gives, no entry lies under an earlier one.
pub proof fn law_children_go_before_parents(
    out: Seq<Seq<char>>,
    selected: Seq<Seq<char>>,
    paths: Seq<Seq<char>>,
    j: int,
    k: int,
)
    requires
        deletion_listing(out, selected, paths),
        0 <= j < k < out.len(),
    ensures
        depth(out[j]) >= depth(out[k]),
        !has_prefix(out[k], out[j] + seq!['/']),
{
    let all = doomed(selected, paths);
    let order = choose|order: Seq<usize>| #[trigger] deepest_first(order, all) && out == dedup(in_order(order, all));
    let s = in_order(order, all);
    assert forall|a: int, b: int| 0 <= a < b < s.len() implies depth(#[trigger] s[a]) >= depth(#[trigger] s[b]) by {
        assert(s[a] == all[order[a] as int] && s[b] == all[order[b] as int]);
    }
    lemma_dedup_keeps_depth_order(s);
    assert(depth(out[j]) >= depth(out[k]));
    if has_prefix(out[k], out[j] + seq!['/']) {
        lemma_descendant_is_deeper(out[k], out[j]);
    }
}

/// Whether no entry of `s` occurs twice.
pub open spec fn no_repeats(s: Seq<Seq<char>>) -> bool {
    forall|i: int, j: int| 0 <= i < j < s.len() ==> s[i] != s[j]
}

/// An extended click on a selected node takes exactly one entry out of the
/// selection, whatever the selection holds.
pub proof fn law_an_extended_click_on_a_selected_node_shrinks_the_selection(selected: Seq<Seq<char>>, path: Seq<char>)
    requires
        selected.contains(path),
    ensures
        clicked(selected, path, true).len() == selected.len() - 1,
{
    lemma_first_at(selected, path, 0);
    let w = choose|w: int| 0 <= w < selected.len() && selected[w] == path;
    assert(first_at(selected, path, 0) is Some);
}

/// A plain click selects just the clicked node. An extended click toggles
/// it: a selected node is taken out and every other selected node kept; a
/// node not selected is added at the end. A selection without repeats never
/// gains one.
pub proof fn law_a_click_toggles(selected: Seq<Seq<char>>, path: Seq<char>)
    requires
        no_repeats(selected),
    ensures
        clicked(selected, path, false) == seq![path],
        no_repeats(clicked(selected, path, true)),
        selected.contains(path) ==> !clicked(selected, path, true).contains(path),
        selected.contains(path) ==> clicked(selected, path, true).len() == selected.len() - 1,
        forall|x: Seq<char>| x != path ==> (#[trigger] clicked(selected, path, true).contains(x) <==> selected.contains(x)),
        !selected.contains(path) ==> clicked(selected, path, true) == selected.push(path),
{
    lemma_first_at(selected, path, 0);
    let r = clicked(selected, path, true);
    match first_at(selected, path, 0) {
        Some(i) => {
            assert(selected[i] == path);
            assert(selected.contains(path));
            assert(r == selected.remove(i));
            assert forall|a: int, b: int| 0 <= a < b < r.len() implies r[a] != r[b] by {
                let sa = if a < i { a } else { a + 1 };
                let sb = if b < i { b } else { b + 1 };
                assert(r[a] == selected[sa] && r[b] == selected[sb]);
            }
            assert forall|t: int| 0 <= t < r.len() implies r[t] != path by {
                let st = if t < i { t } else { t + 1 };
                assert(r[t] == selected[st]);
            }
            assert forall|x: Seq<char>| x != path implies (#[trigger] r.contains(x) <==> selected.contains(x)) by {
                if selected.contains(x) {
                    let w = choose|w: int| 0 <= w < selected.len() && selected[w] == x;
                    if w < i {
                        assert(r[w] == x);
                    } else {
                        assert(w != i);
                        assert(r[w - 1] == x);
                    }
                }
                if r.contains(x) {
                    let w = choose|w: int| 0 <= w < r.len() && r[w] == x;
                    let sw = if w < i { w } else { w + 1 };
                    assert(selected[sw] == x);
                }
            }
        },
        None => {
            assert(!selected.contains(path));
            assert(r == selected.push(path));
            assert forall|a: int, b: int| 0 <= a < b < r.len() implies r[a] != r[b] by {
                if b == selected.len() {
                    assert(r[a] == selected[a]);
                }
            }
            assert forall|x: Seq<char>| x != path implies (#[trigger] r.contains(x) <==> selected.contains(x)) by {
                if selected.contains(x) {
                    let w = choose|w: int| 0 <= w < selected.len() && selected[w] == x;
                    assert(r[w] == x);
                }
                if r.contains(x) {
                    let w = choose|w: int| 0 <= w < r.len() && r[w] == x;
                    if w < selected.len() {
                        assert(selected[w] == x);
                    }
                }
            }
        },
    }
}

/// After the node at `from` moved to `to`, and the move landed (`paths`
/// holds `to`), the selection keeps its length and order: a selected `from`
/// is now `to`, a selected node under `from`, however deep, is at the same
/// place under `to`, and any other entry stays. When the move did not land,
/// the selection is unchanged.
pub proof fn law_the_selection_follows_a_move(
    selected: Seq<Seq<char>>,
    paths: Seq<Seq<char>>,
    from: Seq<char>,
    to: Seq<char>,
)
    ensures
        reselected(selected, paths, from, to).len() == selected.len(),
        !paths.contains(to) ==> reselected(selected, paths, from, to) == selected,
        paths.contains(to) ==> forall|k: int|
            0 <= k < selected.len() && selected[k] == from ==> #[trigger] reselected(selected, paths, from, to)[k] == to,
        paths.contains(to) ==> forall|k: int, rest: Seq<char>|
            #![trigger selected[k], from + seq!['/'] + rest]
            0 <= k < selected.len() && selected[k] == from + seq!['/'] + rest ==> reselected(selected, paths, from, to)[k]
                == to + seq!['/'] + rest,
        paths.contains(to) ==> forall|k: int|
            0 <= k < selected.len() && selected[k] != from && !has_prefix(selected[k], from + seq!['/'])
                ==> #[trigger] reselected(selected, paths, from, to)[k] == selected[k],
{
    let r = reselected(selected, paths, from, to);
    let under = from + seq!['/'];
    if paths.contains(to) {
        assert forall|k: int, rest: Seq<char>|
            #![trigger selected[k], from + seq!['/'] + rest]
            0 <= k < selected.len() && selected[k] == from + seq!['/'] + rest implies r[k] == to + seq!['/'] + rest by {
            let p = selected[k];
            assert(p.len() > from.len());
            assert(p != from);
            assert(p.take(under.len() as int) =~= under);
            assert(p.skip(under.len() as int) =~= rest);
            assert(r[k] == followed(p, from, to));
        }
        assert forall|k: int| 0 <= k < selected.len() && selected[k] == from implies #[trigger] r[k] == to by {
            assert(r[k] == followed(selected[k], from, to));
        }
        assert forall|k: int|
            0 <= k < selected.len() && selected[k] != from && !has_prefix(selected[k], from + seq!['/']) implies
            #[trigger] r[k] == selected[k] by {
            assert(r[k] == followed(selected[k], from, to));
        }
    }
}

} // verus!
