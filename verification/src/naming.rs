//! Naming nodes in the editor's hierarchy: free names for copies and new
//! children, and where a node lands when it is renamed, moved or re-created.
//!
//! A node's path is its ancestors' names and its own, joined by `/`.
use vstd::prelude::*;
use crate::text::{chars_of, string_of};

verus! {

/// The decimal digit worth `d`.
pub open spec fn digit_char(d: nat) -> char {
    (48 + d) as char
}

/// `n` in decimal, as `format!("{n}")` writes it.
pub open spec fn decimal(n: nat) -> Seq<char>
    decreases n,
{
    if n < 10 {
        seq![digit_char(n)]
    } else {
        decimal(n / 10).push(digit_char(n % 10))
    }
}

/// The path of a child called `name` under `parent`; a node at the root when
/// `parent` is empty.
pub open spec fn child_path(parent: Seq<char>, name: Seq<char>) -> Seq<char> {
    if parent.len() == 0 {
        name
    } else {
        parent + seq!['/'] + name
    }
}

/// `base` numbered `n`: `base` itself for the first, then `base2`, `base3`..
pub open spec fn numbered(base: Seq<char>, n: nat) -> Seq<char> {
    if n <= 1 {
        base
    } else {
        base + decimal(n)
    }
}

proof fn lemma_decimal_len(n: nat)
    ensures
        decimal(n).len() >= 1,
        n >= 10 ==> decimal(n).len() >= 2,
    decreases n,
{
    if n >= 10 {
        lemma_decimal_len(n / 10);
    }
}

proof fn lemma_digit_char(d: nat)
    requires
        d < 10,
    ensures
        digit_char(d) as int == 48 + d,
{
}

proof fn lemma_decimal_injective(n: nat, m: nat)
    requires
        decimal(n) == decimal(m),
    ensures
        n == m,
    decreases n,
{
    lemma_decimal_len(n);
    lemma_decimal_len(m);
    if n < 10 && m < 10 {
        assert(decimal(n)[0] == decimal(m)[0]);
        assert(decimal(n)[0] == digit_char(n));
        assert(decimal(m)[0] == digit_char(m));
        lemma_digit_char(n);
        lemma_digit_char(m);
    } else if n >= 10 && m >= 10 {
        let (a, b) = (decimal(n / 10), decimal(m / 10));
        assert(decimal(n).drop_last() =~= a);
        assert(decimal(m).drop_last() =~= b);
        lemma_decimal_injective(n / 10, m / 10);
        assert(decimal(n).last() == decimal(m).last());
        assert(decimal(n).last() == digit_char(n % 10));
        assert(decimal(m).last() == digit_char(m % 10));
        lemma_digit_char(n % 10);
        lemma_digit_char(m % 10);
        assert(n % 10 == m % 10);
        assert(n == 10 * (n / 10) + n % 10);
        assert(m == 10 * (m / 10) + m % 10);
    } else {
        assert(decimal(n).len() != decimal(m).len());
    }
}

proof fn lemma_numbered_injective(base: Seq<char>, n: nat, m: nat)
    requires
        n >= 1,
        m >= 1,
        numbered(base, n) == numbered(base, m),
    ensures
        n == m,
{
    lemma_decimal_len(n);
    lemma_decimal_len(m);
    if n >= 2 && m >= 2 {
        assert(numbered(base, n).skip(base.len() as int) =~= decimal(n));
        assert(numbered(base, m).skip(base.len() as int) =~= decimal(m));
        lemma_decimal_injective(n, m);
    } else if n >= 2 || m >= 2 {
        assert(numbered(base, n).len() != numbered(base, m).len());
    }
}

proof fn lemma_prefix_injective(prefix: Seq<char>, a: Seq<char>, b: Seq<char>)
    requires
        prefix + a == prefix + b,
    ensures
        a == b,
{
    assert((prefix + a).skip(prefix.len() as int) =~= a);
    assert((prefix + b).skip(prefix.len() as int) =~= b);
}

/// Whether one of `paths` is `path`.
pub open spec fn chars_taken(paths: Seq<Vec<char>>, path: Seq<char>) -> bool {
    exists|j: int| 0 <= j < paths.len() && (#[trigger] paths[j])@ == path
}

/// Whether `paths` has `path`.
pub open spec fn taken(paths: Seq<Seq<char>>, path: Seq<char>) -> bool {
    paths.contains(path)
}

/// The characters of each string.
pub open spec fn strings_view(v: Seq<String>) -> Seq<Seq<char>> {
    v.map_values(|s: String| s@)
}

fn decimal_of(n: u128) -> (digits: Vec<char>)
    ensures
        digits@ == decimal(n as nat),
    decreases n,
{
    if n < 10 {
        let b: u8 = (48 + n) as u8;
        vec![b as char]
    } else {
        let mut digits = decimal_of(n / 10);
        let b: u8 = (48 + n % 10) as u8;
        digits.push(b as char);
        digits
    }
}

pub(crate) fn same_chars(a: &Vec<char>, b: &Vec<char>) -> (same: bool)
    ensures
        same == (a@ == b@),
{
    if a.len() != b.len() {
        return false;
    }
    let mut k: usize = 0;
    while k < a.len()
        invariant
            a@.len() == b@.len(),
            k <= a@.len(),
            forall|t: int| 0 <= t < k ==> a@[t] == b@[t],
        decreases a@.len() - k,
    {
        if a[k] != b[k] {
            return false;
        }
        k = k + 1;
    }
    assert(a@ =~= b@);
    true
}

fn all_chars(paths: &Vec<String>) -> (out: Vec<Vec<char>>)
    ensures
        out@.len() == paths@.len(),
        forall|k: int| 0 <= k < out@.len() ==> #[trigger] out@[k]@ == paths@[k]@,
{
    let mut out: Vec<Vec<char>> = Vec::new();
    let mut i: usize = 0;
    while i < paths.len()
        invariant
            i <= paths@.len(),
            out@.len() == i,
            forall|k: int| 0 <= k < i ==> #[trigger] out@[k]@ == paths@[k]@,
        decreases paths@.len() - i,
    {
        out.push(chars_of(paths[i].as_str()));
        i = i + 1;
    }
    out
}

fn find_path(paths: &Vec<Vec<char>>, path: &Vec<char>) -> (at: Option<usize>)
    ensures
        match at {
            Some(j) => j < paths@.len() && paths@[j as int]@ == path@,
            None => forall|j: int| 0 <= j < paths@.len() ==> (#[trigger] paths@[j])@ != path@,
        },
{
    let mut i: usize = 0;
    while i < paths.len()
        invariant
            i <= paths@.len(),
            forall|j: int| 0 <= j < i ==> (#[trigger] paths@[j])@ != path@,
        decreases paths@.len() - i,
    {
        if same_chars(&paths[i], path) {
            return Some(i);
        }
        i = i + 1;
    }
    None
}

pub(crate) fn concat(a: &Vec<char>, b: &Vec<char>) -> (out: Vec<char>)
    ensures
        out@ == a@ + b@,
{
    let mut out = a.clone();
    let mut k: usize = 0;
    while k < b.len()
        invariant
            k <= b@.len(),
            out@ == a@ + b@.take(k as int),
        decreases b@.len() - k,
    {
        out.push(b[k]);
        k = k + 1;
        assert(b@.take(k as int) =~= b@.take(k - 1).push(b@[k - 1]));
    }
    assert(b@.take(b@.len() as int) =~= b@);
    out
}

/// The first of `base`, `base2`, `base3`.. that, after `prefix`, is no path in
/// `paths`.
fn first_free(paths: &Vec<Vec<char>>, prefix: &Vec<char>, base: &Vec<char>) -> (name: Vec<char>)
    ensures
        exists|k: nat|
            k >= 1 && name@ == numbered(base@, k) && {
                &&& forall|j: int| 0 <= j < paths@.len() ==> (#[trigger] paths@[j])@ != prefix@ + name@
                &&& forall|m: nat| 1 <= m < k ==> chars_taken(paths@, prefix@ + #[trigger] numbered(base@, m))
            },
{
    let total: usize = paths.len();
    let mut n: u128 = 1;
    let ghost mut seen: Set<int> = Set::empty();
    let ghost len = paths@.len() as int;
    loop
        invariant
            len == paths@.len(),
            len == total,
            n >= 1,
            seen.finite(),
            seen.len() == n - 1,
            seen.subset_of(vstd::set_lib::set_int_range(0, len)),
            forall|j: int| #[trigger] seen.contains(j) ==> exists|m: nat| 1 <= m < n && paths@[j]@ == prefix@
                + #[trigger] numbered(base@, m),
            forall|m: nat| 1 <= m < n ==> chars_taken(paths@, prefix@ + #[trigger] numbered(base@, m)),
        decreases len - seen.len(),
    {
        let candidate = if n == 1 {
            base.clone()
        } else {
            let digits = decimal_of(n);
            concat(base, &digits)
        };
        assert(candidate@ == numbered(base@, n as nat));
        let path = concat(prefix, &candidate);
        match find_path(paths, &path) {
            None => {
                return candidate;
            },
            Some(j) => {
                proof {
                    if seen.contains(j as int) {
                        let m = choose|m: nat| 1 <= m < n && paths@[j as int]@ == prefix@ + #[trigger] numbered(base@, m);
                        lemma_prefix_injective(prefix@, numbered(base@, m), numbered(base@, n as nat));
                        lemma_numbered_injective(base@, m, n as nat);
                    }
                    vstd::set_lib::lemma_int_range(0, len);
                    let next = seen.insert(j as int);
                    vstd::set_lib::lemma_len_subset(next, vstd::set_lib::set_int_range(0, len));
                    assert forall|i: int| #[trigger] next.contains(i) implies exists|m: nat| 1 <= m < n + 1
                        && paths@[i]@ == prefix@ + #[trigger] numbered(base@, m) by {
                        if i == j as int {
                            assert(paths@[i]@ == prefix@ + numbered(base@, n as nat));
                        }
                    }
                    assert forall|m: nat| 1 <= m < n + 1 implies chars_taken(paths@, prefix@ + #[trigger] numbered(base@, m)) by {
                        if m == n {
                            assert(paths@[j as int]@ == prefix@ + numbered(base@, m));
                        }
                    }
                    seen = next;
                }
                n = n + 1;
            },
        }
    }
}

/// Whether `name` is the first of `base`, `base2`, `base3`.. whose path after
/// `prefix` is not in `paths`.
pub open spec fn first_free_numbered(paths: Seq<Seq<char>>, prefix: Seq<char>, base: Seq<char>, name: Seq<char>) -> bool {
    exists|k: nat|
        k >= 1 && name == numbered(base, k) && !taken(paths, prefix + name) && forall|m: nat|
            1 <= m < k ==> taken(paths, prefix + #[trigger] numbered(base, m))
}

/// What goes before a child's name in its path.
pub open spec fn child_prefix(parent: Seq<char>) -> Seq<char> {
    if parent.len() == 0 {
        Seq::empty()
    } else {
        parent + seq!['/']
    }
}

proof fn lemma_taken_chars(paths: Seq<Vec<char>>, strings: Seq<String>, p: Seq<char>)
    requires
        paths.len() == strings.len(),
        forall|k: int| 0 <= k < paths.len() ==> #[trigger] paths[k]@ == strings[k]@,
    ensures
        chars_taken(paths, p) == taken(strings_view(strings), p),
{
    let v = strings_view(strings);
    if chars_taken(paths, p) {
        let j = choose|j: int| 0 <= j < paths.len() && (#[trigger] paths[j])@ == p;
        assert(v[j] == p);
    }
    if taken(v, p) {
        let j = choose|j: int| 0 <= j < v.len() && v[j] == p;
        assert(paths[j]@ == p);
    }
}

fn prefix_for(parent: &Vec<char>) -> (prefix: Vec<char>)
    ensures
        prefix@ == child_prefix(parent@),
{
    if parent.len() == 0 {
        Vec::new()
    } else {
        let mut p = parent.clone();
        p.push('/');
        p
    }
}

/// A name like `name`, `nameCopy`, `nameCopy2`, whichever is free under
/// `parent` among `paths`.
pub fn free_name(paths: &Vec<String>, parent: &str, name: &str) -> (free: String)
    ensures
        !taken(strings_view(paths@), child_path(parent@, name@)) ==> free@ == name@,
        taken(strings_view(paths@), child_path(parent@, name@)) ==> first_free_numbered(
            strings_view(paths@),
            child_prefix(parent@),
            name@ + "Copy"@,
            free@,
        ),
        !taken(strings_view(paths@), child_path(parent@, free@)),
{
    proof {
        reveal_strlit("Copy");
    }
    let all = all_chars(paths);
    let parent_chars = chars_of(parent);
    let name_chars = chars_of(name);
    let prefix = prefix_for(&parent_chars);
    let plain = concat(&prefix, &name_chars);
    assert(plain@ == child_path(parent@, name@)) by {
        if parent@.len() == 0 {
            assert(prefix@ + name@ =~= name@);
        }
    }
    proof { lemma_taken_chars(all@, paths@, plain@); }
    if find_path(&all, &plain).is_none() {
        return string_of(&name_chars);
    }
    let mut base = name_chars.clone();
    base.push('C');
    base.push('o');
    base.push('p');
    base.push('y');
    assert(base@ =~= name@ + "Copy"@);
    let found = first_free(&all, &prefix, &base);
    proof {
        let k = choose|k: nat|
            k >= 1 && found@ == numbered(base@, k) && {
                &&& forall|j: int| 0 <= j < all@.len() ==> (#[trigger] all@[j])@ != prefix@ + found@
                &&& forall|m: nat| 1 <= m < k ==> chars_taken(all@, prefix@ + #[trigger] numbered(base@, m))
            };
        lemma_taken_chars(all@, paths@, prefix@ + found@);
        assert forall|m: nat| 1 <= m < k implies taken(strings_view(paths@), prefix@ + #[trigger] numbered(base@, m)) by {
            lemma_taken_chars(all@, paths@, prefix@ + numbered(base@, m));
        }
        assert(first_free_numbered(strings_view(paths@), prefix@, base@, found@));
        if parent@.len() == 0 {
            assert(prefix@ + found@ =~= found@);
        }
    }
    string_of(&found)
}

/// The name of a new child of `parent`: `Node`, or `Node2`, `Node3`.., the
/// first whose path is free among `paths`.
pub fn child_name(paths: &Vec<String>, parent: &str) -> (name: String)
    ensures
        first_free_numbered(strings_view(paths@), parent@ + seq!['/'], "Node"@, name@),
{
    proof {
        reveal_strlit("Node");
    }
    let all = all_chars(paths);
    let mut prefix = chars_of(parent);
    prefix.push('/');
    assert(prefix@ =~= parent@ + seq!['/']);
    let base: Vec<char> = vec!['N', 'o', 'd', 'e'];
    assert(base@ =~= "Node"@);
    let found = first_free(&all, &prefix, &base);
    proof {
        let k = choose|k: nat|
            k >= 1 && found@ == numbered(base@, k) && {
                &&& forall|j: int| 0 <= j < all@.len() ==> (#[trigger] all@[j])@ != prefix@ + found@
                &&& forall|m: nat| 1 <= m < k ==> chars_taken(all@, prefix@ + #[trigger] numbered(base@, m))
            };
        lemma_taken_chars(all@, paths@, prefix@ + found@);
        assert forall|m: nat| 1 <= m < k implies taken(strings_view(paths@), prefix@ + #[trigger] numbered(base@, m)) by {
            lemma_taken_chars(all@, paths@, prefix@ + numbered(base@, m));
        }
        assert(first_free_numbered(strings_view(paths@), prefix@, base@, found@));
    }
    string_of(&found)
}

/// Where the last `/` of `s` is.
pub open spec fn last_slash(s: Seq<char>) -> Option<int>
    decreases s.len(),
{
    if s.len() == 0 {
        None
    } else if s.last() == '/' {
        Some(s.len() - 1)
    } else {
        last_slash(s.drop_last())
    }
}

/// A path split at its last `/` into its parent's path and its own name, as
/// `str::rsplit_once('/')` does; a root node's parent is empty.
pub open spec fn parent_and_leaf(path: Seq<char>) -> (Seq<char>, Seq<char>) {
    match last_slash(path) {
        Some(i) => (path.take(i), path.skip(i + 1)),
        None => (Seq::empty(), path),
    }
}

/// The node's own name: what follows the last `/`.
pub open spec fn leaf_of(path: Seq<char>) -> Seq<char> {
    parent_and_leaf(path).1
}

/// Where a node lands when renamed to `name`: beside where it was. Nothing
/// happens for an empty name or the name it already has.
pub open spec fn renamed(node: Seq<char>, name: Seq<char>) -> Option<Seq<char>> {
    if name.len() == 0 || name == leaf_of(node) {
        None
    } else {
        match last_slash(node) {
            Some(i) => Some(node.take(i) + seq!['/'] + name),
            None => Some(name),
        }
    }
}

/// Where a node of the subtree at `root` lands when the subtree is re-created
/// at `new_root`: the root at `new_root`, and everything under it keeping its
/// shape. A path outside the subtree is placed under `new_root` whole.
pub open spec fn relocated(path: Seq<char>, root: Seq<char>, new_root: Seq<char>) -> Seq<char> {
    let under = root + seq!['/'];
    if path == root {
        new_root
    } else if path.len() >= under.len() && path.take(under.len() as int) == under {
        new_root + seq!['/'] + path.skip(under.len() as int)
    } else {
        new_root + seq!['/'] + path
    }
}

fn last_slash_in(s: &Vec<char>) -> (at: Option<usize>)
    ensures
        match at {
            Some(i) => last_slash(s@) == Some(i as int) && i < s@.len(),
            None => last_slash(s@) is None,
        },
{
    let mut i: usize = s.len();
    assert(s@.take(i as int) =~= s@);
    while i > 0
        invariant
            i <= s@.len(),
            last_slash(s@) == last_slash(s@.take(i as int)),
        decreases i,
    {
        assert(s@.take(i as int).drop_last() =~= s@.take(i - 1));
        if s[i - 1] == '/' {
            return Some(i - 1);
        }
        i = i - 1;
    }
    assert(s@.take(0) =~= Seq::<char>::empty());
    None
}

proof fn lemma_last_slash_bounds(s: Seq<char>)
    ensures
        last_slash(s) matches Some(i) ==> 0 <= i < s.len() && s[i] == '/',
        last_slash(s) is None ==> forall|k: int| 0 <= k < s.len() ==> s[k] != '/',
    decreases s.len(),
{
    if s.len() > 0 && s.last() != '/' {
        lemma_last_slash_bounds(s.drop_last());
        if last_slash(s) is None {
            assert forall|k: int| 0 <= k < s.len() implies s[k] != '/' by {
                if k < s.len() - 1 {
                    assert(s.drop_last()[k] == s[k]);
                }
            }
        }
    }
}

fn slice_chars(s: &Vec<char>, start: usize, end: usize) -> (out: Vec<char>)
    requires
        start <= end <= s@.len(),
    ensures
        out@ == s@.subrange(start as int, end as int),
{
    let mut out: Vec<char> = Vec::new();
    let mut k: usize = start;
    while k < end
        invariant
            start <= k <= end <= s@.len(),
            out@ == s@.subrange(start as int, k as int),
        decreases end - k,
    {
        out.push(s[k]);
        k = k + 1;
        assert(s@.subrange(start as int, k as int) =~= s@.subrange(start as int, k - 1).push(s@[k - 1]));
    }
    out
}

/// Split a path into its parent's path and its own name.
pub fn split_parent(path: &str) -> (parts: (String, String))
    ensures
        (parts.0@, parts.1@) == parent_and_leaf(path@),
{
    let p = chars_of(path);
    match last_slash_in(&p) {
        Some(i) => {
            let before = slice_chars(&p, 0, i);
            let total = p.len();
            let after = slice_chars(&p, i + 1, total);
            assert(before@ =~= p@.take(i as int));
            assert(after@ =~= p@.skip(i + 1));
            (string_of(&before), string_of(&after))
        },
        None => {
            let empty: Vec<char> = Vec::new();
            assert(empty@ =~= Seq::<char>::empty());
            (string_of(&empty), string_of(&p))
        },
    }
}

/// Where a node lands when renamed to `name`, or `None` when the rename
/// changes nothing.
pub fn rename_target(node: &str, name: &str) -> (moved: Option<String>)
    ensures
        match moved {
            Some(m) => renamed(node@, name@) == Some(m@),
            None => renamed(node@, name@) is None,
        },
{
    let n = chars_of(node);
    let new_name = chars_of(name);
    let at = last_slash_in(&n);
    proof { lemma_last_slash_bounds(n@); }
    let leaf = match at {
        Some(i) => {
            let total = n.len();
            slice_chars(&n, i + 1, total)
        },
        None => n.clone(),
    };
    assert(leaf@ =~= leaf_of(node@));
    if new_name.len() == 0 || same_chars(&new_name, &leaf) {
        return None;
    }
    match at {
        Some(i) => {
            let mut out = slice_chars(&n, 0, i);
            out.push('/');
            let out = concat(&out, &new_name);
            assert(out@ =~= node@.take(i as int) + seq!['/'] + name@);
            Some(string_of(&out))
        },
        None => Some(string_of(&new_name)),
    }
}

/// Where a node lands when moved under `parent`: its own name, under it.
pub fn reparent_target(node: &str, parent: &str) -> (moved: String)
    ensures
        moved@ == parent@ + seq!['/'] + leaf_of(node@),
{
    let n = chars_of(node);
    let leaf = match last_slash_in(&n) {
        Some(i) => {
            let total = n.len();
            slice_chars(&n, i + 1, total)
        },
        None => n.clone(),
    };
    assert(leaf@ =~= leaf_of(node@));
    let mut out = chars_of(parent);
    out.push('/');
    let out = concat(&out, &leaf);
    assert(out@ =~= parent@ + seq!['/'] + leaf_of(node@));
    string_of(&out)
}

/// Where `path`, a node of the subtree at `root`, lands when the subtree is
/// re-created at `new_root`.
pub fn relocate(path: &str, root: &str, new_root: &str) -> (moved: String)
    ensures
        moved@ == relocated(path@, root@, new_root@),
{
    let p = chars_of(path);
    let r = chars_of(root);
    let nr = chars_of(new_root);
    if same_chars(&p, &r) {
        return string_of(&nr);
    }
    let mut under = r.clone();
    under.push('/');
    assert(under@ =~= root@ + seq!['/']);
    let mut out = nr.clone();
    out.push('/');
    let tail = if p.len() >= under.len() && same_chars(&slice_chars(&p, 0, under.len()), &under) {
        assert(p@.subrange(0, under@.len() as int) =~= p@.take(under@.len() as int));
        slice_chars(&p, under.len(), p.len())
    } else {
        assert(p@.len() >= under@.len() ==> p@.subrange(0, under@.len() as int) =~= p@.take(under@.len() as int));
        p.clone()
    };
    let out = concat(&out, &tail);
    assert(out@ =~= relocated(path@, root@, new_root@));
    string_of(&out)
}

/// Where one node of a re-created subtree lands: its new path, split into
/// the parent it is spawned under and its own name.
#[derive(Debug)]
pub struct Landing {
    pub path: String,
    pub parent: String,
    pub name: String,
}

/// Whether `landing` is where `path`, of the subtree at `root`, lands when
/// the subtree is re-created at `new_root`.
pub open spec fn lands(landing: Landing, path: Seq<char>, root: Seq<char>, new_root: Seq<char>) -> bool {
    let moved = relocated(path, root, new_root);
    &&& landing.path@ == moved
    &&& (landing.parent@, landing.name@) == parent_and_leaf(moved)
}

/// Where each node of a captured subtree lands when it is re-created under
/// `parent` with its root named `name`, and the new root's path. `nodes`
/// lists the subtree root first; nothing lands when it is empty, and the new
/// root is then empty too. Duplicate and paste both go through here.
pub fn respawn_plan(nodes: &Vec<String>, parent: &str, name: &str) -> (plan: (Vec<Landing>, String))
    ensures
        nodes@.len() == 0 ==> plan.0@.len() == 0 && plan.1@.len() == 0,
        nodes@.len() > 0 ==> {
            &&& plan.1@ == child_path(parent@, name@)
            &&& plan.0@.len() == nodes@.len()
            &&& forall|k: int| 0 <= k < nodes@.len() ==> lands(#[trigger] plan.0@[k], nodes@[k]@, nodes@[0]@, plan.1@)
        },
{
    let mut landings: Vec<Landing> = Vec::new();
    if nodes.len() == 0 {
        let empty: Vec<char> = Vec::new();
        let none = string_of(&empty);
        return (landings, none);
    }
    let parent_chars = chars_of(parent);
    let name_chars = chars_of(name);
    let new_root_chars = if parent_chars.len() == 0 {
        name_chars
    } else {
        let mut p = parent_chars.clone();
        p.push('/');
        assert(p@ =~= parent@ + seq!['/']);
        concat(&p, &name_chars)
    };
    let new_root = string_of(&new_root_chars);
    let root = nodes[0].as_str();
    let mut k: usize = 0;
    while k < nodes.len()
        invariant
            nodes@.len() > 0,
            root@ == nodes@[0]@,
            new_root@ == child_path(parent@, name@),
            k <= nodes@.len(),
            landings@.len() == k,
            forall|t: int| 0 <= t < k ==> lands(#[trigger] landings@[t], nodes@[t]@, nodes@[0]@, new_root@),
        decreases nodes@.len() - k,
    {
        let path = relocate(nodes[k].as_str(), root, new_root.as_str());
        let (into, leaf) = split_parent(path.as_str());
        landings.push(Landing { path, parent: into, name: leaf });
        k = k + 1;
    }
    (landings, new_root)
}

/// A child's path splits back into its parent and its name, when the name
/// has no `/` in it.
pub proof fn law_a_child_path_splits_back(parent: Seq<char>, name: Seq<char>)
    requires
        forall|k: int| 0 <= k < name.len() ==> name[k] != '/',
    ensures
        parent_and_leaf(child_path(parent, name)) == (parent, name),
{
    let p = child_path(parent, name);
    if parent.len() == 0 {
        lemma_last_slash_bounds(name);
        if last_slash(name) is Some {
            let i = last_slash(name)->0;
            assert(name[i] == '/');
        }
    } else {
        lemma_slash_after(parent, name);
        assert(p.take(parent.len() as int) =~= parent);
        assert(p.skip(parent.len() as int + 1) =~= name);
    }
}

proof fn lemma_slash_after(parent: Seq<char>, name: Seq<char>)
    requires
        forall|k: int| 0 <= k < name.len() ==> name[k] != '/',
    ensures
        last_slash(parent + seq!['/'] + name) == Some(parent.len() as int),
    decreases name.len(),
{
    let p = parent + seq!['/'] + name;
    if name.len() == 0 {
        assert(p.last() == '/');
    } else {
        assert(p.drop_last() =~= parent + seq!['/'] + name.drop_last());
        assert(p.last() == name.last());
        assert(name.last() == name[name.len() - 1]);
        lemma_slash_after(parent, name.drop_last());
    }
}

/// Re-creating a subtree moves its root to the new root and keeps the shape
/// under it.
pub proof fn law_a_subtree_keeps_its_shape(root: Seq<char>, new_root: Seq<char>, tail: Seq<char>)
    ensures
        relocated(root, root, new_root) == new_root,
        relocated(root + seq!['/'] + tail, root, new_root) == new_root + seq!['/'] + tail,
{
    let p = root + seq!['/'] + tail;
    if p != root {
        assert(p.take((root + seq!['/']).len() as int) =~= root + seq!['/']);
        assert(p.skip((root + seq!['/']).len() as int) =~= tail);
    } else {
        assert(p.len() > root.len());
    }
}

} // verus!
