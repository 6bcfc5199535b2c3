//! Walking up a scene's hierarchy to the nearest ancestor of some kind: the
//! dynamic body a collider belongs to, or the character a renderable is part
//! of.
//!
//! The hierarchy is a table of parent links, node `i`'s parent at
//! `parents[i]`. The walk is bounded, so a malformed hierarchy with a cycle
//! ends the search instead of hanging the load.
use vstd::prelude::*;

verus! {

/// How many steps up the walk goes before giving up.
pub const MAX_CLIMB: usize = 64;

/// Whether the parent links stay inside the table and `marks` has a flag for
/// every node.
pub open spec fn links_within(parents: Seq<Option<usize>>, marks: Seq<bool>) -> bool {
    &&& marks.len() == parents.len()
    &&& forall|i: int| 0 <= i < parents.len() && (#[trigger] parents[i]) is Some ==> parents[i]->0 < parents.len()
}

/// The node `steps` parent links above `node`, if the chain goes that far.
pub open spec fn climb(parents: Seq<Option<usize>>, node: int, steps: nat) -> Option<int>
    decreases steps,
{
    if steps == 0 {
        Some(node)
    } else {
        match climb(parents, node, (steps - 1) as nat) {
            Some(c) => if 0 <= c < parents.len() {
                match parents[c] {
                    Some(p) => Some(p as int),
                    None => None,
                }
            } else {
                None
            },
            None => None,
        }
    }
}

/// Whether the walk from `node` reaches a node `steps` links up and goes on
/// past it because it is not marked.
pub open spec fn passes(parents: Seq<Option<usize>>, marks: Seq<bool>, node: int, steps: nat) -> bool {
    match climb(parents, node, steps) {
        Some(c) => !(0 <= c < marks.len() && marks[c]),
        None => false,
    }
}

/// The nearest marked ancestor of `node` among those from `steps` links up to
/// `MAX_CLIMB` links up, if any.
pub open spec fn marked_from(parents: Seq<Option<usize>>, marks: Seq<bool>, node: int, steps: nat) -> Option<int>
    decreases MAX_CLIMB + 1 - steps,
{
    if steps > MAX_CLIMB {
        None
    } else {
        match climb(parents, node, steps) {
            Some(c) => if 0 <= c < marks.len() && marks[c] {
                Some(c)
            } else {
                marked_from(parents, marks, node, steps + 1)
            },
            None => None,
        }
    }
}

/// The nearest marked ancestor of `node`, looking at most `MAX_CLIMB` links
/// up.
pub open spec fn nearest_marked(parents: Seq<Option<usize>>, marks: Seq<bool>, node: int) -> Option<int> {
    marked_from(parents, marks, node, 1)
}

proof fn lemma_climb_within(parents: Seq<Option<usize>>, marks: Seq<bool>, node: int, steps: nat)
    requires
        links_within(parents, marks),
        0 <= node < parents.len(),
    ensures
        climb(parents, node, steps) matches Some(c) ==> 0 <= c < parents.len(),
    decreases steps,
{
    if steps > 0 {
        lemma_climb_within(parents, marks, node, (steps - 1) as nat);
        if let Some(c) = climb(parents, node, (steps - 1) as nat) {
            if parents[c] is Some {
                assert(parents[c]->0 < parents.len());
            }
        }
    }
}

fn nearest_marked_ancestor(parents: &Vec<Option<usize>>, marks: &Vec<bool>, node: usize) -> (found: Option<usize>)
    requires
        links_within(parents@, marks@),
        node < parents@.len(),
    ensures
        match found {
            Some(a) => nearest_marked(parents@, marks@, node as int) == Some(a as int),
            None => nearest_marked(parents@, marks@, node as int) is None,
        },
{
    let mut current: Option<usize> = parents[node];
    let mut steps: usize = 1;
    proof { lemma_climb_within(parents@, marks@, node as int, 1); }
    assert(climb(parents@, node as int, 0) == Some(node as int));
    while steps <= MAX_CLIMB
        invariant
            links_within(parents@, marks@),
            node < parents@.len(),
            1 <= steps <= MAX_CLIMB + 1,
            match current {
                Some(c) => climb(parents@, node as int, steps as nat) == Some(c as int) && c < parents@.len(),
                None => climb(parents@, node as int, steps as nat) is None,
            },
            nearest_marked(parents@, marks@, node as int) == marked_from(parents@, marks@, node as int, steps as nat),
        decreases MAX_CLIMB + 1 - steps,
    {
        let c = match current {
            Some(c) => c,
            None => {
                return None;
            },
        };
        if marks[c] {
            return Some(c);
        }
        current = parents[c];
        steps = steps + 1;
        proof { lemma_climb_within(parents@, marks@, node as int, steps as nat); }
    }
    None
}

/// The dynamic body a node moves with: the nearest ancestor marked in
/// `dynamic`, looking at most `MAX_CLIMB` links up.
pub fn dynamic_ancestor(parents: &Vec<Option<usize>>, dynamic: &Vec<bool>, node: usize) -> (body: Option<usize>)
    requires
        links_within(parents@, dynamic@),
        node < parents@.len(),
    ensures
        match body {
            Some(a) => nearest_marked(parents@, dynamic@, node as int) == Some(a as int),
            None => nearest_marked(parents@, dynamic@, node as int) is None,
        },
{
    nearest_marked_ancestor(parents, dynamic, node)
}

/// Whether a node is part of a character: whether an ancestor, at most
/// `MAX_CLIMB` links up, is marked in `character`.
pub fn character_ancestor(parents: &Vec<Option<usize>>, character: &Vec<bool>, node: usize) -> (part: bool)
    requires
        links_within(parents@, character@),
        node < parents@.len(),
    ensures
        part == nearest_marked(parents@, character@, node as int) is Some,
{
    nearest_marked_ancestor(parents, character, node).is_some()
}

proof fn lemma_marked_from_found(parents: Seq<Option<usize>>, marks: Seq<bool>, node: int, steps: nat)
    requires
        marked_from(parents, marks, node, steps) is Some,
    ensures
        ({
            let a = marked_from(parents, marks, node, steps)->0;
            exists|k: nat|
                steps <= k <= MAX_CLIMB && climb(parents, node, k) == Some(a) && 0 <= a < marks.len() && marks[a]
                    && forall|j: nat| steps <= j < k ==> #[trigger] passes(parents, marks, node, j)
        }),
    decreases MAX_CLIMB + 1 - steps,
{
    let a = marked_from(parents, marks, node, steps)->0;
    match climb(parents, node, steps) {
        Some(c) => {
            if 0 <= c < marks.len() && marks[c] {
                assert(climb(parents, node, steps) == Some(a));
            } else {
                lemma_marked_from_found(parents, marks, node, steps + 1);
                let k = choose|k: nat|
                    steps + 1 <= k <= MAX_CLIMB && climb(parents, node, k) == Some(a) && 0 <= a < marks.len() && marks[a]
                        && forall|j: nat| steps + 1 <= j < k ==> #[trigger] passes(parents, marks, node, j);
                assert(passes(parents, marks, node, steps));
                assert forall|j: nat| steps <= j < k implies #[trigger] passes(parents, marks, node, j) by {}
            }
        },
        None => {},
    }
}

/// What the walk finds is a true ancestor: some number of links up, within
/// the bound, marked, and with nothing marked on the way.
pub proof fn law_the_nearest_marked_is_an_ancestor(parents: Seq<Option<usize>>, marks: Seq<bool>, node: int)
    requires
        nearest_marked(parents, marks, node) is Some,
    ensures
        ({
            let a = nearest_marked(parents, marks, node)->0;
            exists|k: nat|
                1 <= k <= MAX_CLIMB && climb(parents, node, k) == Some(a) && marks[a] && forall|j: nat|
                    1 <= j < k ==> #[trigger] passes(parents, marks, node, j)
        }),
{
    lemma_marked_from_found(parents, marks, node, 1);
}

} // verus!
