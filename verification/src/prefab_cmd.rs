//! `loom prefab <verb> <scene> --node <path>`: which operation a command line
//! asks for, and the undo labels the prefab operations and the editor's
//! array and override edits leave behind.
use vstd::prelude::*;
use crate::naming::{concat, same_chars};
use crate::text::{chars_of, string_of};

verus! {

/// The three operations that span an instance and its prefab.
#[derive(Debug, Clone, Copy, PartialEq, Eq, Structural)]
pub enum PrefabVerb {
    /// Turn the instance into plain nodes.
    Unpack,
    /// Drop the instance's deviations from its prefab.
    RevertOverrides,
    /// Push the instance's deviations into the prefab file.
    ApplyOverrides,
}

/// What a `loom prefab` command line asks for.
#[derive(Debug, Clone, Copy, PartialEq, Eq, Structural)]
pub enum PrefabRequest {
    /// The verb or the scene is missing, or the verb is unknown: print usage
    /// and exit with status 2.
    Usage,
    /// No `--node` names the instance: say so and exit with status 2.
    MissingNode,
    /// Run the operation.
    Run(PrefabVerb),
}

/// The verb a word names on the command line.
pub open spec fn verb_named(word: Seq<char>) -> Option<PrefabVerb> {
    if word == "unpack"@ {
        Some(PrefabVerb::Unpack)
    } else if word == "revert-overrides"@ {
        Some(PrefabVerb::RevertOverrides)
    } else if word == "apply-overrides"@ {
        Some(PrefabVerb::ApplyOverrides)
    } else {
        None
    }
}

/// What a command line with `verb` (if given), a scene (if given) and a
/// `--node` (if given) asks for. A missing verb or scene is checked first,
/// then the node, then whether the verb is known.
pub open spec fn request_for(verb: Option<Seq<char>>, has_scene: bool, has_node: bool) -> PrefabRequest {
    if verb is None || !has_scene {
        PrefabRequest::Usage
    } else if !has_node {
        PrefabRequest::MissingNode
    } else {
        match verb_named(verb->0) {
            Some(v) => PrefabRequest::Run(v),
            None => PrefabRequest::Usage,
        }
    }
}

fn is_word(word: &Vec<char>, literal: &str) -> (b: bool)
    ensures
        b == (word@ == literal@),
{
    let l = chars_of(literal);
    same_chars(word, &l)
}

/// The verb `word` names, if any.
pub fn parse_verb(word: &str) -> (verb: Option<PrefabVerb>)
    ensures
        verb == verb_named(word@),
{
    let w = chars_of(word);
    if is_word(&w, "unpack") {
        Some(PrefabVerb::Unpack)
    } else if is_word(&w, "revert-overrides") {
        Some(PrefabVerb::RevertOverrides)
    } else if is_word(&w, "apply-overrides") {
        Some(PrefabVerb::ApplyOverrides)
    } else {
        None
    }
}

/// What the command line asks for, given the word after `prefab` (if any),
/// whether a scene path follows it, and whether `--node` was given.
pub fn prefab_request(verb: Option<&str>, has_scene: bool, has_node: bool) -> (request: PrefabRequest)
    ensures
        request == request_for(
            match verb {
                Some(v) => Some(v@),
                None => None,
            },
            has_scene,
            has_node,
        ),
{
    let word = match verb {
        Some(w) => w,
        None => {
            return PrefabRequest::Usage;
        },
    };
    if !has_scene {
        return PrefabRequest::Usage;
    }
    if !has_node {
        return PrefabRequest::MissingNode;
    }
    match parse_verb(word) {
        Some(v) => PrefabRequest::Run(v),
        None => PrefabRequest::Usage,
    }
}

/// The words an operation's undo entry begins with.
pub open spec fn label_words(verb: PrefabVerb) -> Seq<char> {
    match verb {
        PrefabVerb::Unpack => "Unpack "@,
        PrefabVerb::RevertOverrides => "Revert overrides on "@,
        PrefabVerb::ApplyOverrides => "Apply overrides from "@,
    }
}

/// The undo label of `verb` on `node`, as it reaches the log and the file's
/// history: what happened and to which node. For `apply-overrides` it is the
/// label of the prefab's half.
pub fn operation_label(verb: PrefabVerb, node: &str) -> (label: String)
    ensures
        label@ == label_words(verb) + node@,
{
    let words = match verb {
        PrefabVerb::Unpack => chars_of("Unpack "),
        PrefabVerb::RevertOverrides => chars_of("Revert overrides on "),
        PrefabVerb::ApplyOverrides => chars_of("Apply overrides from "),
    };
    let n = chars_of(node);
    string_of(&concat(&words, &n))
}

/// The undo label of the instance's half of `apply-overrides`.
pub fn applied_label(node: &str) -> (label: String)
    ensures
        label@ == "Applied overrides on "@ + node@,
{
    let words = chars_of("Applied overrides on ");
    let n = chars_of(node);
    string_of(&concat(&words, &n))
}

/// The undo label of splicing an array field: `Splice <node> <field>`.
pub fn splice_label(node: &str, field: &str) -> (label: String)
    ensures
        label@ == "Splice "@ + node@ + " "@ + field@,
{
    let words = chars_of("Splice ");
    let space = chars_of(" ");
    let n = chars_of(node);
    let f = chars_of(field);
    string_of(&concat(&concat(&concat(&words, &n), &space), &f))
}

/// What reverting `field` on `node` undoes: its label and the override keys
/// it drops. An empty `field` reverts all of the node's overrides.
pub open spec fn revert_of(node: Seq<char>, field: Seq<char>) -> (Seq<char>, Seq<Seq<char>>) {
    if field.len() == 0 {
        ("Revert "@ + node + " "@ + "all overrides"@, seq![])
    } else {
        ("Revert "@ + node + " "@ + field, seq![field])
    }
}

/// The undo label of reverting `field` on `node`, and the keys to revert:
/// none named, meaning all, when `field` is empty.
pub fn revert_request(node: &str, field: &str) -> (request: (String, Vec<String>))
    ensures
        request.0@ == revert_of(node@, field@).0,
        request.1@.len() == revert_of(node@, field@).1.len(),
        forall|k: int| 0 <= k < request.1@.len() ==> #[trigger] request.1@[k]@ == revert_of(node@, field@).1[k],
{
    let words = chars_of("Revert ");
    let space = chars_of(" ");
    let n = chars_of(node);
    let f = chars_of(field);
    let head = concat(&concat(&words, &n), &space);
    let mut keys: Vec<String> = Vec::new();
    if f.len() == 0 {
        let all = chars_of("all overrides");
        (string_of(&concat(&head, &all)), keys)
    } else {
        keys.push(string_of(&f));
        (string_of(&concat(&head, &f)), keys)
    }
}

} // verus!
