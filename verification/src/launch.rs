//! What a window starts in: the frame budget, whether a title screen or
//! autoplay opens the game, the gizmo tool and the node selected on open.
use vstd::prelude::*;
use crate::escape::front_end_wanted;
use crate::naming::{same_chars, strings_view};
use crate::text::chars_of;

verus! {

/// The gizmo tool the editor is in.
#[derive(Debug, Clone, Copy, PartialEq, Eq, Structural)]
pub enum Tool {
    Move,
    Rotate,
    Scale,
}

/// `c` in lower case, when it is an ASCII capital.
pub open spec fn ascii_lower(c: char) -> char {
    if 'A' <= c && c <= 'Z' {
        ((c as u32) + 32) as char
    } else {
        c
    }
}

/// `s` with its ASCII capitals lowered.
pub open spec fn lowered(s: Seq<char>) -> Seq<char> {
    s.map_values(|c: char| ascii_lower(c))
}

/// The tool a `--mode` word asks for, case aside: Rotate, Scale, and Move for
/// anything else.
pub open spec fn tool_for(word: Seq<char>) -> Tool {
    if lowered(word) == "rotate"@ {
        Tool::Rotate
    } else if lowered(word) == "scale"@ {
        Tool::Scale
    } else {
        Tool::Move
    }
}

fn ascii_lower_of(c: char) -> (l: char)
    ensures
        l == ascii_lower(c),
{
    if 'A' <= c && c <= 'Z' {
        let b: u8 = (c as u32 + 32) as u8;
        b as char
    } else {
        c
    }
}

/// The tool a `--mode` word asks for.
pub fn tool_named(word: &str) -> (tool: Tool)
    ensures
        tool == tool_for(word@),
{
    let w = chars_of(word);
    let mut low: Vec<char> = Vec::new();
    let mut k: usize = 0;
    while k < w.len()
        invariant
            w@ == word@,
            k <= w@.len(),
            low@ == lowered(w@.take(k as int)),
        decreases w@.len() - k,
    {
        low.push(ascii_lower_of(w[k]));
        k = k + 1;
        assert(low@ =~= lowered(w@.take(k as int)));
    }
    assert(w@.take(w@.len() as int) =~= w@);
    let rotate = chars_of("rotate");
    let scale = chars_of("scale");
    if same_chars(&low, &rotate) {
        Tool::Rotate
    } else if same_chars(&low, &scale) {
        Tool::Scale
    } else {
        Tool::Move
    }
}

/// How a window starts.
#[derive(Debug, Clone, Copy, PartialEq, Eq, Structural)]
pub struct Launch {
    /// Frames to draw before closing, when bounded.
    pub frames_left: Option<u32>,
    /// Whether the title screen opens in front of the game.
    pub front: bool,
    /// Whether the game starts by itself.
    pub autoplay: bool,
}

/// How a window starts, from `--frames`, `--play`, whether a script drives
/// the game, whether the scene is open for editing, and whether it has a
/// title camera.
pub open spec fn launch_for(frames: Option<u32>, autoplay: bool, scripted: bool, editing: bool, title_camera: bool) -> Launch {
    let front = autoplay && !scripted && !editing && title_camera;
    Launch {
        frames_left: match frames {
            Some(n) => if n > 0 { Some(n) } else { None },
            None => None,
        },
        front,
        autoplay: autoplay && !front,
    }
}

/// How a window starts. A zero frame budget is no budget. The title screen
/// needs `--play`, no script driving the game (a script cannot click Start),
/// no editor behind it and a title camera to look through; when it is up it
/// takes autoplay's place, and the game starts when the human asks.
pub fn launch(frames: Option<u32>, autoplay: bool, scripted: bool, editing: bool, title_camera: bool) -> (l: Launch)
    ensures
        l == launch_for(frames, autoplay, scripted, editing, title_camera),
{
    let frames_left = match frames {
        Some(n) => if n > 0 {
            Some(n)
        } else {
            None
        },
        None => None,
    };
    let front = front_end_wanted(autoplay && !scripted, editing) && title_camera;
    Launch { frames_left, front, autoplay: autoplay && !front }
}

/// The title screen and autoplay are never both armed, and neither is armed
/// without `--play`; the title screen never opens over the editor or under a
/// script.
pub proof fn law_one_way_into_the_game(
    frames: Option<u32>,
    autoplay: bool,
    scripted: bool,
    editing: bool,
    title_camera: bool,
)
    ensures
        !(launch_for(frames, autoplay, scripted, editing, title_camera).front && launch_for(
            frames,
            autoplay,
            scripted,
            editing,
            title_camera,
        ).autoplay),
        (launch_for(frames, autoplay, scripted, editing, title_camera).front || launch_for(
            frames,
            autoplay,
            scripted,
            editing,
            title_camera,
        ).autoplay) == autoplay,
        (editing || scripted) ==> !launch_for(frames, autoplay, scripted, editing, title_camera).front,
{
}

/// The selection a window opens with: the asked-for node when the scene has
/// it, and otherwise the scene's first node (nothing in an empty scene).
pub open spec fn opening_selection_of(wanted: Option<Seq<char>>, paths: Seq<Seq<char>>) -> Seq<Seq<char>> {
    if wanted is Some && paths.contains(wanted->0) {
        seq![wanted->0]
    } else if paths.len() > 0 {
        seq![paths[0]]
    } else {
        seq![]
    }
}

/// The node first in `paths`, alone, or nothing when there is none.
fn first_node(paths: &Vec<String>) -> (selected: Vec<String>)
    ensures
        strings_view(selected@) == (if paths@.len() > 0 {
            seq![paths@[0]@]
        } else {
            Seq::<Seq<char>>::empty()
        }),
{
    let mut selected: Vec<String> = Vec::new();
    if paths.len() > 0 {
        selected.push(paths[0].clone());
        assert(strings_view(selected@) =~= seq![paths@[0]@]);
    } else {
        assert(strings_view(selected@) =~= Seq::<Seq<char>>::empty());
    }
    selected
}

/// The selection a window opens with.
pub fn opening_selection(wanted: &Option<String>, paths: &Vec<String>) -> (selected: Vec<String>)
    ensures
        strings_view(selected@) == opening_selection_of(
            match wanted {
                Some(w) => Some(w@),
                None => None,
            },
            strings_view(paths@),
        ),
{
    let ghost pv = strings_view(paths@);
    let w = match wanted {
        Some(w) => w,
        None => {
            return first_node(paths);
        },
    };
    let wc = chars_of(w.as_str());
    let mut i: usize = 0;
    while i < paths.len()
        invariant
            pv == strings_view(paths@),
            wc@ == w@,
            *wanted == Some(*w),
            i <= paths@.len(),
            forall|j: int| 0 <= j < i ==> pv[j] != w@,
        decreases paths@.len() - i,
    {
        let p = chars_of(paths[i].as_str());
        assert(p@ == pv[i as int]);
        if same_chars(&p, &wc) {
            assert(pv.contains(w@));
            let mut selected: Vec<String> = Vec::new();
            selected.push(w.clone());
            assert(strings_view(selected@) =~= seq![w@]);
            return selected;
        }
        i = i + 1;
    }
    assert(!pv.contains(w@));
    first_node(paths)
}

} // verus!
