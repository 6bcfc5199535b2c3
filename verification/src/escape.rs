//! What one press of Escape means, and whether a front end is put up.
use vstd::prelude::*;

verus! {

/// What one press of Escape means right now.
#[derive(Debug, Clone, Copy, PartialEq, Eq, Structural)]
pub enum Escape {
    /// Take the menu down and give the game back the pointer.
    Resume,
    /// Freeze the game and put the menu up.
    Pause,
    /// Close the window.
    Close,
}

/// The meaning of Escape: an open menu is closed first; a game that is being
/// driven is paused; anything else closes the window.
pub open spec fn escape_meaning(menu_open: bool, playing: bool, captured: bool) -> Escape {
    if menu_open {
        Escape::Resume
    } else if playing && captured {
        Escape::Pause
    } else {
        Escape::Close
    }
}

/// Decide what Escape does.
pub fn escape_means(menu_open: bool, playing: bool, captured: bool) -> (e: Escape)
    ensures
        e == escape_meaning(menu_open, playing, captured),
{
    if menu_open {
        Escape::Resume
    } else if playing && captured {
        Escape::Pause
    } else {
        Escape::Close
    }
}

/// Whether a run puts a front end up: only in front of a game started with
/// `--play`, and never over the editor.
pub fn front_end_wanted(autoplay: bool, editing: bool) -> (wanted: bool)
    ensures
        wanted == (autoplay && !editing),
{
    autoplay && !editing
}

/// Escape never closes the window from inside a game being driven: the first
/// press pauses it, and the press after that, with the menu up, resumes it.
pub proof fn law_escape_never_closes_a_driven_game(menu_open: bool, playing: bool, captured: bool)
    requires
        playing && captured,
    ensures
        escape_meaning(menu_open, playing, captured) != Escape::Close,
        escape_meaning(menu_open, playing, captured) == Escape::Pause ==> escape_meaning(
            true,
            playing,
            captured,
        ) == Escape::Resume,
{
}

/// With the menu up, Escape always takes it down, whatever else is true.
pub proof fn law_an_open_menu_always_resumes(playing: bool, captured: bool)
    ensures
        escape_meaning(true, playing, captured) == Escape::Resume,
{
}

} // verus!
