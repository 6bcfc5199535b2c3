//! The editor and the scene file on disk: when a write by somebody else is
//! followed, and when it is held back because there are unsaved edits.
//!
//! Two divergent versions are never merged and neither is dropped: while the
//! editor holds unsaved edits, a new version on disk is kept aside as a
//! conflict until the human takes it or keeps their own.
use vstd::prelude::*;

verus! {

/// What the editor knows of its scene against the file.
#[derive(Debug)]
pub struct DiskWatch {
    /// Whether the scene is open for editing (read-only otherwise).
    pub editable: bool,
    /// Whether there are edits that have not been saved.
    pub dirty: bool,
    /// A version on disk that arrived over unsaved edits, held for the human.
    pub conflict: Option<String>,
}

/// What the editor does after looking at the file.
#[derive(Debug)]
pub enum DiskAction {
    /// The file is as last seen: nothing to do.
    Unchanged,
    /// A new version arrived over unsaved edits and is held as the conflict;
    /// `first` when no conflict was held before, which is when to warn.
    Conflict { first: bool },
    /// A new version arrived and nothing of ours is unsaved: record it as
    /// seen and show it.
    Reload,
}

/// The watch and the action after reading the file, `changed` when its
/// version differs from the one last seen.
pub open spec fn read_outcome(w: DiskWatch, changed: bool, disk: String) -> (DiskWatch, DiskAction) {
    if !changed {
        (w, DiskAction::Unchanged)
    } else if w.editable && w.dirty {
        (DiskWatch { conflict: Some(disk), ..w }, DiskAction::Conflict { first: w.conflict is None })
    } else {
        (DiskWatch { conflict: None, ..w }, DiskAction::Reload)
    }
}

/// The watch after the human takes the version on disk, and that version.
pub open spec fn accept_outcome(w: DiskWatch) -> (DiskWatch, Option<String>) {
    match w.conflict {
        Some(disk) => (DiskWatch { conflict: None, dirty: false, ..w }, Some(disk)),
        None => (w, None),
    }
}

/// The watch after the human keeps their own version, and the version on
/// disk that saving will now overwrite.
pub open spec fn keep_outcome(w: DiskWatch) -> (DiskWatch, Option<String>) {
    match w.conflict {
        Some(disk) => (DiskWatch { conflict: None, ..w }, Some(disk)),
        None => (w, None),
    }
}

impl DiskWatch {
    /// A scene just opened: nothing unsaved, nothing held.
    pub fn new(editable: bool) -> (w: DiskWatch)
        ensures
            w.editable == editable,
            !w.dirty,
            w.conflict is None,
    {
        DiskWatch { editable, dirty: false, conflict: None }
    }

    /// Read the file: follow a new version, or hold it back over unsaved
    /// edits.
    pub fn disk_read(&mut self, changed: bool, disk: String) -> (action: DiskAction)
        ensures
            (*final(self), action) == read_outcome(*old(self), changed, disk),
    {
        if !changed {
            return DiskAction::Unchanged;
        }
        if self.editable && self.dirty {
            let first = self.conflict.is_none();
            self.conflict = Some(disk);
            return DiskAction::Conflict { first };
        }
        self.conflict = None;
        DiskAction::Reload
    }

    /// Take the version on disk, discarding unsaved edits: the version to
    /// load, or `None` when there is no conflict to settle.
    pub fn accept_disk(&mut self) -> (disk: Option<String>)
        ensures
            (*final(self), disk) == accept_outcome(*old(self)),
    {
        match self.conflict.take() {
            Some(disk) => {
                self.dirty = false;
                Some(disk)
            },
            None => None,
        }
    }

    /// Keep our version: the version on disk that is now overwritten by the
    /// next save, or `None` when there is no conflict to settle.
    pub fn keep_mine(&mut self) -> (disk: Option<String>)
        ensures
            (*final(self), disk) == keep_outcome(*old(self)),
    {
        self.conflict.take()
    }

    /// An edit, an undo or a redo that changed the scene.
    pub fn edited(&mut self)
        ensures
            *final(self) == (DiskWatch { dirty: true, ..*old(self) }),
    {
        self.dirty = true;
    }

    /// A save went through: what is on disk is ours.
    pub fn saved(&mut self)
        ensures
            *final(self) == (DiskWatch { dirty: false, conflict: None, ..*old(self) }),
    {
        self.dirty = false;
        self.conflict = None;
    }

    /// A save was refused because the file changed under us: `current` is
    /// held as the conflict, and the edits stay unsaved.
    pub fn save_refused(&mut self, current: String)
        ensures
            *final(self) == (DiskWatch { conflict: Some(current), ..*old(self) }),
    {
        self.conflict = Some(current);
    }

    /// Whether another scene may be opened: not over unsaved edits.
    pub fn may_switch(&self) -> (ok: bool)
        ensures
            ok == !self.dirty,
    {
        !self.dirty
    }
}

/// Unsaved edits are never reloaded over: whatever is read from disk, the
/// edits stay, and a new version is held as the conflict rather than merged
/// or dropped.
pub proof fn law_unsaved_edits_are_never_reloaded_over(w: DiskWatch, changed: bool, disk: String)
    requires
        w.editable,
        w.dirty,
    ensures
        !(read_outcome(w, changed, disk).1 is Reload),
        read_outcome(w, changed, disk).0.dirty,
        changed ==> read_outcome(w, changed, disk).0.conflict == Some(disk),
        !changed ==> read_outcome(w, changed, disk).0 == w,
{
}

/// Either choice settles a conflict and hands back the version on disk;
/// taking it also discards the unsaved edits, keeping ours leaves them to be
/// saved.
pub proof fn law_a_conflict_is_settled_by_either_choice(w: DiskWatch)
    requires
        w.conflict is Some,
    ensures
        accept_outcome(w).0.conflict is None,
        !accept_outcome(w).0.dirty,
        accept_outcome(w).1 == w.conflict,
        keep_outcome(w).0.conflict is None,
        keep_outcome(w).0.dirty == w.dirty,
        keep_outcome(w).1 == w.conflict,
{
}

/// Without a conflict, neither choice changes anything.
pub proof fn law_no_conflict_nothing_to_settle(w: DiskWatch)
    requires
        w.conflict is None,
    ensures
        accept_outcome(w) == (w, None::<String>),
        keep_outcome(w) == (w, None::<String>),
{
}

/// After a save the editor follows the file again: the next new version on
/// disk is reloaded.
pub proof fn law_a_saved_scene_follows_the_file(w: DiskWatch, disk: String)
    ensures
        read_outcome(DiskWatch { dirty: false, conflict: None, ..w }, true, disk).1 is Reload,
{
}

} // verus!
