//! The decisions of the `loom` command-line front end that do not need a
//! window, a GPU or a physics world: what a key press means, what a room code
//! is, how a scene file is rewritten and how two versions of a scene differ.

pub mod escape;
pub mod text;
pub mod room_code;
pub mod scene_file;
pub mod changes;
pub mod input_latch;
pub mod prefab_overrides;
pub mod blast_schedule;
pub mod naming;
pub mod selection;
pub mod disk_watch;
pub mod prefab_cmd;
pub mod launch;
pub mod hierarchy;
