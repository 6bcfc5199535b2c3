# loom_cli

The decisions of the `loom` command-line front end that need no window, GPU
or physics world, written in Verus with their contracts proved:

- `room_code` — room codes: Crockford base32, grouped, screened against a
  deny list, and read back from what somebody typed or said.
- `scene_file` — rewriting a scene file's `[scene] id` without disturbing the
  rest of the text, the id a path gives a copy, and the file name of a copy.
- `changes` — what changed between two versions of a scene.
- `escape`, `launch` — what Escape means, and how a window starts.
- `input_latch`, `blast_schedule` — presses handed from frames to ticks, and
  authored blasts going off in order.
- `naming`, `selection`, `hierarchy` — the editor's names, paths, selection,
  delete order and ancestor walks.
- `prefab_cmd`, `prefab_overrides` — `loom prefab`: which operation, which
  overrides and where they are written.
- `disk_watch` — when the editor follows the file on disk and when it holds a
  new version back as a conflict.

`app/` moves values between the library and the outside world: files, the
command line, the clock and the engine crates.
