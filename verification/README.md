# cipollino

The core logic of the Cipollino 2D animation editor, written in Verus and
proved against its contracts.

- `src/` is the verified library: the selection and the clipboard, the
  recently opened projects, the dialog registry, the ordering of assets,
  timeline drags, the strokes and sounds of a graphic's layers, audio clip
  lookup, pick-buffer lookup, the steps of a video export, the new-project
  checks, and the bucket fill: the breadth-first flood over grid cells in
  `flood.rs`, and in `fill.rs` the removal of tails and inner corners and the
  Moore-neighbourhood tracing of the boundary, whose result is stated
  exactly as `fill_chains`.
- `tests/` runs the library on concrete values.
- `app/` is the command-line front: user preferences on disk, the folders of
  the user, the floating-point geometry of the bucket fill and the mixing of
  audio samples, and the dialog objects kept beside the verified registry.
