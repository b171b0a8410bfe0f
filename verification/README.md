# ui_core

A retained-mode UI tree with verified logic: nodes anchored inside their
parents, a queue of edits applied once per frame, tweens that feed that
queue, pointer interaction, and a draw-command list sorted for batching.

## Layout

- `src/` — the library, verified with Verus.
  - `arena.rs` — append-only slots keyed by `Id`; a removed id never names a
    node again.
  - `tree.rs` — the tree as a mathematical object: the forest invariant
    (`tree_wf`), the breadth-first walk (`traversal`) and its laws.
  - `context.rs` — `UiContext`: adding and removing nodes, the walk, layout,
    the edit queue, drawing, pointer input, resizing and the per-frame update.
  - `layout.rs`, `event.rs`, `draw.rs`, `input.rs`, `tween.rs` — the models
    that the contracts of those operations are written in, and the
    operations of their own types (`DrawCommandBuffer`, `TweenEngine`).
  - `laws.rs` — properties that span several operations.
- `app/` — plain Rust: all floating-point arithmetic (anchoring, unit
  resolution, easing, interpolation, alpha, hit testing) and `Ui`, a context
  driven with `f32` values.
- `tests/` — tests of the library.

## Numbers

Positions, sizes, ratios, opacity and time are carried by the library as
IEEE-754 binary32 bit patterns (`Scalar`).  The library never computes with
them: every such computation is a closure handed in by the caller, and each
contract says what the library does with the closure's answers.
