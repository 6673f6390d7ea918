# toolbox

A small verified toolbox in Rust and [Verus](https://github.com/verus-lang/verus):

* `egraph`: an e-graph with equality saturation: hash-consing, deferred
  congruence closure, e-matching, rewrite schedulers, class analyses,
  explanations, extraction under pluggable cost models and Mermaid output.
* `history_var`: a variable that remembers who set it, when and why, and can
  take changes back.
* `string`: escaping, symbol names, symbol-version hashes.
* `filesystem`: what can be said of paths, folder listings and file contents
  without touching a disk.

`src/` is the verified library, `tests/` runs it, and `app/` is the thin layer
that reads and writes files.

## Reading the contracts

The contracts of the e-graph speak of its `model()`: the canonical id of every
id, the e-nodes of every class, the parent lists and the hashcons table. Public
proof functions whose names start with `law_` state what holds across several
calls. Among them:

* Between two calls of the analysis, a rebuild makes equal exactly what
  congruence forces. Where the analysis leaves the graph alone, that is the
  whole of a rebuild.
* An explanation exists exactly for equal ids, and shows the children that a
  congruence step rests on.
* Equality saturation is sound under every reading that makes the rules hold and
  that the analysis respects.
* A rule that the scheduler disables does nothing in that iteration.
* A second run on a saturated graph changes nothing.

What a rebuild does pass by pass is said by `passes_done`, and what a run does
iteration by iteration by `driven` and the relations around it.
