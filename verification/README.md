# whorl

A static analyzer for lock-ordering deadlocks, verified with Verus.

Whorl reads a program in a small language of locks, functions and callbacks, or
a document of lock-acquisition events, and reports either a valid global lock
order or a witnessed cycle. The contracts of the library state what its functions
return, and the guarantee behind a `[SAFE]` verdict is a theorem about the
programs themselves.

## Layout

- `parser`, `ast`, `grammar`, `writing`: the language. `grammar` proves that a
  syntax tree accounts for every token it was parsed from, `writing` that a tree
  written out in the grammar is read back.
- `tables`, `flow`, `frontend`: declarations, callback flow and the held-set
  analysis, which lower a program to events.
- `json`, `inherit`, `events`: documents of events, with held-sets inherited over
  calls and callbacks. `print` writes documents; what it writes reads back.
- `graph`, `solver`, `report`: the ordering graph, the verdict, and the texts
  shown for it.
- `lint`: lock classes, guard liveness and events from function bodies of real
  Rust, given as plain data.
- `corpus`: small labeled programs, run on locks that record how they are taken.
- `text`, `ordset`, `namemap`, `unicode`, `model`: what the rest is built on.

## What is proved

- `havender`: a program gets an order if and only if its ordering graph has no
  cycle; the order respects every edge, every edge of a reported cycle is
  witnessed by an event, and threads that respect the order never wait in a
  circle.
- `semantics`, `soundness`, `source`: if a source file is found safe, then
  however its tasks and interrupt handlers run, no set of them ever waits in a
  circle.
- `exactness`: the summarized held-sets give exactly the edges that all exact
  held-sets give.
- `growth`: adding a declaration only adds ordering edges.
- `definitive`: the number of analyses is bounded by the size of the program, so
  programs within that bound always get a conclusive verdict.
- `events`, `inherit`: a callee sees what its callers hold, and a document is
  called complete only if every callback under a lock was resolved.
- `lint`: a guard is live where some path keeps it alive; a lock reached through
  an accessor, a `deref` of the crate or a box gets the class of the direct route,
  a shared pointer one class for its type, and a route that is not seen through is
  reported; type arguments do not split a class.

`app/main.rs` is the command-line driver; `app/whorl_lint.rs` is the compiler
plugin that hands function bodies to `lint`.
