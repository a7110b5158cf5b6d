# silver_oxide

The core of a symbolic verifier for programs with permissions, written and verified in
Verus. Terms live in an e-graph; rules add what follows from them; heaps hold shares of
locations; members of a program are run instruction by instruction. What they assert is
true on the path on which they assert it, in every model of what was known there that gives
values to the terms that the rules build; what they give up was shown to be held there.

## Layout

- `src/nums.rs`, `text.rs`, `interner.rs`, `classes.rs`: numbers, texts, names and the
  e-graph, with what the outside crates do stated beside each call.
- `src/lang.rs`, `model.rs`, `graph.rs`, `terms.rs`: terms, the models that give them
  values, and the graph that holds them.
- `src/rewrite/`, `prove.rs`, `context.rs`: the rules, running them, and proving goals
  under path conditions. Every rule is proved sound over all models.
- `src/quant.rs`, `recipes.rs`, `meta.rs`, `mono.rs`, `prelude.rs`, `types.rs`: what a
  program declares, prepared for the rules.
- `src/heap/`: heaps whose chunks are grouped by kind of location, with shares that
  depend on conditions.
- `src/method/`, `check.rs`, `verify.rs`: flat heaps, what a program must be like to be
  verified, and verifying methods and resources.
- `src/symex/`: states, stores and terms of plain symbolic execution.
- `src/stats.rs`, `viz.rs`: counts and pictures of a run.
- `app/`: the environment, the clock, and writing pictures to files.
