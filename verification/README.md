# miniegg_with_slots

The language layer of a small e-graph with slots, verified with Verus.

- `src/slot.rs`: e-class ids, slots, and the counter that hands out fresh slots.
- `src/slotset.rs`: finite sets of slots, kept sorted.
- `src/slotmap.rs`: slot maps (slot renamings) kept sorted by key: lookup, insertion,
  composition, inversion, bijectivity.
- `src/lang.rs`: applied ids, the `Language` trait (slot and applied-id occurrences, slot
  renaming, shapes), and the e-nodes of the lambda calculus.
- `src/laws.rs`: laws of the library: what a write of slot or applied-id occurrences
  reads back, how public and all occurrences relate, what a shape and its map give back
  (without capturing a free slot), shapes of shapes and of renamed nodes, renamings that
  keep slot maps bijections or undo each other, `firsts` of a concatenation, and fresh
  slots that strictly increase.
- `src/rise.rs`: the RISE language: patterns, substitutions, rewrite conditions, the
  rewrite rules of a RISE rewriting step, and two example expressions.
- `app/main.rs`: a small program, and the per-thread source of fresh slots.
