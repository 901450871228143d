# linearscan

A linear scan register allocator, verified with Verus.

A user describes a function as a control flow graph (`Graph`, built with
`BlockBuilder`) whose instructions have a kind of the user's own (`KindHelper`
says how each kind uses its operands). `Allocator::allocate` then

1. flattens the graph: orders the blocks, numbers the loops and renumbers the
   instructions as positions with gaps around them (`flatten.rs`);
2. computes the live sets of the blocks (`liveness.rs`);
3. builds a live interval for each value, splitting it between fixed
   register uses (`ranges.rs`, `split.rs`);
4. walks the intervals of each register group in start order, giving each a
   free register, taking one from other intervals, or a stack slot
   (`allocator.rs`);
5. adds the moves between blocks and resolves the parallel moves of each gap
   into moves and swaps (`allocator.rs`, `gap.rs`);
6. checks that every interval's location serves its uses.

`Generator::generate` hands the allocated program to a code generator
(`generator.rs`); `DCE::eliminate_dead_code` removes instructions whose
values nothing with side effects needs (`dce.rs`).

Layout:

- `src/` the verified library;
- `tests/` its tests, among them an emulator that runs generated code;
- `app/` the command line front end and a JSON export of a graph.

Among the properties proved:

- a successful `allocate` leaves every interval with ranges in a location of
  the group of each of its uses, in a register where a use asks for one, in
  the fixed register where a use names it; the registers it gives out lie in
  their groups, and the stack slots of each group are exactly those below
  the count it reports for the group;
- flattening keeps the program: each block it lays out, the root first,
  holds the instructions of a block of the graph (renumbered, inputs along)
  between gaps, with its edges renumbered along;
- live sets are the least fixpoint of the liveness equations, and the
  iteration that computes them always comes to an end;
- the moves between blocks join, along every edge, the parts of each value
  live into the target that differ at the two ends;
- a split keeps the ranges and uses before the split position in the part
  that covered it (at a call, the uses at the call too), records the move
  into the new part at a call or away from a block boundary, and places the
  new part among the family's children;
- the sequence of moves and swaps that resolves a gap, run in order, has the
  effect of its moves run at once, whenever no two moves share a target and
  no other move reads a location of a cycle of moves;
- dead code elimination keeps in the blocks exactly the instructions that a
  set of seed instructions needs through their inputs; the seeds are user
  instructions (those whose kind reports side effects, which the library
  takes from the user's implementation without proof), and the instruction
  table itself is left as it is;
- a successful `allocate` leaves no two intervals holding one register at a
  common position (the last step of allocation checks this, and the
  contract is proved from that check).
