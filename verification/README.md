# grand_pattern

A cellular graph of rooms that perceive, predict and gossip.

- `src/` — the verified library (Verus): the room graph (`graph`), the
  id-tagged vector store (`vector_db`), the merge grouping and merged-store
  rebuild of garbage collection (`gc`), the routing of a gossip round
  (`gossip`), and the integer generator that seeds predictor weights (`seed`).
  Each public function states its result exactly; the laws of the graph,
  gossip and merging are public proof functions.
- `app/` — the demo program and everything built on floating-point
  arithmetic (embeddings, ledger amounts, the predictor, the vibe, rooms and
  the engine), which calls the verified library for all discrete decisions.
- `tests/` — executable tests of the library.
