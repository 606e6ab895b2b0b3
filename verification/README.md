# qem_simplifier

A mesh simplifier based on quadric error metrics, with a scene-graph API, a C ABI
and a command line tool. The integer and combinatorial core is written in Verus and
proved against its contracts; the floating-point geometry, the file formats' readers
and the program around it are ordinary Rust.

## Layout

- `src/` — the verified library
  - `hash.rs` — the chained hash table of the simplifier (`FHashTable`) and its hashes
  - `util/binary_heap.rs` — the indexed binary heap of edge costs: adding an item and
    lowering a key keep it ordered; the downward sift of `pop`, `update` and `remove`
    compares the right child with the entry already chosen, so those promise no order
  - `util/disjoint_set.rs` — union–find
  - `util/order.rs` — stable index sorting and order-preserving keys for float bit patterns
  - `simplifier.rs` — the topology bookkeeping of the simplifier (vertex references,
    duplicate triangles, corner cycling, the triangles and wedges around a collapse, compaction)
  - `scene.rs` — integer triangle budgets, the execution plan of a scene graph and
    its statistics
  - `scene_tree.rs` — node hierarchy, mesh bindings and the tree preview
  - `glb.rs` — the binary glTF container and buffer layout
  - `cli.rs` — input validation, triangulation of polygon faces, diagnostics and the
    progress-bar state machine of the command line tool
  - `lib.rs` — ABI version, status codes and the two-phase output-buffer protocol
- `tests/` — tests of the library
- `app/` — the command line tool, the C ABI, the float geometry (quadrics, solvers,
  edge-collapse evaluation) and the format readers, built on the library
