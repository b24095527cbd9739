# rga_core

A collaborative text-editing engine built on the Replicated Growable Array
(RGA) CRDT, written in Verus: the data structures and algorithms carry
`requires`/`ensures` contracts over mathematical models, and the properties
that make replicas converge are stated and proved as lemmas.

## Layout

- `src/` — the verified library.
  - `id`, `op`, `node`, `rga` — the tree-shaped RGA: operation ids and their
    total order, operations, nodes, and the document tree with insert, delete,
    traversal, the tree export and tombstone compaction.
  - `model`, `traversal`, `compaction` — the mathematical model of the tree
    (nodes, sibling order, depth-first order, text) and its lemmas: the
    document order lists every node once, and the tree export's `next` links
    and visible indices walk it; removing tombstones keeps the text.
  - `editing`, `insertion` — what edits do to the text: an insert puts its
    character at exactly one position, a local edit at the position it names.
  - `replica`, `replay`, `laws` — a replica with its applied-id set and
    operation log; replaying the log rebuilds the document; the replica-level
    laws (hydration, convergence of concurrent operations, duplicates).
  - `convergence`, `same_ops` — two concurrent operations give the same
    document in either order; replicas whose logs hold the same operations,
    in any order, hold the same document.
  - `lww` — a last-writer-wins register and its join laws.
  - `session` — the server's shared document: clients, cursor positions,
    accepted operations, garbage collection; each method returns what to
    broadcast and to whom.
  - `s4vector`, `crdt` — quadruple vectors and the linked-list RGA of Roh et
    al.: local and remote operations, hydration and tombstone collection;
    `crdt::convergence` proves that independent operations commute,
    `crdt::editing` what local edits and collection do to the text,
    `crdt::hydration` that hydration operations rebuild a document;
    `crdt::sync` is the server that keeps one replica per client,
    `crdt::relay` the server that only relays, and `crdt::flush` a relay
    peer's timer that sends its queued operations as one batch.
- `tests/` — tests of the library, run against the compiled crate.
- `app/` — the WebSocket server (axum), the relay server (tokio-tungstenite),
  the sync server's channels, the JSON wire types (serde) and the WebAssembly
  wrapper; none of it is verified.
