# sec_net_engine

A network-flow security engine built around a verified core.

`src/` is the library, verified with Verus:

- `graph` — undirected adjacency-list graph, breadth-first hop distances and
  the integer Laplacian, with laws on symmetry and row sums;
- `topology` — entity interning and the entity graph of observed flows;
- `regularizer` — infrastructure-similarity bases, virtual-edge candidates,
  decay and the λ₂ history window of the dynamic Laplacian regulariser;
- `flow` — flow rows: graph edges, timestamps, categorical features and
  MITRE ATT&CK classification;
- `blast` — the breadth-first blast-radius search as a state machine, with
  the law that a finished search has visited exactly what lies within reach;
- `detection`, `spectrum`, `text`, `error` — detection counts, embedding
  shape checks, character-level parsing and shared errors.

`app/` is the program around it: floating-point numerics (Jacobi
eigendecomposition, power iteration, the burn autoencoder, HNSW search),
Qdrant I/O, reporting and `main`.
