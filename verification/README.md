# given

An equivalence graph (e-graph) of terms, verified with Verus.

Expressions (`Expr`: an operator code applied to sub-expressions) are lowered
into a hash-consed arena of `Term`s, one `HirId` per distinct term. A
union-find over the Ids keeps the classes of equivalent terms; the
representative of a class is always its smallest Id. `union` merges two
classes: the surviving class takes over the nodes and parents of the absorbed
one, and those parents are queued. `update` revisits the queued parents,
merging each with the class that already holds its canonical form, or
recording that form in the table under the parent. Once `update` returns,
congruence holds (terms with the same operator and equivalent children are
equivalent), and inserting or lowering a term whose canonical form is stored
answers the representative of the stored term without adding an Id. The
classes after `update` are exactly those of the congruence closure of the
classes before it.

Layout:

- `src/ty.rs`: `Term`, `Expr`, their mathematical value, and the `Type` trait.
- `src/model.rs`: the mathematical model of a graph (`GraphModel`) and of every
  operation on it; the contracts of `src/eq_graph.rs` are stated over it.
- `src/eq_graph.rs`: `HirId`, `HirClass`, `Graph` and their proofs, with the
  laws of the graph as `law_*` proof functions.
- `src/tables.rs`: the `rustc_hash` tables of a graph, behind trusted wrappers.
- `app/lib.rs`: text rendering of a graph.
- `tests/`: scenarios, one per law and per operation.
