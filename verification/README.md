# dag_demo

A directed acyclic graph of named nodes, and a DAG-based ledger ordered by
the GHOSTDAG rule, written in Verus: every function carries a contract that
the verifier proves.

## Layout

- `src/lib.rs`: `Node` and `Dag`. Adding an edge is refused exactly when
  it would close a cycle, so every `Dag` is acyclic (`lemma_dag_is_acyclic`),
  and `topological_sort` always succeeds with an order in which every edge
  points forward.
- `src/graph.rs`: adjacency lists, walks and reachability, the
  breadth-first search behind path queries, and counting lemmas.
- `src/text.rs`: building messages, decimal numerals, and the order on
  strings that breaks GHOSTDAG ties.
- `src/ghostdag.rs`: the GHOSTDAG run stated over the shape of a block DAG:
  which block is taken next, its colour, and why the run is unique.
- `src/blockchain.rs`: `Block`, `Transaction`, `Account` and `BlockDAG`,
  with the executable GHOSTDAG ordering proved to produce that run.
- `src/ledger.rs`: what executing and reverting transactions does to the
  accounts, and the laws that relate them (failed transactions change
  nothing, executing then reverting restores the accounts, the total balance
  is kept).

## Checking

`tests/` holds ordinary Rust tests of the compiled library.
