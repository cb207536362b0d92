# rapx (SCC utilities)

A Verus-verified library of strongly-connected-component utilities over plain successor
graphs, with the attribute and contract-table helpers of the `#[rapx::verify]` scan.

- `src/graphs/reach.rs` — the graph model: edges, paths, reachability, and what an SCC
  decomposition of a whole graph, or of the part of it that a node reaches, is.
- `src/graphs/search.rs` — the state of Tarjan's search and the facts one visit establishes.
- `src/graphs/scc.rs` — the `SccClient`/`Scc` traits (Tarjan's search), the SCC data types,
  and `analyze_scc_regions`.
- `src/graphs/scc_paths.rs` — `collect_scc_components` and `build_scc_tree`.
- `src/graphs/laws.rs` — what a region summary guarantees about the graph.
- `src/graphs/fx.rs` — the Fx hash-set and hash-map operations the code relies on.
- `src/analysis/verify/scan.rs` — `#[rapx::verify]` attribute matching, standard-crate
  names, and trailing-comma normalization of JSON text.
- `app/` — the rustc-facing HIR walk that feeds those helpers.
