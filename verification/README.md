# genesis

Verified core of the GÉNESIS cognitive architecture, written in Verus.

## Layout

- `src/` — the verified library.
  - `signal`, `error`, `constants`, `phase_semantics`: identifier types,
    the error taxonomy, consolidation signals, semantic clusters.
  - `proof_carrying`, `meta_consistency`: proof certificates (BLAKE3 digest
    plus a replayable witness), their verification, and the historical layer
    (causal DAG check, conflict rules).
  - `rips`, `cohomology`, `gf2`, `cycle_space`: the Vietoris–Rips complex,
    the Z₂ boundary matrices, Gaussian elimination, and the proofs that the
    Z₂ rank is well defined, that the union-find short-circuit of the H¹
    check agrees with the full computation, and that the incidence matrix of
    a graph has rank nodes − components.
  - `incremental_cohomology`: union-find for rank ∂₁, an echelon basis for
    rank ∂₂, and the incremental H¹ state, with the proof that the dimension
    it reports is the one the Z₂ ranks give.
  - `lsh`, `topological_intuition`, `hnsw`, `fisher_edge`, `sort`: bucket
    index with k-way candidate merge, seed selection and node-list helpers,
    identifier compaction with an LSD radix sort, the per-edge Fisher metric,
    and a generic merge sort.
  - `adjacency`, `hnsw_graph`: the structure of the HNSW graph — per-node
    sorted neighbour lists with slab-block summaries, node slots, the
    identifier index (online and compacted), edge counting, node removal,
    pruning by distance keys and the entry point. Vectors, distances and the
    distance-driven search are not part of it.
  - `buffers`: the trusted interface to `smallvec`, `arrayvec` and `blake3`.
- `app/` — unverified boundary code: error messages through `thiserror`,
  floating-point LSH projections, and the distance test that picks the
  accepted Rips edges among the candidates the library finds.
- `tests/` — executable tests of the library.

Floating-point payloads are carried as IEEE-754 bit patterns inside the
library.
