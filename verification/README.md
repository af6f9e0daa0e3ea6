# hskclustering

Tools for clustering the HSK vocabulary from word embeddings: similarity graphs
exported as GraphML, Leiden (CPM) community detection, Gaussian mixtures, and a
reproducible "graph v2" study that screens graph constructions against an archived
baseline.

## Layout

- `src/` is the verified library (Verus). It holds the integer and text logic the
  tools share, each function with a contract:
  - `partition`, `tally`, `agreement`, `ranking`: canonical community labels,
    groups, size summaries, contingency tables, rankings.
  - `csv_table`, `assignments`, `community`, `metadata`, `embedding_file`: CSV
    tables read from a file's bytes, the `token,community` file format, checked
    community lists, metadata files and their strata, and the header and row
    checks of embedding files.
  - `graph`, `components`, `neighbors`, `overlap`, `perturb`: graph structure,
    connectivity, neighbour symmetrization, edge-set overlap, subsamples and
    induced subgraphs.
  - `graphml_filter`, `graphml_document`: the streaming GraphML edge filter as a
    state machine that is handed one XML event at a time, and what it makes of a
    whole document.
  - `leiden`, `levels`: community bookkeeping of the Leiden solver and the
    aggregation of its levels.
  - `config`, `plans`, `selection`, `experiment`, `provenance`: configuration
    checks, seed plans, Pareto screening and the experiment runner's decisions.
  - `random`: the seeded xoshiro256++ generator and shuffle that the
    perturbations and null controls draw from, with the shuffled order named so
    that equal seeds provably give equal draws.
- `app/` is the command-line program around the library: file I/O, the
  floating-point numerics (similarities, PCA, mixtures, objective gains,
  metrics) and the outside crates (`graphrs`, `linfa`, `quick-xml`, `csv`, `clap`).
  The first argument names the tool: `build_graph`, `filter_graph`,
  `observe_graph`, `leiden_community`, `gmm_cluster`, `compare_clusters`,
  `graph_v2`.
- `tests/` runs the library on concrete values.
