# spectral-fleet

Structural analysis of agent fleets, verified with Verus. A fleet is a graph:
agents are nodes, communication channels are edges. A channel is *live* when
its bandwidth is strictly positive; live channels are treated as undirected.

## Layout

- `src/` — the verified library.
  - `lib.rs`: `Graph`, a weighted undirected graph kept as adjacency lists.
  - `paths.rs`: walks, reachability and hop distances over link matrices,
    with breadth-first search.
  - `fleet_graph.rs`: agents, channels and `FleetGraph`; connectivity,
    connected components (in depth-first order) and neighbors.
  - `generators.rs`: complete, path, cycle, star, barbell, two-clique and
    seeded random fleets, and fleets built from repository dependencies.
  - `bottleneck.rs`: cut agents, bridge channels and bypass candidates.
  - `reorganization.rs`: hop distances, diameter, path-length totals and
    candidate channels to add or remove.
  - `clustering.rs`, `embedding.rs`: grouping agents by cluster id, cluster
    boundaries, and drawing an embedding on a character canvas.
  - `dynamics.rs`: agents joining and leaving, channels added and removed,
    and the events and connectivity changes they produce.
  - `shapes.rs`: proved facts about the generated shapes (connectivity,
    bridges, cut agents, diameters).
- `app/` — the floating-point side (Laplacians, eigenvalues, spectral
  clustering and embeddings, centralities, snapshots over time) and the serde
  copies of the fleet types, built on the library.
- `tests/` — tests of the library.

Real-valued quantities (load, bandwidth, latency) are carried in the library
as the bit patterns of their `f64` values.
