# lau-spectral-graph-agent

Spectral graph analysis for agent networks, in two layers.

`src/` is the verified core, written in Verus and generic over the edge
weight type. It holds the graph itself (adjacency lists, the named families
complete / path / cycle / star, induced subgraphs, upper-edge lists, the
adjacency matrix), reachability by depth-first search, the spanner pass (the
caller decides the stretch test on path lengths; the pass only uses that
report), the sampling and connectivity passes of spectral sparsification, the
enumeration of Cheeger cut candidates and their edge boundaries, the
bookkeeping of spectral partitioning (trivial partitions, clusters from
k-means labels, community labels, random initial centroids) and the cut
queries of agent networks.

Every function carries a contract over a mathematical model (sequences of
adjacency lists, walks, components), and the laws of the structure are proved
there: edges are stored at both endpoints and every operation keeps that; the
spanner keeps only edges of the graph, never leaves out an edge whose ends it
does not already connect, and so connects everything the graph connects; the
sparsified graph keeps only edges of the graph, at most as many, and connects
exactly what the graph connects; induced subgraphs keep exactly
the edges among the chosen vertices; an edge boundary carries the same
weights seen from either side; every cut side is reached by the mask
enumeration; and clusterings agree with their community labels.

`graph.rs` holds the graph and its contracts, `reach.rs` walks and
components, `counting.rs` entry counts, `cut.rs` cut symmetry; the other
modules follow the analysers they serve.

`app/` is ordinary Rust on `f64` weights: matrices and eigensolvers,
Laplacians, spectra, shortest-path lengths for the spanner's stretch test,
k-means distances, Cheeger constants, effective resistance, sampling,
PageRank, heat-kernel wavelets, agent diagnostics, and serialisable copies of
the data types.

`tests/` runs the verified core on concrete graphs.
