//! Spectral graph analysis for agent networks: the combinatorial core.
//!
//! The graph topology, its named families, induced subgraphs, reachability,
//! the spanner pass (its stretch test on path lengths is made by the caller),
//! the sampling and reconnecting passes of sparsification, cut boundaries and
//! the bookkeeping of spectral partitioning are verified here, generically
//! over the weight type.
pub mod matrix;
pub mod graph;
pub mod reach;
pub mod counting;
pub mod partitioner;
pub mod cheeger;
pub mod cut;
pub mod wavelets;
pub mod agent_network;
pub mod pagerank;
pub mod sparsifier;

pub use matrix::DenseMatrix;
pub use graph::Graph;
pub use partitioner::SpectralPartitioner;
pub use cheeger::CheegerInvariant;
pub use wavelets::GraphWave;
pub use agent_network::AgentNetwork;
pub use pagerank::PageRank;
pub use sparsifier::GraphSparsifier;
