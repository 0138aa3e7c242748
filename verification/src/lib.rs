//! A genetic search for cheap paths under resource limits.
//!
//! The search looks for a path of low cost from the first node of a directed
//! graph to its last node, such that the resources consumed along the path
//! stay under a ceiling in every dimension. Candidate solutions are orderings
//! of the nodes in between; each ordering is decoded into a path by a
//! best-first search that prefers nodes early in the ordering.
//!
//! Costs and resources are unsigned integers, and a fitness is the exact
//! reciprocal of a cost, so every comparison the search makes is exact.

pub mod chromosome;
pub mod crossover;
pub mod decoder;
pub mod evolution;
pub mod fitness;
pub mod frontier;
pub mod graph;
pub mod mutation;
pub mod random;
pub mod ranking;
pub mod routes;
pub mod selection;

pub use chromosome::{generate_random_chromosome, Chromosome};
pub use crossover::{crossover, crossover_at};
pub use decoder::decode;
pub use evolution::{
    breed, draw_mating, draw_plan, evaluate, next_generation, run_search, Mating, TOURNAMENT_SIZE,
};
pub use fitness::Fitness;
pub use graph::{build_graph, Edge, Graph, GraphError};
pub use mutation::{mutate, mutate_at, swap_genes};
pub use random::Rate;
pub use ranking::rank_population;
pub use selection::{draw_picks, tournament_selection, tournament_winner};
