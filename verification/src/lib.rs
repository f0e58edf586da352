//! Greedy extraction from an equivalence graph.
//!
//! An equivalence graph holds candidate operations, the nodes, in classes of
//! interchangeable alternatives. Extraction chooses one node for each class
//! so that the choices cost little, a class that several choices share being
//! paid for once. [`extractor::GreedyDagExtractor`] does so in rounds: each
//! round offers every class what each of its nodes would cost over the bests
//! of its children, and the rounds end when no class improves.
//!
//! [`model`] says in mathematical terms what the extractor computes, and
//! [`laws`] holds what is proved of every extraction.
pub mod extractor;
pub mod fx;
pub mod graph;
pub mod laws;
pub mod model;
pub mod result;
pub mod total;
pub mod unextractable;
