//! A knowledge network: a growing undirected graph of artifacts together with
//! an epoch/context model. Contexts are popularity-biased local subgraphs;
//! growth attaches new artifacts by popularity-weighted random edges.
//! Mechanisms drive the network through an integration loop.

pub mod idvec;
pub mod model;
pub mod knowledge;
pub mod mechanism;
pub mod laws;
pub mod ec;
mod rng;
