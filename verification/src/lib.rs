//! Analysis engine for source-code projects: builds a module dependency
//! graph, detects communities with a resolution-parameterized modularity
//! optimizer, and scores identifier tokens with TF-IDF statistics.
#![verifier::loop_isolation(false)]

pub mod cluster;
pub mod corpus;
pub mod extract;
pub mod graph;
pub mod ratio;
pub mod scorer;
pub mod snapshot;
pub mod tokenize;
