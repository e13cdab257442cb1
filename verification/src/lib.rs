//! Renders a visual trust graph from a set of public-key identity
//! certificates: each vertex is a claimed identity (a key plus one of its
//! human-readable identifiers), each edge a certification or a revocation.
//!
//! The pipeline: certificates (imported locally or gossip-fetched from a
//! keyserver) are converted into the identity model, every reachable key is
//! assigned a gossip layer by breadth-first traversal from the requested
//! roots, the model is filtered to the requested depth, projected into a
//! directed graph of identity vertices and certification edges, and finally
//! serialized as a DOT text document with per-vertex and per-edge styling.
pub mod builder;
pub mod config;
pub mod gossip;
pub mod graph;
pub mod layers;
pub mod model;
pub mod render;
