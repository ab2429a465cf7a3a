//! Analysis of blinded payment paths in a multi-hop payment network.
//!
//! Given a public channel graph and an advertised cost envelope for a blinded
//! path, the library enumerates every concrete route whose accumulated
//! routing cost stays within the advertised envelope, and offers a baseline
//! ranking of candidate receivers by how often each node terminates a route.

pub mod channel_route;
pub mod constraints;
pub mod graph;
pub mod parse;
