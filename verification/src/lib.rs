//! Simulation of a structured peer-to-peer overlay that partitions a 64-bit
//! name space among disjoint sections. Nodes join, leave and are relocated
//! between sections; sections split when they grow and merge when they shrink.

pub mod chain;
pub mod hash;
pub mod message;
pub mod network;
pub mod node;
pub mod params;
pub mod prefix;
pub mod rng;
pub mod section;
pub mod stats;
