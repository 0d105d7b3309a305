//! Root cause analysis for a dynamic IP network.
//!
//! A network of nodes and links receives a stream of events (links going
//! up or down, nodes reported unreachable, degraded nodes). Each event is
//! applied to the network topology, scored as evidence against candidate
//! root causes (nodes and links), and the candidates are finally ranked.

pub mod strings;
pub mod helper;
pub mod rootcause;
pub mod tally;
pub mod timestamp;
pub mod topology;
pub mod analysis;
pub mod network;
