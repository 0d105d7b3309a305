//! The input types, shared with the `rootcause` modules.

pub use crate::rootcause::types::{Event, EventType, Graph, Link, Node};
