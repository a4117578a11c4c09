//! A compiler for directed-acyclic audio/event processing graphs.
//!
//! The library stores a port-level graph of processing nodes (nodes own typed
//! ports, edges connect ports of equal type), rejects edges that would close a
//! directed cycle, and compiles the graph into a linear schedule: a topological
//! execution order annotated with reusable intermediate buffers and per-edge
//! delay compensation values that align latencies across parallel paths.
#![verifier::loop_isolation(false)]

use vstd::prelude::*;

pub mod buffer;
pub mod connect;
pub mod error;
pub mod graph;
pub mod laws;
pub mod port;
pub mod schedule;
pub mod seq_lemmas;

pub use buffer::{Buffer, BufferAllocator};
pub use error::Error;
pub use graph::{Edge, Graph};
pub use schedule::Scheduled;
pub use port::{DefaultPortType, NodeRef, PortRef, PortType};
