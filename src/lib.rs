//! An audio graph: nodes registered by id, wired into a tree that ends in a
//! single output sink, and walked depth-first once per block so that every
//! source is processed before the node it feeds.
pub mod error;
pub mod node;
pub mod params;
pub mod model;
pub mod graph;
pub mod laws;

pub use error::{Error, ErrorCodes};
pub use graph::{AudioGraph, MapNode};
pub use node::{AudioNodeType, OutputNode, TestNode, TestOutputNode};
pub use params::AudioRuntimeParameters;
