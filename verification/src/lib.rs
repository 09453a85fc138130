//! A minimal deferred-execution tensor computation engine.
//!
//! User code builds a directed graph of tensor-producing operations
//! (constants, variables, placeholders, elementwise arithmetic), compiles the
//! subgraph reachable from chosen targets into an executable plan, and runs
//! that plan against concrete buffers.

pub mod cpu;
pub mod graph;
pub mod op;
pub mod tensor;

pub use graph::{ExecutionError, Graph, GraphExecutable, GraphInner, GraphTensor, StorageMap};
pub use tensor::shape::Shape;
