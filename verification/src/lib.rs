//! Runtime support for splitability annotations over C functions.
//!
//! The runtime batches deferred function calls into a task graph, identifies
//! argument buffers by content, and, when forced, replays the graph over
//! partitioned inputs. The modules here hold the verified core: the task
//! graph and its planner, the memory-segment bookkeeping, the annotation
//! model with its JSON codec, and the annotation-file grammar.

pub mod annotation;
pub mod error;
pub mod json;
pub mod memory;
pub mod parser;
pub mod tasks;
pub mod util;
pub mod writer;
