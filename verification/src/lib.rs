//! FileFlow: a content-addressed sandbox for file pipelines, a hash-chained
//! journal of their steps, the FlowLang pipeline language, and the scheduler
//! that orders pipeline nodes.
pub mod digest;
pub mod merkle;
pub mod journal;
pub mod pipeline;
pub mod scheduler;
pub mod vfs;
pub mod flowlang;
pub mod compile;
pub mod orchestrator;
pub mod hyperquery;
pub mod flowtext;
