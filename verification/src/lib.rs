//! Host core of a small embedded-script runtime: a module-specifier
//! resolver, a dependency-graph crawler, an instantiation/evaluation
//! planner for the embedded engine, and a cooperative job scheduler.
//!
//! The pieces that must touch the outside world (file and network
//! reads, the script compiler, the engine itself) are driven from an
//! unverified shell; this crate holds the decisions and proves them.

pub mod builder;
pub mod engine;
pub mod errors;
pub mod graph;
pub mod resolver;
pub mod scheduler;
pub mod textnum;
