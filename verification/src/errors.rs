//! Error kinds of the host runtime.

use vstd::prelude::*;

verus! {

/// Every failure the host core can report.
///
/// `Filesystem` and `Network` are load failures; `Compile` carries the
/// compiler's diagnostics; `Instantiate` and `Evaluate` carry engine
/// diagnostic text; `GraphLookup` is an internal invariant failure (a
/// specifier that should already be in the graph or instance table is
/// missing).
#[derive(Debug, Clone, PartialEq, Eq)]
pub enum HostError {
    Filesystem(String),
    Network(String),
    Compile(String),
    Instantiate(String),
    Evaluate(String),
    GraphLookup(String),
}

impl HostError {
    /// The diagnostic text carried by the error.
    pub open spec fn spec_message(&self) -> Seq<char> {
        match self {
            HostError::Filesystem(m) => m@,
            HostError::Network(m) => m@,
            HostError::Compile(m) => m@,
            HostError::Instantiate(m) => m@,
            HostError::Evaluate(m) => m@,
            HostError::GraphLookup(m) => m@,
        }
    }

    /// Returns the diagnostic text carried by the error.
    pub fn message(&self) -> (r: &String)
        ensures
            r@ == self.spec_message(),
    {
        match self {
            HostError::Filesystem(m) => m,
            HostError::Network(m) => m,
            HostError::Compile(m) => m,
            HostError::Instantiate(m) => m,
            HostError::Evaluate(m) => m,
            HostError::GraphLookup(m) => m,
        }
    }
}

} // verus!
