//! Tools exposed to the agent.
pub mod file_summary;
pub mod library;

use vstd::prelude::*;

verus! {

/// Shared context passed to every tool invocation.
pub struct ToolContext<A> {
    pub agent: A,
}

} // verus!
