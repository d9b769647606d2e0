//! A primitive for parallelizing per-element transformations over
//! indexable containers: an element is removed through an extraction
//! index, handed exclusively to a processing function, and reinserted
//! through a possibly different reinsertion index.  The protocol, the
//! bounded chunked dispatcher, adapters for plain and non-empty sequences
//! and for directed-graph nodes and edges, and a node-splice adapter that
//! replaces one node by a whole subgraph are all specified and verified
//! here; running the processing functions on real threads is left to the
//! embedding program.

pub mod general;
pub mod graphs;
pub mod vectors;

use vstd::prelude::*;

verus! {

/// Reasons a take, put-back, or whole dispatch can fail.
#[derive(Clone, Copy, Debug, PartialEq, Eq, Structural)]
pub enum DispatchError {
    /// An extraction or reinsertion index did not refer to an element.
    IndexNotFound,
    /// A structural precondition of a reinsertion failed; the container
    /// was left unchanged.
    InvariantViolation,
    /// A worker could not report its result back to the coordinator.
    ChannelDeliveryFailure,
}

/// Whether an error must stop the whole dispatch: invalid indices and
/// broken reinsertion invariants do, a lost worker report is surfaced to
/// the caller per item instead.
pub fn error_is_fatal(e: &DispatchError) -> (r: bool)
    ensures
        r == (*e is IndexNotFound || *e is InvariantViolation),
{
    match e {
        DispatchError::IndexNotFound => true,
        DispatchError::InvariantViolation => true,
        DispatchError::ChannelDeliveryFailure => false,
    }
}

} // verus!
