//! Nexus: a stack of typed tensors, a registry of ontic type aliases and
//! conversion bridges, and a ledger that records operation signatures and
//! reports contradictions between them.
//!
//! The library is generic over the element type of its tensors: the
//! arithmetic on single elements is handed to the operations that need it as
//! a function `exec(op, a, b)`.
use vstd::prelude::*;

pub mod text;
pub mod types;
pub mod seqs;
pub mod assoc;
pub mod ledger;
pub mod registry;
pub mod ops;
pub mod context;
pub mod json;
pub mod snapshot;

pub use types::{Adverb, NexusError, Op, TypedTensor, BIT, FIRST_USER_TYPE, KILOGRAM, METER, NULL_TYPE, SCALAR, SECOND};
pub use ledger::{ConsistencyLedger, LedgerVerdict, Signature};
pub use registry::TypeRegistry;
pub use context::{NexusContext, SavepointId};

verus! {

} // verus!
