//! Verified building blocks of an Ethereum development runtime.
//!
//! - EIP-712: the canonical type definitions of the structs in Solidity sources.
//!   [`collector`] is the entry point. Struct definitions are read from a resolved
//!   compilation unit ([`solidity`], [`structs`]), those that cannot be used are
//!   rejected with a reason ([`dedup`], [`reject`]), and the others brought into
//!   canonical form ([`canonical`], [`heads`], [`types`]). [`provider`] serves the types of
//!   several source files; [`resolver`] and [`version`] decide where imports lead
//!   and which grammar a compiler version calls for.
//! - Raw traces: [`trace`] flattens a recorded call tree into messages, steps and
//!   results, in the terms of [`evm`].
//!
//! [`laws`] states what all of these are for, over their inputs and results.
use vstd::prelude::*;

pub mod canonical;
pub mod collector;
pub mod dedup;
pub mod evm;
pub mod heads;
pub mod laws;
pub mod names;
pub mod provider;
pub mod reject;
pub mod resolver;
pub mod solidity;
pub mod structs;
pub mod text;
pub mod trace;
pub mod types;
pub mod version;

pub use crate::collector::{
    collect_eip712_types_from_compilation_unit, CollectError, Eip712Collection, LookupError,
};
pub use crate::provider::{Eip712Provider, SourceName};
pub use crate::resolver::ImportResolver;
pub use crate::trace::RawTrace;
pub use crate::types::{Eip712Error, Eip712TypeDef};

verus! {

} // verus!
