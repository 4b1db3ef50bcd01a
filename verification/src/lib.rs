//! KVD — Key-Value Document format: value model, grammar predicates,
//! parser, serializer, schema verification and document editing.
use vstd::prelude::*;

pub mod text;
pub mod error;
pub mod grammar;
pub mod value;
pub mod ops;
pub mod lexer;
pub mod deserialize;
pub mod serialize;
pub mod schema;
pub mod readback;

verus! {

/// Maximum nesting depth accepted by the parser and enforced by the
/// serializer: indentation levels and dotted path segments counted
/// together.
pub const MAX_DEPTH: usize = 100;

} // verus!
