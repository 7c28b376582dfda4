use vstd::prelude::*;

pub mod crypto;
pub mod curve;
pub mod item;
pub mod encoding;
pub mod error;
pub mod keys;
pub mod note;
pub mod order;
pub mod transaction;
pub mod text;
pub mod transparent;
pub mod value;
pub mod wire;

verus! {

/// Maximum number of input notes a transaction may carry.
pub const MAX_INPUT_NOTES_PER_TRANSACTION: usize = 1;

/// Maximum number of output notes a transaction may carry.
pub const MAX_OUTPUT_NOTES_PER_TRANSACTION: usize = 2;

/// Maximum allowed number of notes per transaction.
pub const MAX_NOTES_PER_TRANSACTION: usize = 3;

} // verus!
