//! A verified blockfile: a key/value file kept as sorted blocks under a sparse index.
//!
//! A writer routes each entry through the sparse index to a block, works on copies of the
//! blocks it touches, and splits a block that outgrows its limit. A commit stores the copies
//! and the index, and a reader opened on them finds every entry again.

pub mod order;
pub mod key;
pub mod value;
pub mod size;
pub mod block;
pub mod sparse_index;
pub mod provider;
pub mod flusher;
pub mod model;
pub mod blockfile;
pub mod laws;
pub mod bookkeeping;
pub mod effects;
