//! What a commit hands on for its blocks and its index to be written out.

use crate::provider::{BlockManager, SparseIndexManager};
use crate::sparse_index::SparseIndex;
use std::collections::HashSet;
use vstd::prelude::*;

verus! {

/// The managers after a commit, and what in them is new: the blocks with the ids `delta_ids` and
/// the index of the blockfile `id`.
pub struct ArrowBlockfileFlusher<K, V> {
    pub block_manager: BlockManager<K, V>,
    pub sparse_index_manager: SparseIndexManager<K>,
    pub delta_ids: HashSet<u128>,
    pub sparse_index: SparseIndex<K>,
    pub id: u128,
}

impl<K, V> ArrowBlockfileFlusher<K, V> {
    /// A flusher of the given parts.
    pub fn new(
        block_manager: BlockManager<K, V>,
        sparse_index_manager: SparseIndexManager<K>,
        delta_ids: HashSet<u128>,
        sparse_index: SparseIndex<K>,
        id: u128,
    ) -> (r: Self)
        ensures
            r.block_manager == block_manager,
            r.sparse_index_manager == sparse_index_manager,
            r.delta_ids == delta_ids,
            r.sparse_index == sparse_index,
            r.id == id,
    {
        ArrowBlockfileFlusher {
            block_manager,
            sparse_index_manager,
            delta_ids,
            sparse_index,
            id,
        }
    }
}

} // verus!
