//! The writer and the reader of a blockfile.

use crate::block::{Block, BlockDelta, EntryModel};
use crate::effects::{
    is_unused, sound_is_tidy, tidy, tidy_write_leaves_other_keys, write_needs_a_target_with_room,
};
use crate::flusher::ArrowBlockfileFlusher;
use crate::key::{ArrowWriteableKey, CompositeKey, KeyModel};
use crate::laws::{
    ids_fresh, initial_is_empty, misplaced, set_keeps_sound, set_reads_back, sound,
};
use crate::model::FileModel;
use crate::provider::{
    is_random_uuid, random_id, sibling, sibling_id, sibling_is_random_uuid, siblings_run_out,
    BlockManager, SparseIndexManager, StoreModel,
};
use crate::size::block_size;
use crate::sparse_index::{in_range, index_valid, names, route, route_separates, SparseIndex};
use crate::value::ArrowWriteableValue;
use std::collections::{HashMap, HashSet};
use vstd::prelude::*;

verus! {

broadcast use vstd::std_specs::hash::group_hash_axioms;

/// The most bytes that a block may take when an entry is added to it in place.
pub const MAX_BLOCK_SIZE: usize = 16384;

/// Why a read does not give a value.
#[derive(Clone, Copy, Debug, PartialEq, Eq, Structural)]
pub enum BlockfileError {
    /// The block that the index gives for the key is not there.
    BlockNotFound,
    /// The block does not hold the key.
    KeyNotFound,
}

/// What a write needs before it can be done.
#[derive(Clone, Copy, Debug, PartialEq, Eq, Structural)]
pub enum WriteStatus {
    /// Nothing: the write can be done.
    Ready,
    /// The block with this id, which has to be loaded.
    NeedsBlock(u128),
    /// A target with entries: the stored block with this id is empty and cannot be copied.
    EmptyBlock(u128),
    /// A smaller value: the entry outgrows a block of its own.
    TooLarge,
}

/// The writer of a blockfile.
pub struct ArrowBlockfileWriter<K, V> {
    pub block_manager: BlockManager<K, V>,
    pub sparse_index_manager: SparseIndexManager<K>,
    pub block_deltas: HashMap<u128, BlockDelta<K, V>>,
    pub sparse_index: SparseIndex<K>,
    pub id: u128,
}

/// The entries of each delta, by the delta's id.
pub open spec fn deltas_model<K: ArrowWriteableKey, V: ArrowWriteableValue>(
    deltas: Map<u128, BlockDelta<K, V>>,
) -> StoreModel<K, V> {
    deltas.map_values(|d: BlockDelta<K, V>| d.entries@)
}

impl<K: ArrowWriteableKey, V: ArrowWriteableValue> View for ArrowBlockfileWriter<K, V> {
    type V = FileModel<K, V>;

    open spec fn view(&self) -> FileModel<K, V> {
        FileModel {
            index: self.sparse_index@,
            deltas: deltas_model(self.block_deltas@),
            stored: self.block_manager@,
        }
    }
}

impl<K: ArrowWriteableKey, V: ArrowWriteableValue> ArrowBlockfileWriter<K, V> {
    /// The index is valid and names a block, and every delta and stored block stands under its
    /// own id with its entries in order.
    pub open spec fn wf(self) -> bool {
        &&& index_valid::<K>(self.sparse_index@)
        &&& self.sparse_index@.len() > 0
        &&& self.block_manager.wf()
        &&& self.sparse_index_manager.wf()
        &&& forall|id: u128| #[trigger]
            self.block_deltas@.contains_key(id) ==> self.block_deltas@[id].wf()
                && self.block_deltas@[id].id == id
    }

    /// A writer of a new blockfile with one empty block, which has a fresh random id.
    pub fn new(
        id: u128,
        block_manager: BlockManager<K, V>,
        sparse_index_manager: SparseIndexManager<K>,
    ) -> (r: Self)
        requires
            block_manager.wf(),
            sparse_index_manager.wf(),
        ensures
            r.wf(),
            r.id == id,
            r.sparse_index.id == id,
            r.sparse_index_manager == sparse_index_manager,
            r.block_manager == block_manager,
            exists|block: u128|
                {
                    &&& #[trigger] is_random_uuid(block)
                    &&& !block_manager@.contains_key(block)
                    &&& r@ == FileModel::<K, V>::initial(block, block_manager@)
                    &&& r.sparse_index@ == seq![(None::<KeyModel<K>>, block)]
                    &&& r.block_deltas@.dom() == set![block]
                    &&& r.block_deltas@[block].entries@.len() == 0
                },
            sound::<K, V>(r@),
            forall|x: KeyModel<K>| #[trigger] r@.lookup(x) is None,
    {
        let initial_block: BlockDelta<K, V> = block_manager.create();
        Self::with_initial_block(id, block_manager, sparse_index_manager, initial_block)
    }

    /// A writer of a new blockfile with the given empty block.
    pub fn with_initial_block(
        id: u128,
        block_manager: BlockManager<K, V>,
        sparse_index_manager: SparseIndexManager<K>,
        initial_block: BlockDelta<K, V>,
    ) -> (r: Self)
        requires
            block_manager.wf(),
            sparse_index_manager.wf(),
            initial_block.entries@.len() == 0,
        ensures
            r.wf(),
            r.id == id,
            r.sparse_index.id == id,
            r.sparse_index_manager == sparse_index_manager,
            r@ == FileModel::<K, V>::initial(initial_block.id, block_manager@),
            r.block_manager == block_manager,
            r.sparse_index@ == seq![(None::<KeyModel<K>>, initial_block.id)],
            r.block_deltas@ == Map::<u128, BlockDelta<K, V>>::empty().insert(
                initial_block.id,
                initial_block,
            ),
            sound::<K, V>(r@),
            forall|x: KeyModel<K>| #[trigger] r@.lookup(x) is None,
    {
        proof {
            initial_is_empty::<K, V>(initial_block.id, block_manager@);
        }
        let mut sparse_index: SparseIndex<K> = SparseIndex::new(id);
        sparse_index.add_initial_block(initial_block.id);
        let mut block_deltas: HashMap<u128, BlockDelta<K, V>> = HashMap::new();
        block_deltas.insert(initial_block.id, initial_block);
        let r = ArrowBlockfileWriter {
            block_manager,
            sparse_index_manager,
            block_deltas,
            sparse_index,
            id,
        };
        assert(initial_block.entries@ =~= Seq::<EntryModel<K, V>>::empty());
        assert(r@ =~= FileModel::<K, V>::initial(initial_block.id, block_manager@));
        r
    }

    /// A writer that goes on from a committed index.
    pub fn from_sparse_index(
        id: u128,
        block_manager: BlockManager<K, V>,
        sparse_index_manager: SparseIndexManager<K>,
        new_sparse_index: SparseIndex<K>,
    ) -> (r: Self)
        requires
            block_manager.wf(),
            sparse_index_manager.wf(),
            index_valid::<K>(new_sparse_index@),
            new_sparse_index@.len() > 0,
        ensures
            r.wf(),
            r.id == id,
            r.sparse_index.id == new_sparse_index.id,
            r.sparse_index_manager == sparse_index_manager,
            r@ == FileModel::<K, V>::opened(new_sparse_index@, block_manager@),
            r.block_manager == block_manager,
            r.sparse_index == new_sparse_index,
            r.block_deltas@ == Map::<u128, BlockDelta<K, V>>::empty(),
    {
        let r = ArrowBlockfileWriter {
            block_manager,
            sparse_index_manager,
            block_deltas: HashMap::new(),
            sparse_index: new_sparse_index,
            id,
        };
        assert(r@ =~= FileModel::<K, V>::opened(new_sparse_index@, block_manager@));
        r
    }

    /// A writer of the same blockfile in the same state.
    pub fn duplicate(&self) -> (r: Self)
        requires
            self.wf(),
        ensures
            r.wf(),
            r@ == self@,
            r.id == self.id,
            r.sparse_index.id == self.sparse_index.id,
            r.sparse_index_manager@ == self.sparse_index_manager@,
    {
        let mut block_deltas: HashMap<u128, BlockDelta<K, V>> = HashMap::new();
        let ghost deltas = self.block_deltas@;
        for delta in iter: self.block_deltas.values()
            invariant
                deltas == self.block_deltas@,
                forall|id: u128| #[trigger]
                    deltas.contains_key(id) ==> deltas[id].wf() && deltas[id].id == id,
                iter.seq().unref().to_set() == deltas.values(),
                forall|j: int|
                    0 <= j < iter.index() ==> block_deltas@.contains_key(
                        (#[trigger] iter.seq().unref()[j]).id,
                    ),
                forall|id: u128| #[trigger]
                    block_deltas@.contains_key(id) ==> {
                        &&& deltas.contains_key(id)
                        &&& block_deltas@[id].id == id
                        &&& block_deltas@[id].entries@ == deltas[id].entries@
                    },
        {
            proof {
                assert(iter.seq().unref()[iter.index()] == *delta);
                assert(iter.seq().unref().to_set().contains(*delta));
                assert(deltas.values().contains(*delta));
                assert(deltas[delta.id] == *delta);
            }
            block_deltas.insert(delta.id, delta.duplicate());
        }
        assert forall|id: u128| deltas.contains_key(id) implies block_deltas@.contains_key(id) by {
            assert(deltas.values().contains(deltas[id]));
        }
        let r = ArrowBlockfileWriter {
            block_manager: self.block_manager.duplicate(),
            sparse_index_manager: self.sparse_index_manager.duplicate(),
            block_deltas,
            sparse_index: self.sparse_index.fork(self.sparse_index.id),
            id: self.id,
        };
        assert(r@ =~= self@);
        r
    }

    /// Stores every delta as a block, and the index, and hands both on to be written out.
    pub fn commit(self) -> (r: Result<ArrowBlockfileFlusher<K, V>, BlockfileError>)
        requires
            self.wf(),
        ensures
            r is Ok,
            r->Ok_0.block_manager.wf(),
            r->Ok_0.block_manager@ == self@.committed(),
            forall|id: u128| #[trigger]
                r->Ok_0.block_manager@.contains_key(id) <==> self.block_deltas@.contains_key(id)
                    || self.block_manager@.contains_key(id),
            forall|id: u128| #[trigger]
                r->Ok_0.block_manager@.contains_key(id) ==> r->Ok_0.block_manager@[id] == (
                if self.block_deltas@.contains_key(id) {
                    self.block_deltas@[id].entries@
                } else {
                    self.block_manager@[id]
                }),
            forall|id: u128| #[trigger]
                r->Ok_0.delta_ids@.contains(id) <==> self.block_deltas@.contains_key(id),
            r->Ok_0.sparse_index_manager.wf(),
            r->Ok_0.sparse_index_manager@ == self.sparse_index_manager@.insert(
                self.sparse_index.id,
                self.sparse_index@,
            ),
            r->Ok_0.delta_ids@ == self@.deltas.dom(),
            r->Ok_0.sparse_index == self.sparse_index,
            r->Ok_0.id == self.id,
    {
        let ghost file = self@;
        let ArrowBlockfileWriter {
            mut block_manager,
            mut sparse_index_manager,
            block_deltas,
            sparse_index,
            id,
        } = self;
        let mut delta_ids: HashSet<u128> = HashSet::new();
        let ghost stored = block_manager@;
        let ghost deltas = block_deltas@;
        for delta in iter: block_deltas.values()
            invariant
                deltas == block_deltas@,
                block_manager.wf(),
                forall|key: u128| #[trigger]
                    deltas.contains_key(key) ==> deltas[key].wf() && deltas[key].id == key,
                iter.seq().unref().to_set() == deltas.values(),
                forall|j: int|
                    0 <= j < iter.index() ==> delta_ids@.contains(
                        (#[trigger] iter.seq().unref()[j]).id,
                    ),
                forall|key: u128| #[trigger]
                    delta_ids@.contains(key) ==> deltas.contains_key(key),
                forall|key: u128| #[trigger]
                    block_manager@.contains_key(key) <==> stored.contains_key(key)
                        || delta_ids@.contains(key),
                forall|key: u128| #[trigger]
                    block_manager@.contains_key(key) ==> block_manager@[key] == (
                    if delta_ids@.contains(key) {
                        deltas[key].entries@
                    } else {
                        stored[key]
                    }),
        {
            proof {
                assert(iter.seq().unref()[iter.index()] == *delta);
                assert(iter.seq().unref().to_set().contains(*delta));
                assert(deltas.values().contains(*delta));
                assert(deltas[delta.id] == *delta);
            }
            block_manager.commit(delta);
            delta_ids.insert(delta.id);
        }
        assert forall|key: u128| deltas.contains_key(key) implies delta_ids@.contains(key) by {
            assert(deltas.values().contains(deltas[key]));
        }
        assert(delta_ids@ =~= file.deltas.dom());
        assert(block_manager@ =~= file.committed());
        sparse_index_manager.commit(sparse_index.fork(sparse_index.id));
        Ok(
            ArrowBlockfileFlusher::new(
                block_manager,
                sparse_index_manager,
                delta_ids,
                sparse_index,
                id,
            ),
        )
    }

    /// What a write of `value` under the key needs before it can be done.
    pub fn write_status(&self, prefix: &str, key: &K, value: &V) -> (r: WriteStatus)
        requires
            self.wf(),
        ensures
            r is Ready <==> self@.writable((prefix@, key@), value@),
            r is NeedsBlock <==> !self@.has_block(self@.target((prefix@, key@))),
            r is EmptyBlock <==> {
                &&& self@.forks((prefix@, key@))
                &&& self@.stored.contains_key(self@.target((prefix@, key@)))
                &&& self@.stored[self@.target((prefix@, key@))].len() == 0
            },
            r is TooLarge <==> {
                &&& !self@.forks((prefix@, key@))
                &&& self@.deltas[self@.target((prefix@, key@))].len() == 0
                &&& self@.splits((prefix@, key@), value@)
            },
            r is NeedsBlock <==> {
                &&& !self.block_deltas@.contains_key(self@.target((prefix@, key@)))
                &&& !self.block_manager@.contains_key(self@.target((prefix@, key@)))
            },
            r is TooLarge <==> {
                &&& self.block_deltas@.contains_key(self@.target((prefix@, key@)))
                &&& self.block_deltas@[self@.target((prefix@, key@))].entries@.len() == 0
                &&& block_size::<K, V>(seq![((prefix@, key@), value@)]) > 16384
            },
            r is Ready <==> if self.block_deltas@.contains_key(self@.target((prefix@, key@))) {
                ||| self.block_deltas@[self@.target((prefix@, key@))].entries@.len() > 0
                ||| block_size::<K, V>(seq![((prefix@, key@), value@)]) <= 16384
            } else {
                &&& self.block_manager@.contains_key(self@.target((prefix@, key@)))
                &&& self.block_manager@[self@.target((prefix@, key@))].len() > 0
            },
            r matches WriteStatus::NeedsBlock(id) ==> id == self@.target((prefix@, key@)),
            r matches WriteStatus::EmptyBlock(id) ==> id == self@.target((prefix@, key@)),
    {
        let search_key = CompositeKey::new(prefix.to_owned(), key.duplicate());
        let target_block_id: u128 = self.sparse_index.get_target_block_id(&search_key);
        proof {
            write_needs_a_target_with_room::<K, V>(self@, (prefix@, key@), value@);
        }
        match self.block_deltas.get(&target_block_id) {
            Some(delta) => {
                if delta.entries.items.len() == 0 && !delta.can_add(prefix, key, value) {
                    WriteStatus::TooLarge
                } else {
                    WriteStatus::Ready
                }
            },
            None => {
                match self.block_manager.get(&target_block_id) {
                    Some(block) => {
                        if block.entries.items.len() == 0 {
                            WriteStatus::EmptyBlock(target_block_id)
                        } else {
                            WriteStatus::Ready
                        }
                    },
                    None => WriteStatus::NeedsBlock(target_block_id),
                }
            },
        }
    }

    /// Takes a block that was loaded.
    pub fn supply_block(&mut self, block: Block<K, V>)
        requires
            old(self).wf(),
            block.wf(),
        ensures
            final(self).wf(),
            final(self).id == old(self).id,
            final(self).sparse_index_manager == old(self).sparse_index_manager,
            final(self).sparse_index == old(self).sparse_index,
            final(self).block_deltas == old(self).block_deltas,
            final(self)@ == (FileModel {
                stored: old(self)@.stored.insert(block.id, block.entries@),
                ..old(self)@
            }),
    {
        self.block_manager.insert(block);
    }

    /// The ids of the deltas, of the stored blocks and of the blocks of the index.
    spec fn ids_in_use(self) -> Set<u128> {
        self@.deltas.dom().union(self@.stored.dom()).union(
            self@.index.map_values(|e: (Option<KeyModel<K>>, u128)| e.1).to_set(),
        )
    }

    /// Whether a delta, a stored block or a block of the index has the id.
    fn in_use(&self, id: u128) -> (r: bool)
        ensures
            r == self.ids_in_use().contains(id),
    {
        let ghost ids = self@.index.map_values(|e: (Option<KeyModel<K>>, u128)| e.1);
        proof {
            if self.ids_in_use().contains(id) && ids.to_set().contains(id) {
                let i = choose|i: int| 0 <= i < ids.len() && ids[i] == id;
                assert(self.sparse_index@[i].1 == id);
            }
            if exists|i: int|
                0 <= i < self.sparse_index@.len() && (#[trigger] self.sparse_index@[i]).1 == id {
                let i = choose|i: int|
                    0 <= i < self.sparse_index@.len() && (#[trigger] self.sparse_index@[i]).1 == id;
                assert(ids[i] == id);
            }
        }
        self.block_deltas.contains_key(&id) || self.block_manager.blocks.contains_key(&id)
            || self.sparse_index.names_block(id)
    }

    /// A random id that is not in use and is not `other`: the one that is drawn, or else the first
    /// of its siblings of which this holds.
    fn unused_id(&self, other: Option<u128>) -> (r: u128)
        ensures
            is_random_uuid(r),
            is_unused::<K, V>(self@, r),
            other != Some(r),
    {
        let base: u128 = random_id();
        let ghost ids = self@.index.map_values(|e: (Option<KeyModel<K>>, u128)| e.1);
        let ghost used = match other {
            Some(id) => self.ids_in_use().insert(id),
            None => self.ids_in_use(),
        };
        let mut id: u128 = base;
        let mut n: u128 = 0;
        proof {
            let (deltas, stored) = (self.block_deltas@.dom(), self.block_manager.blocks@.dom());
            assert(self@.deltas.dom() =~= deltas);
            assert(self@.stored.dom() =~= stored);
            assert(self.block_deltas.len() == deltas.len());
            assert(self.block_manager.blocks.len() == stored.len());
            vstd::seq_lib::seq_to_set_is_finite(ids);
            ids.lemma_cardinality_of_set();
            assert(ids.len() == self.sparse_index.blocks.len());
            vstd::set_lib::lemma_len_union(deltas, stored);
            vstd::set_lib::lemma_len_union(deltas.union(stored), ids.to_set());
            sibling_is_random_uuid(base, 0);
        }
        while self.in_use(id) || other == Some(id)
            invariant
                is_random_uuid(base),
                used == (match other {
                    Some(id) => self.ids_in_use().insert(id),
                    None => self.ids_in_use(),
                }),
                used.finite(),
                used.len() <= 3 * usize::MAX + 1,
                n <= used.len(),
                id == sibling_id(base, n),
                forall|j: u128| j < n ==> used.contains(#[trigger] sibling_id(base, j)),
            decreases used.len() - n,
        {
            proof {
                siblings_run_out(base, (n + 1) as u128, used);
            }
            n = n + 1;
            id = sibling(base, n);
        }
        proof {
            sibling_is_random_uuid(base, n);
            assert forall|j: int| 0 <= j < self@.index.len() implies (#[trigger] self@.index[j]).1
                != id by {
                assert(ids[j] == self@.index[j].1);
                assert(ids.to_set().contains(ids[j]));
            }
        }
        id
    }

    /// Writes `value` under the key. Deltas that the write makes get random ids that are not in use.
    pub fn set(&mut self, prefix: &str, key: K, value: V) -> (r: Result<(), BlockfileError>)
        requires
            old(self).wf(),
            old(self)@.writable((prefix@, key@), value@),
        ensures
            r is Ok,
            final(self).wf(),
            final(self).id == old(self).id,
            final(self).block_manager == old(self).block_manager,
            final(self).sparse_index_manager == old(self).sparse_index_manager,
            final(self).sparse_index.id == old(self).sparse_index.id,
            exists|fork_id: u128, split_id: u128|
                {
                    &&& #[trigger] is_random_uuid(fork_id)
                    &&& #[trigger] is_random_uuid(split_id)
                    &&& fork_id != split_id
                    &&& is_unused::<K, V>(old(self)@, fork_id)
                    &&& is_unused::<K, V>(old(self)@, split_id)
                    &&& !old(self).block_deltas@.contains_key(fork_id)
                    &&& !old(self).block_deltas@.contains_key(split_id)
                    &&& !old(self).block_manager@.contains_key(fork_id)
                    &&& !old(self).block_manager@.contains_key(split_id)
                    &&& ids_fresh::<K, V>(
                        old(self)@,
                        (prefix@, key@),
                        value@,
                        fork_id,
                        split_id,
                    )
                    &&& final(self)@ == old(self)@.set((prefix@, key@), value@, fork_id, split_id)
                },
            forall|id: u128| #[trigger]
                final(self)@.deltas.contains_key(id) ==> old(self)@.deltas.contains_key(id) || !old(
                    self,
                )@.stored.contains_key(id),
            tidy::<K, V>(old(self)@) && (old(self)@.deltas.contains_key(
                old(self)@.target((prefix@, key@)),
            ) || sound::<K, V>(old(self)@)) ==> {
                &&& tidy::<K, V>(final(self)@)
                &&& forall|x: KeyModel<K>|
                    x != (prefix@, key@) ==> #[trigger] final(self)@.lookup(x) == old(
                        self,
                    )@.lookup(x)
                &&& final(self)@.lookup((prefix@, key@)) == (if misplaced::<K, V>(
                    old(self)@,
                    (prefix@, key@),
                    value@,
                ) {
                    old(self)@.lookup((prefix@, key@))
                } else {
                    Some(value@)
                })
            },
            sound::<K, V>(old(self)@) ==> {
                &&& forall|x: KeyModel<K>|
                    x != (prefix@, key@) ==> #[trigger] final(self)@.lookup(x) == old(
                        self,
                    )@.lookup(x)
                &&& misplaced::<K, V>(old(self)@, (prefix@, key@), value@) || (sound::<K, V>(
                    final(self)@,
                ) && final(self)@.lookup((prefix@, key@)) == Some(value@))
            },
    {
        let fork_id: u128 = self.unused_id(None);
        let split_id: u128 = self.unused_id(Some(fork_id));
        proof {
            let f = self@;
            let (k, v) = ((prefix@, key@), value@);
            assert(ids_fresh::<K, V>(f, k, v, fork_id, split_id));
            route_separates::<K>(f.index, k);
            if sound::<K, V>(f) {
                let p = route::<K>(f.index, k);
                sound_is_tidy::<K, V>(f);
                set_reads_back::<K, V>(f, k, v, fork_id, split_id);
                if !misplaced::<K, V>(f, k, v) {
                    set_keeps_sound::<K, V>(f, k, v, fork_id, split_id);
                }
                assert(p > 0 ==> f.index[p].0 == Some(f.block(f.index[p].1)[0].0));
            }
            if tidy::<K, V>(f) && (f.deltas.contains_key(f.target(k)) || sound::<K, V>(f)) {
                tidy_write_leaves_other_keys::<K, V>(f, k, v, fork_id, split_id);
            }
        }
        self.set_with_ids(prefix, key, value, fork_id, split_id)
    }

    /// Writes `value` under the key. A delta made by copying the target gets the id `fork_id`, and
    /// one made by splitting gets the id `split_id`.
    pub fn set_with_ids(
        &mut self,
        prefix: &str,
        key: K,
        value: V,
        fork_id: u128,
        split_id: u128,
    ) -> (r: Result<(), BlockfileError>)
        requires
            old(self).wf(),
            old(self)@.writable((prefix@, key@), value@),
        ensures
            r is Ok,
            final(self).wf(),
            final(self).id == old(self).id,
            final(self).block_manager == old(self).block_manager,
            final(self).sparse_index_manager == old(self).sparse_index_manager,
            final(self).sparse_index.id == old(self).sparse_index.id,
            final(self)@ == old(self)@.set((prefix@, key@), value@, fork_id, split_id),
    {
        let ghost before = self@;
        let ghost k = (prefix@, key@);
        let ghost v = value@;
        let search_key = CompositeKey::new(prefix.to_owned(), key.duplicate());
        let target_block_id: u128 = self.sparse_index.get_target_block_id(&search_key);
        proof {
            route_separates::<K>(before.index, k);
            assert(before.index[route::<K>(before.index, k)].1 == target_block_id);
            assert(names::<K>(before.index, target_block_id));
        }

        // Take the delta of the target out, or copy the stored block into a new one.
        let mut delta: BlockDelta<K, V> = match self.block_deltas.remove(&target_block_id) {
            Some(delta) => delta,
            None => {
                let new_delta: BlockDelta<K, V> = self.block_manager.fork(&target_block_id, fork_id);
                match new_delta.get_min_key() {
                    Some(min_key) => {
                        self.sparse_index.replace_block(target_block_id, new_delta.id, min_key);
                    },
                    None => {},
                }
                new_delta
            },
        };
        assert(delta.entries@ == before.block(target_block_id));

        // Add to the delta where that does not push it over the limit, and else to the upper part
        // of it.
        if delta.can_add(prefix, &key, &value) {
            delta.add(prefix, key, value);
            self.block_deltas.insert(delta.id, delta);
            assert(self@.deltas =~= before.set(k, v, fork_id, split_id).deltas);
        } else {
            let (split_key, mut new_delta): (CompositeKey<K>, BlockDelta<K, V>) = delta.split(
                split_id,
            );
            self.sparse_index.add_block(split_key, new_delta.id);
            new_delta.add(prefix, key, value);
            self.block_deltas.insert(delta.id, delta);
            self.block_deltas.insert(new_delta.id, new_delta);
            assert(self@.deltas =~= before.set(k, v, fork_id, split_id).deltas);
        }
        Ok(())
    }

    /// The id of the blockfile.
    pub fn id(&self) -> (r: u128)
        ensures
            r == self.id,
    {
        self.id
    }
}

/// The reader of a blockfile.
pub struct ArrowBlockfileReader<K, V> {
    pub block_manager: BlockManager<K, V>,
    pub sparse_index: SparseIndex<K>,
    pub loaded_blocks: HashMap<u128, Block<K, V>>,
    pub id: u128,
}

impl<K: ArrowWriteableKey, V: ArrowWriteableValue> View for ArrowBlockfileReader<K, V> {
    type V = FileModel<K, V>;

    open spec fn view(&self) -> FileModel<K, V> {
        FileModel::opened(self.sparse_index@, self.block_manager@)
    }
}

impl<K: ArrowWriteableKey, V: ArrowWriteableValue> ArrowBlockfileReader<K, V> {
    /// The index is valid and names a block, every stored block stands under its own id with its
    /// entries in order, and every loaded block has the entries of the stored one.
    pub open spec fn wf(self) -> bool {
        &&& index_valid::<K>(self.sparse_index@)
        &&& self.sparse_index@.len() > 0
        &&& self.block_manager.wf()
        &&& forall|id: u128| #[trigger]
            self.loaded_blocks@.contains_key(id) ==> {
                &&& self.loaded_blocks@[id].wf()
                &&& self.loaded_blocks@[id].id == id
                &&& self.block_manager@.contains_key(id)
                &&& self.loaded_blocks@[id].entries@ == self.block_manager@[id]
            }
    }

    /// A reader of the blockfile with the given index over the given blocks.
    pub fn new(id: u128, block_manager: BlockManager<K, V>, sparse_index: SparseIndex<K>) -> (r:
        Self)
        requires
            block_manager.wf(),
            index_valid::<K>(sparse_index@),
            sparse_index@.len() > 0,
        ensures
            r.wf(),
            r.id == id,
            r.sparse_index == sparse_index,
            r.block_manager == block_manager,
            r.loaded_blocks@ == Map::<u128, Block<K, V>>::empty(),
            r@ == FileModel::<K, V>::opened(sparse_index@, block_manager@),
    {
        ArrowBlockfileReader { block_manager, sparse_index, loaded_blocks: HashMap::new(), id }
    }

    /// The block with the given id, where there is one: the loaded one, or else a copy of the
    /// stored one, which is kept from then on.
    pub fn get_block(&mut self, block_id: u128) -> (r: Option<&Block<K, V>>)
        requires
            old(self).wf(),
        ensures
            final(self).wf(),
            final(self)@ == old(self)@,
            final(self).id == old(self).id,
            final(self).sparse_index == old(self).sparse_index,
            final(self).block_manager == old(self).block_manager,
            match r {
                Some(b) => {
                    &&& old(self)@.stored.contains_key(block_id)
                    &&& b.id == block_id
                    &&& b.entries@ == old(self)@.stored[block_id]
                    &&& b.wf()
                    &&& final(self).loaded_blocks@ == old(self).loaded_blocks@.insert(block_id, *b)
                    &&& old(self).loaded_blocks@.contains_key(block_id) ==> *b == old(
                        self,
                    ).loaded_blocks@[block_id]
                },
                None => {
                    &&& !old(self)@.stored.contains_key(block_id)
                    &&& final(self).loaded_blocks@ == old(self).loaded_blocks@
                },
            },
    {
        if !self.loaded_blocks.contains_key(&block_id) {
            match self.block_manager.get(&block_id) {
                Some(block) => {
                    let loaded: Block<K, V> = block.duplicate();
                    self.loaded_blocks.insert(block_id, loaded);
                },
                None => {
                    return None;
                },
            }
        }
        let ghost loaded = self.loaded_blocks@;
        assert(loaded =~= old(self).loaded_blocks@.insert(block_id, loaded[block_id]));
        self.loaded_blocks.get(&block_id)
    }

    /// The value under the key, or why there is none. The block for the key is loaded, and the
    /// blocks that were loaded stay.
    pub fn lookup(&mut self, prefix: &str, key: &K) -> (r: Result<&V, BlockfileError>)
        requires
            old(self).wf(),
        ensures
            final(self).wf(),
            final(self)@ == old(self)@,
            final(self).id == old(self).id,
            final(self).sparse_index == old(self).sparse_index,
            final(self).block_manager == old(self).block_manager,
            final(self).loaded_blocks@.dom() == (if old(self)@.has_block(
                old(self)@.target((prefix@, key@)),
            ) {
                old(self).loaded_blocks@.dom().insert(old(self)@.target((prefix@, key@)))
            } else {
                old(self).loaded_blocks@.dom()
            }),
            forall|id: u128| #[trigger]
                old(self).loaded_blocks@.contains_key(id) ==> final(self).loaded_blocks@[id]
                    == old(self).loaded_blocks@[id],
            match r {
                Ok(v) => old(self)@.lookup((prefix@, key@)) == Some(v@),
                Err(BlockfileError::BlockNotFound) => !old(self)@.has_block(
                    old(self)@.target((prefix@, key@)),
                ),
                Err(BlockfileError::KeyNotFound) => {
                    &&& old(self)@.has_block(old(self)@.target((prefix@, key@)))
                    &&& old(self)@.lookup((prefix@, key@)) is None
                },
            },
            exists|p: int|
                #![trigger in_range::<K>(old(self).sparse_index@, p, (prefix@, key@))]
                {
                    let ix = old(self).sparse_index@;
                    let blocks = old(self).block_manager@;
                    let k = (prefix@, key@);
                    &&& 0 <= p < ix.len()
                    &&& in_range::<K>(ix, p, k)
                    &&& match r {
                        Ok(v) => blocks.contains_key(ix[p].1) && blocks[ix[p].1].contains((k, v@)),
                        Err(BlockfileError::BlockNotFound) => !blocks.contains_key(ix[p].1),
                        Err(BlockfileError::KeyNotFound) => blocks.contains_key(ix[p].1)
                            && forall|u: V::V| !#[trigger] blocks[ix[p].1].contains((k, u)),
                    }
                },
    {
        let search_key = CompositeKey::new(prefix.to_owned(), key.duplicate());
        let target_block_id: u128 = self.sparse_index.get_target_block_id(&search_key);
        match self.get_block(target_block_id) {
            Some(block) => match block.get(prefix, key) {
                Some(value) => Ok(value),
                None => Err(BlockfileError::KeyNotFound),
            },
            None => Err(BlockfileError::BlockNotFound),
        }
    }

    /// The value under a key that the blockfile holds.
    pub fn get(&mut self, prefix: &str, key: K) -> (r: Result<&V, BlockfileError>)
        requires
            old(self).wf(),
            old(self)@.lookup((prefix@, key@)) is Some,
        ensures
            r is Ok,
            old(self)@.lookup((prefix@, key@)) == Some(r->Ok_0@),
            exists|p: int|
                #![trigger in_range::<K>(old(self).sparse_index@, p, (prefix@, key@))]
                {
                    let ix = old(self).sparse_index@;
                    let blocks = old(self).block_manager@;
                    &&& 0 <= p < ix.len()
                    &&& in_range::<K>(ix, p, (prefix@, key@))
                    &&& blocks.contains_key(ix[p].1)
                    &&& blocks[ix[p].1].contains(((prefix@, key@), r->Ok_0@))
                },
            final(self).wf(),
            final(self)@ == old(self)@,
            final(self).id == old(self).id,
            final(self).sparse_index == old(self).sparse_index,
            final(self).block_manager == old(self).block_manager,
            final(self).loaded_blocks@.dom() == old(self).loaded_blocks@.dom().insert(
                old(self)@.target((prefix@, key@)),
            ),
            forall|id: u128| #[trigger]
                old(self).loaded_blocks@.contains_key(id) ==> final(self).loaded_blocks@[id]
                    == old(self).loaded_blocks@[id],
    {
        self.lookup(prefix, &key)
    }

    /// The block that a read of the key needs and that has to be loaded first.
    pub fn block_to_load(&self, prefix: &str, key: &K) -> (r: Option<u128>)
        requires
            self.wf(),
        ensures
            r == (if self@.has_block(self@.target((prefix@, key@))) {
                None
            } else {
                Some(self@.target((prefix@, key@)))
            }),
            r == (if self.block_manager@.contains_key(self@.target((prefix@, key@))) {
                None
            } else {
                Some(self@.target((prefix@, key@)))
            }),
    {
        let search_key = CompositeKey::new(prefix.to_owned(), key.duplicate());
        let target_block_id: u128 = self.sparse_index.get_target_block_id(&search_key);
        match self.block_manager.get(&target_block_id) {
            Some(_) => None,
            None => Some(target_block_id),
        }
    }

    /// Takes a block that was loaded.
    pub fn supply_block(&mut self, block: Block<K, V>)
        requires
            old(self).wf(),
            block.wf(),
            !old(self)@.has_block(block.id),
        ensures
            final(self).wf(),
            final(self).id == old(self).id,
            final(self).sparse_index == old(self).sparse_index,
            final(self).loaded_blocks == old(self).loaded_blocks,
            final(self)@ == (FileModel {
                stored: old(self)@.stored.insert(block.id, block.entries@),
                ..old(self)@
            }),
    {
        self.block_manager.insert(block);
    }

    /// The id of the blockfile.
    pub fn id(&self) -> (r: u128)
        ensures
            r == self.id,
    {
        self.id
    }
}

} // verus!
