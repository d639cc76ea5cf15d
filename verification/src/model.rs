//! What a blockfile stands for while it is written and read, and what each operation does to it.

use crate::block::{find, put, EntryModel};
use crate::key::{ArrowWriteableKey, KeyModel};
use crate::provider::StoreModel;
use crate::size::{fits, split_point};
use crate::sparse_index::{route, with_block, with_replaced, IndexModel};
use crate::value::ArrowWriteableValue;
use vstd::prelude::*;

verus! {

/// A blockfile: its index, the deltas that are not committed yet, and the stored blocks.
#[verifier::ext_equal]
#[verifier::reject_recursive_types(K)]
#[verifier::reject_recursive_types(V)]
pub struct FileModel<K: ArrowWriteableKey, V: ArrowWriteableValue> {
    pub index: IndexModel<K>,
    pub deltas: StoreModel<K, V>,
    pub stored: StoreModel<K, V>,
}

impl<K: ArrowWriteableKey, V: ArrowWriteableValue> FileModel<K, V> {
    /// A blockfile whose only block is an empty delta.
    pub open spec fn initial(initial_block: u128, stored: StoreModel<K, V>) -> Self {
        FileModel {
            index: seq![(None::<KeyModel<K>>, initial_block)],
            deltas: Map::<u128, Seq<EntryModel<K, V>>>::empty().insert(initial_block, Seq::empty()),
            stored,
        }
    }

    /// A blockfile without deltas.
    pub open spec fn opened(index: IndexModel<K>, stored: StoreModel<K, V>) -> Self {
        FileModel { index, deltas: Map::<u128, Seq<EntryModel<K, V>>>::empty(), stored }
    }

    /// The block that the index gives for `k`.
    pub open spec fn target(self, k: KeyModel<K>) -> u128 {
        self.index[route::<K>(self.index, k)].1
    }

    /// There is a delta or a stored block with the id.
    pub open spec fn has_block(self, id: u128) -> bool {
        self.deltas.contains_key(id) || self.stored.contains_key(id)
    }

    /// The entries of a block: those of the delta where there is one.
    pub open spec fn block(self, id: u128) -> Seq<EntryModel<K, V>> {
        if self.deltas.contains_key(id) {
            self.deltas[id]
        } else {
            self.stored[id]
        }
    }

    /// What a read of `k` finds: the value under `k` in the block that the index gives for it.
    pub open spec fn lookup(self, k: KeyModel<K>) -> Option<V::V> {
        if self.has_block(self.target(k)) {
            find::<K, V>(self.block(self.target(k)), k)
        } else {
            None
        }
    }

    /// The target of `k` has to be copied into a delta before it can be written.
    pub open spec fn forks(self, k: KeyModel<K>) -> bool {
        !self.deltas.contains_key(self.target(k))
    }

    /// The delta for the target of `k` outgrows the limit with `v` under `k`.
    pub open spec fn splits(self, k: KeyModel<K>, v: V::V) -> bool {
        !fits::<K, V>(put::<K, V>(self.block(self.target(k)), k, v))
    }

    /// The key at which the target of `k` is split.
    pub open spec fn split_key(self, k: KeyModel<K>) -> KeyModel<K> {
        let b = self.block(self.target(k));
        b[split_point::<K, V>(b)].0
    }

    /// A write of `v` under `k` can be done: the target is a delta or a stored block with
    /// entries, and it is not empty where it has to be split.
    pub open spec fn writable(self, k: KeyModel<K>, v: V::V) -> bool {
        &&& self.has_block(self.target(k))
        &&& self.forks(k) ==> self.stored[self.target(k)].len() > 0
        &&& self.splits(k, v) ==> self.block(self.target(k)).len() > 0
    }

    /// The stored block `id` is copied into a delta `new`, which takes its place in the index.
    pub open spec fn fork(self, id: u128, new: u128) -> Self {
        FileModel {
            index: with_replaced::<K>(self.index, id, new, self.stored[id][0].0),
            deltas: self.deltas.insert(new, self.stored[id]),
            stored: self.stored,
        }
    }

    /// The value is put in the delta `id`, where it fits.
    pub open spec fn add_in_place(self, id: u128, k: KeyModel<K>, v: V::V) -> Self {
        FileModel {
            index: self.index,
            deltas: self.deltas.insert(id, put::<K, V>(self.deltas[id], k, v)),
            stored: self.stored,
        }
    }

    /// The delta `id` is split, and the value is put in the new delta, which takes the entries
    /// from the split key on.
    pub open spec fn split_and_add(self, id: u128, new: u128, k: KeyModel<K>, v: V::V) -> Self {
        let b = self.deltas[id];
        let c = split_point::<K, V>(b);
        FileModel {
            index: with_block::<K>(self.index, b[c].0, new),
            deltas: self.deltas.insert(id, b.take(c)).insert(new, put::<K, V>(b.skip(c), k, v)),
            stored: self.stored,
        }
    }

    /// A write of `v` under `k`. A delta made by copying the target gets the id `fork_id`, and one
    /// made by splitting gets the id `split_id`.
    pub open spec fn set(self, k: KeyModel<K>, v: V::V, fork_id: u128, split_id: u128) -> Self {
        let forked = if self.forks(k) {
            self.fork(self.target(k), fork_id)
        } else {
            self
        };
        let id = if self.forks(k) {
            fork_id
        } else {
            self.target(k)
        };
        if self.splits(k, v) {
            forked.split_and_add(id, split_id, k, v)
        } else {
            forked.add_in_place(id, k, v)
        }
    }

    /// The stored blocks after a commit: the deltas take the place of blocks with their ids.
    pub open spec fn committed(self) -> StoreModel<K, V> {
        self.stored.union_prefer_right(self.deltas)
    }
}

} // verus!
