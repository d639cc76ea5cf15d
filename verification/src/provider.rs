//! The managers that hold what is committed: the stored blocks and the sparse indexes.

use crate::block::{Block, BlockDelta, EntryModel};
use crate::key::ArrowWriteableKey;
use crate::sparse_index::{index_valid, IndexModel, SparseIndex};
use crate::value::ArrowWriteableValue;
use std::collections::HashMap;
use vstd::prelude::*;

verus! {

broadcast use vstd::std_specs::hash::group_hash_axioms;

/// The 128 bits are those of a random UUID: version 4 in the RFC 4122 variant.
pub open spec fn is_random_uuid(bits: u128) -> bool {
    &&& (bits >> 76) & 0xf == 4
    &&& (bits >> 62) & 0x3 == 2
}

/// Draws a fresh id with `uuid::Uuid::new_v4`, as the 128 bits that `Uuid::as_u128` gives.
///
/// The id is random. Whatever it is, its bits carry the version and the variant of a random UUID,
/// and nothing else is claimed of it: not even that it differs from the ids drawn before. The call
/// does not return where the operating system has no random bytes to give.
#[verifier::external_body]
pub(crate) fn random_id() -> (r: u128)
    ensures
        is_random_uuid(r),
{
    uuid::Uuid::new_v4().as_u128()
}

/// The id `base` with the bits of `n` turned over in those bits of it that carry neither the version
/// nor the variant.
pub open spec fn sibling_id(base: u128, n: u128) -> u128 {
    base ^ ((n & 0x3fff_ffff_ffff_ffff) | ((n >> 62) << 64))
}

/// How many siblings of an id are told apart.
pub const SIBLINGS: u128 = 0x400_0000_0000_0000_0000;

/// A sibling of the id of a random UUID is the id of one, and the first is the id itself.
pub proof fn sibling_is_random_uuid(base: u128, n: u128)
    requires
        is_random_uuid(base),
        n < SIBLINGS,
    ensures
        is_random_uuid(sibling_id(base, n)),
        sibling_id(base, 0) == base,
{
    assert(((base ^ ((n & 0x3fff_ffff_ffff_ffff) | ((n >> 62) << 64))) >> 76) & 0xf == (base >> 76)
        & 0xf) by (bit_vector)
        requires
            n < 0x400_0000_0000_0000_0000,
    ;
    assert(((base ^ ((n & 0x3fff_ffff_ffff_ffff) | ((n >> 62) << 64))) >> 62) & 0x3 == (base >> 62)
        & 0x3) by (bit_vector)
        requires
            n < 0x400_0000_0000_0000_0000,
    ;
    assert(base ^ ((0u128 & 0x3fff_ffff_ffff_ffff) | ((0u128 >> 62) << 64)) == base) by (bit_vector);
}

/// Siblings under different numbers differ.
pub proof fn siblings_differ(base: u128, m: u128, n: u128)
    requires
        m < SIBLINGS,
        n < SIBLINGS,
        m != n,
    ensures
        sibling_id(base, m) != sibling_id(base, n),
{
    assert(base ^ ((m & 0x3fff_ffff_ffff_ffff) | ((m >> 62) << 64)) != base ^ ((n
        & 0x3fff_ffff_ffff_ffff) | ((n >> 62) << 64))) by (bit_vector)
        requires
            m < 0x400_0000_0000_0000_0000,
            n < 0x400_0000_0000_0000_0000,
            m != n,
    ;
}

/// Of the first siblings of an id, no more are in use than there are ids in use.
pub proof fn siblings_run_out(base: u128, n: u128, used: Set<u128>)
    requires
        n <= SIBLINGS,
        used.finite(),
        forall|j: u128| j < n ==> used.contains(#[trigger] sibling_id(base, j)),
    ensures
        n <= used.len(),
{
    let ids = Seq::new(n as nat, |j: int| sibling_id(base, j as u128));
    assert forall|i: int, j: int|
        0 <= i < ids.len() && 0 <= j < ids.len() && i != j implies ids[i] != ids[j] by {
        siblings_differ(base, i as u128, j as u128);
    }
    ids.unique_seq_to_set();
    assert(ids.to_set().subset_of(used)) by {
        assert forall|id: u128| ids.to_set().contains(id) implies used.contains(id) by {
            let i = choose|i: int| 0 <= i < ids.len() && ids[i] == id;
            assert(id == sibling_id(base, i as u128));
        }
    }
    vstd::set_lib::lemma_len_subset(ids.to_set(), used);
}

/// A sibling of an id.
pub(crate) fn sibling(base: u128, n: u128) -> (r: u128)
    ensures
        r == sibling_id(base, n),
{
    base ^ ((n & 0x3fff_ffff_ffff_ffff) | ((n >> 62) << 64))
}

/// The entries of each stored block, by the block's id.
pub type StoreModel<K, V> = Map<u128, Seq<EntryModel<K, V>>>;

/// The stored blocks.
pub struct BlockManager<K, V> {
    pub blocks: HashMap<u128, Block<K, V>>,
}

impl<K: ArrowWriteableKey, V: ArrowWriteableValue> View for BlockManager<K, V> {
    type V = StoreModel<K, V>;

    open spec fn view(&self) -> StoreModel<K, V> {
        self.blocks@.map_values(|b: Block<K, V>| b.entries@)
    }
}

impl<K: ArrowWriteableKey, V: ArrowWriteableValue> BlockManager<K, V> {
    /// Every block stands under its own id with its entries in order.
    pub open spec fn wf(self) -> bool {
        forall|id: u128| #[trigger]
            self.blocks@.contains_key(id) ==> self.blocks@[id].wf() && self.blocks@[id].id == id
    }

    /// A manager without blocks.
    pub fn new() -> (r: Self)
        ensures
            r.wf(),
            r@ == Map::<u128, Seq<EntryModel<K, V>>>::empty(),
    {
        let r = BlockManager { blocks: HashMap::new() };
        assert(r@ =~= Map::<u128, Seq<EntryModel<K, V>>>::empty());
        r
    }

    /// Whether every block stands under its own id with its entries in order.
    pub fn is_wf(&self) -> (r: bool)
        ensures
            r == self.wf(),
    {
        let ghost blocks = self.blocks@;
        for id in iter: self.blocks.keys()
            invariant
                blocks == self.blocks@,
                iter.seq().unref().to_set() == blocks.dom(),
                forall|j: int|
                    0 <= j < iter.index() ==> blocks[#[trigger] iter.seq().unref()[j]].wf()
                        && blocks[iter.seq().unref()[j]].id == iter.seq().unref()[j],
        {
            proof {
                assert(iter.seq().unref()[iter.index()] == *id);
                assert(iter.seq().unref().to_set().contains(*id));
            }
            match self.blocks.get(id) {
                Some(block) => {
                    if block.id != *id || !block.entries.is_sorted() {
                        assert(blocks.contains_key(*id));
                        return false;
                    }
                },
                None => {
                    return false;
                },
            }
        }
        assert forall|id: u128| #[trigger] self.blocks@.contains_key(id) implies self.blocks@[id].wf()
            && self.blocks@[id].id == id by {
            assert(blocks.dom().contains(id));
        }
        true
    }

    /// A manager of the same blocks.
    pub fn duplicate(&self) -> (r: Self)
        requires
            self.wf(),
        ensures
            r.wf(),
            r@ == self@,
    {
        let mut r: Self = BlockManager::new();
        let ghost blocks = self.blocks@;
        for block in iter: self.blocks.values()
            invariant
                blocks == self.blocks@,
                self.wf(),
                r.wf(),
                iter.seq().unref().to_set() == blocks.values(),
                forall|j: int|
                    0 <= j < iter.index() ==> r@.contains_key((#[trigger] iter.seq().unref()[j]).id),
                forall|id: u128| #[trigger]
                    r@.contains_key(id) ==> self@.contains_key(id) && r@[id] == self@[id],
        {
            proof {
                assert(iter.seq().unref()[iter.index()] == *block);
                assert(iter.seq().unref().to_set().contains(*block));
                assert(blocks.values().contains(*block));
                assert(blocks[block.id] == *block);
            }
            r.insert(block.duplicate());
        }
        assert forall|id: u128| self@.contains_key(id) implies r@.contains_key(id) by {
            assert(blocks.values().contains(blocks[id]));
        }
        assert(r@ =~= self@);
        r
    }

    /// A random id that no stored block has: the one that is drawn, or else the first of its
    /// siblings that is not in use.
    pub(crate) fn unused_id(&self) -> (r: u128)
        ensures
            is_random_uuid(r),
            !self@.contains_key(r),
    {
        let base: u128 = random_id();
        let ghost used = self.blocks@.dom();
        let mut id: u128 = base;
        let mut n: u128 = 0;
        proof {
            sibling_is_random_uuid(base, 0);
            assert(self.blocks.len() == used.len());
        }
        while self.blocks.contains_key(&id)
            invariant
                is_random_uuid(base),
                used == self.blocks@.dom(),
                used.finite(),
                used.len() <= usize::MAX,
                n <= used.len(),
                id == sibling_id(base, n),
                forall|j: u128| j < n ==> used.contains(#[trigger] sibling_id(base, j)),
            decreases used.len() - n,
        {
            proof {
                siblings_run_out(base, (n + 1) as u128, used);
            }
            n = n + 1;
            id = sibling(base, n);
        }
        proof {
            sibling_is_random_uuid(base, n);
        }
        id
    }

    /// An empty delta under a random id that no stored block has.
    pub fn create(&self) -> (r: BlockDelta<K, V>)
        ensures
            is_random_uuid(r.id),
            !self@.contains_key(r.id),
            r.entries@ == Seq::<EntryModel<K, V>>::empty(),
            r.wf(),
    {
        BlockDelta::new(self.unused_id())
    }

    /// The stored block with the given id, where there is one.
    pub fn get(&self, id: &u128) -> (r: Option<&Block<K, V>>)
        requires
            self.wf(),
        ensures
            match r {
                Some(b) => {
                    &&& self@.contains_key(*id)
                    &&& b.entries@ == self@[*id]
                    &&& b.id == *id
                    &&& b.wf()
                },
                None => !self@.contains_key(*id),
            },
    {
        self.blocks.get(id)
    }

    /// A delta with the id `new_id` and the entries of the stored block `id`.
    pub fn fork(&self, id: &u128, new_id: u128) -> (r: BlockDelta<K, V>)
        requires
            self.wf(),
            self@.contains_key(*id),
        ensures
            r.id == new_id,
            r.entries@ == self@[*id],
            r.wf(),
    {
        match self.blocks.get(id) {
            Some(block) => BlockDelta { id: new_id, entries: block.entries.duplicate() },
            None => BlockDelta::new(new_id),
        }
    }

    /// Stores a block under its id.
    pub fn insert(&mut self, block: Block<K, V>)
        requires
            old(self).wf(),
            block.wf(),
        ensures
            final(self).wf(),
            final(self)@ == old(self)@.insert(block.id, block.entries@),
    {
        let ghost before = self@;
        let ghost (id, entries) = (block.id, block.entries@);
        self.blocks.insert(block.id, block);
        assert(self@ =~= before.insert(id, entries));
    }

    /// Stores the entries of a delta as a block with the delta's id.
    pub fn commit(&mut self, delta: &BlockDelta<K, V>)
        requires
            old(self).wf(),
            delta.wf(),
        ensures
            final(self).wf(),
            final(self)@ == old(self)@.insert(delta.id, delta.entries@),
    {
        self.insert(Block { id: delta.id, entries: delta.entries.duplicate() });
    }
}

/// The committed sparse indexes.
pub struct SparseIndexManager<K> {
    pub indexes: HashMap<u128, SparseIndex<K>>,
}

impl<K: ArrowWriteableKey> View for SparseIndexManager<K> {
    type V = Map<u128, IndexModel<K>>;

    open spec fn view(&self) -> Map<u128, IndexModel<K>> {
        self.indexes@.map_values(|ix: SparseIndex<K>| ix@)
    }
}

impl<K: ArrowWriteableKey> SparseIndexManager<K> {
    /// Every index is valid, names a block, and stands under the id of its blockfile.
    pub open spec fn wf(self) -> bool {
        forall|id: u128| #[trigger]
            self.indexes@.contains_key(id) ==> {
                &&& index_valid::<K>(self.indexes@[id]@)
                &&& self.indexes@[id]@.len() > 0
                &&& self.indexes@[id].id == id
            }
    }

    /// A manager without indexes.
    pub fn new() -> (r: Self)
        ensures
            r.wf(),
            r@ == Map::<u128, IndexModel<K>>::empty(),
    {
        let r = SparseIndexManager { indexes: HashMap::new() };
        assert(r@ =~= Map::<u128, IndexModel<K>>::empty());
        r
    }

    /// Whether every index is valid, names a block, and stands under the id of its blockfile.
    pub fn is_wf(&self) -> (r: bool)
        ensures
            r == self.wf(),
    {
        let ghost indexes = self.indexes@;
        for id in iter: self.indexes.keys()
            invariant
                indexes == self.indexes@,
                iter.seq().unref().to_set() == indexes.dom(),
                forall|j: int|
                    0 <= j < iter.index() ==> {
                        let ix = indexes[#[trigger] iter.seq().unref()[j]];
                        &&& index_valid::<K>(ix@)
                        &&& ix@.len() > 0
                        &&& ix.id == iter.seq().unref()[j]
                    },
        {
            proof {
                assert(iter.seq().unref()[iter.index()] == *id);
                assert(iter.seq().unref().to_set().contains(*id));
            }
            match self.indexes.get(id) {
                Some(index) => {
                    if index.id != *id || index.len() == 0 || !index.is_valid() {
                        assert(indexes.contains_key(*id));
                        return false;
                    }
                },
                None => {
                    return false;
                },
            }
        }
        assert forall|id: u128| #[trigger] self.indexes@.contains_key(id) implies index_valid::<K>(
            self.indexes@[id]@,
        ) && self.indexes@[id]@.len() > 0 && self.indexes@[id].id == id by {
            assert(indexes.dom().contains(id));
        }
        true
    }

    /// A manager of the same indexes.
    pub fn duplicate(&self) -> (r: Self)
        requires
            self.wf(),
        ensures
            r.wf(),
            r@ == self@,
    {
        let mut r: Self = SparseIndexManager::new();
        let ghost indexes = self.indexes@;
        for index in iter: self.indexes.values()
            invariant
                indexes == self.indexes@,
                self.wf(),
                r.wf(),
                iter.seq().unref().to_set() == indexes.values(),
                forall|j: int|
                    0 <= j < iter.index() ==> r@.contains_key((#[trigger] iter.seq().unref()[j]).id),
                forall|id: u128| #[trigger]
                    r@.contains_key(id) ==> self@.contains_key(id) && r@[id] == self@[id],
        {
            proof {
                assert(iter.seq().unref()[iter.index()] == *index);
                assert(iter.seq().unref().to_set().contains(*index));
                assert(indexes.values().contains(*index));
                assert(indexes[index.id] == *index);
            }
            r.commit(index.fork(index.id));
        }
        assert forall|id: u128| self@.contains_key(id) implies r@.contains_key(id) by {
            assert(indexes.values().contains(indexes[id]));
        }
        assert(r@ =~= self@);
        r
    }

    /// The committed index of the blockfile `id`, where there is one.
    pub fn get(&self, id: &u128) -> (r: Option<&SparseIndex<K>>)
        requires
            self.wf(),
        ensures
            match r {
                Some(ix) => {
                    &&& self@.contains_key(*id)
                    &&& ix@ == self@[*id]
                    &&& ix.id == *id
                    &&& index_valid::<K>(ix@)
                    &&& ix@.len() > 0
                },
                None => !self@.contains_key(*id),
            },
    {
        self.indexes.get(id)
    }

    /// Stores an index under the id of its blockfile.
    pub fn commit(&mut self, index: SparseIndex<K>)
        requires
            old(self).wf(),
            index_valid::<K>(index@),
            index@.len() > 0,
        ensures
            final(self).wf(),
            final(self)@ == old(self)@.insert(index.id, index@),
    {
        let ghost before = self@;
        let ghost (id, model) = (index.id, index@);
        self.indexes.insert(index.id, index);
        assert(self@ =~= before.insert(id, model));
    }
}

} // verus!
