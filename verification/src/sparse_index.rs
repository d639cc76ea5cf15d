//! The sparse index: which block holds the keys from where on.

use crate::key::{group_key_order, key_precedes, ArrowWriteableKey, CompositeKey, KeyModel};
use vstd::prelude::*;

verus! {

/// What a sparse index stands for: the blocks in order, each with the key it starts at. `None` is
/// the start of the file.
pub type IndexModel<K> = Seq<(Option<KeyModel<K>>, u128)>;

/// A block that starts at `start` may hold `k`: it does not start after it.
pub open spec fn reaches<K: ArrowWriteableKey>(start: Option<KeyModel<K>>, k: KeyModel<K>) -> bool {
    match start {
        None => true,
        Some(s) => !key_precedes::<K>(k, s),
    }
}

/// The first block starts at the start of the file, and the others at increasing keys.
pub open spec fn index_valid<K: ArrowWriteableKey>(ix: IndexModel<K>) -> bool {
    &&& ix.len() > 0 ==> ix[0].0 is None
    &&& forall|i: int| 0 < i < ix.len() ==> (#[trigger] ix[i]).0 is Some
    &&& forall|i: int, j: int|
        0 < i < j < ix.len() ==> key_precedes::<K>((#[trigger] ix[i]).0->0, (#[trigger] ix[j]).0->0)
}

/// The place of the block for `k`: the last one that does not start after `k`.
pub open spec fn route<K: ArrowWriteableKey>(ix: IndexModel<K>, k: KeyModel<K>) -> int
    decreases ix.len(),
{
    if ix.len() == 0 {
        -1
    } else if reaches::<K>(ix.last().0, k) {
        ix.len() - 1
    } else {
        route::<K>(ix.drop_last(), k)
    }
}

/// The index with a block that starts at `k`, in place of one that does, or after the one that
/// held `k` so far.
pub open spec fn with_block<K: ArrowWriteableKey>(
    ix: IndexModel<K>,
    k: KeyModel<K>,
    id: u128,
) -> IndexModel<K> {
    let i = route::<K>(ix, k);
    if ix[i].0 == Some(k) {
        ix.update(i, (Some(k), id))
    } else {
        ix.insert(i + 1, (Some(k), id))
    }
}

/// The first place in the index that names the block `id` is `i`.
pub open spec fn first_place<K: ArrowWriteableKey>(ix: IndexModel<K>, id: u128, i: int) -> bool {
    &&& 0 <= i < ix.len()
    &&& ix[i].1 == id
    &&& forall|j: int| 0 <= j < i ==> (#[trigger] ix[j]).1 != id
}

/// The index names the block `id`.
pub open spec fn names<K: ArrowWriteableKey>(ix: IndexModel<K>, id: u128) -> bool {
    exists|i: int| 0 <= i < ix.len() && (#[trigger] ix[i]).1 == id
}

/// The index with the block `new`, which starts at `k`, in place of the block `old`. A block at
/// the start of the file stays there.
pub open spec fn with_replaced<K: ArrowWriteableKey>(
    ix: IndexModel<K>,
    old: u128,
    new: u128,
    k: KeyModel<K>,
) -> IndexModel<K> {
    let i = choose|i: int| first_place::<K>(ix, old, i);
    if i == 0 {
        ix.update(0, (None, new))
    } else {
        with_block::<K>(ix.remove(i), k, new)
    }
}

/// In a valid index, the blocks up to the one for `k` do not start after `k`, and the others do.
pub proof fn route_separates<K: ArrowWriteableKey>(ix: IndexModel<K>, k: KeyModel<K>)
    requires
        index_valid::<K>(ix),
        ix.len() > 0,
    ensures
        0 <= route::<K>(ix, k) < ix.len(),
        forall|i: int| 0 <= i <= route::<K>(ix, k) ==> reaches::<K>((#[trigger] ix[i]).0, k),
        forall|i: int|
            route::<K>(ix, k) < i < ix.len() ==> !reaches::<K>((#[trigger] ix[i]).0, k),
    decreases ix.len(),
{
    broadcast use group_key_order;

    let last = ix.len() - 1;
    if reaches::<K>(ix.last().0, k) {
        assert forall|i: int| 0 <= i <= last implies reaches::<K>((#[trigger] ix[i]).0, k) by {
            if 0 < i < last {
                assert(key_precedes::<K>(ix[i].0->0, ix[last].0->0));
            }
        }
    } else {
        let t = ix.drop_last();
        assert(t.len() > 0);
        assert(index_valid::<K>(t)) by {
            assert(t[0] == ix[0]);
            assert forall|i: int| 0 < i < t.len() implies (#[trigger] t[i]).0 is Some by {
                assert(t[i] == ix[i]);
            }
            assert forall|i: int, j: int| 0 < i < j < t.len() implies key_precedes::<K>(
                (#[trigger] t[i]).0->0,
                (#[trigger] t[j]).0->0,
            ) by {
                assert(t[i] == ix[i] && t[j] == ix[j]);
            }
        }
        route_separates::<K>(t, k);
        let r = route::<K>(ix, k);
        assert forall|i: int| 0 <= i <= r implies reaches::<K>((#[trigger] ix[i]).0, k) by {
            assert(t[i] == ix[i]);
        }
        assert forall|i: int| r < i < ix.len() implies !reaches::<K>((#[trigger] ix[i]).0, k) by {
            if i < last {
                assert(t[i] == ix[i]);
            }
        }
    }
}

/// The place between the blocks that start after `k` and those that do not is that for `k`.
pub proof fn route_at<K: ArrowWriteableKey>(ix: IndexModel<K>, k: KeyModel<K>, i: int)
    requires
        0 <= i < ix.len(),
        reaches::<K>(ix[i].0, k),
        forall|j: int| i < j < ix.len() ==> !reaches::<K>((#[trigger] ix[j]).0, k),
    ensures
        route::<K>(ix, k) == i,
    decreases ix.len(),
{
    if i < ix.len() - 1 {
        let t = ix.drop_last();
        assert(t[i] == ix[i]);
        assert forall|j: int| i < j < t.len() implies !reaches::<K>((#[trigger] t[j]).0, k) by {
            assert(t[j] == ix[j]);
        }
        route_at::<K>(t, k, i);
    }
}

/// Adding a block keeps the index valid.
pub proof fn with_block_valid<K: ArrowWriteableKey>(ix: IndexModel<K>, k: KeyModel<K>, id: u128)
    requires
        index_valid::<K>(ix),
        ix.len() > 0,
    ensures
        index_valid::<K>(with_block::<K>(ix, k, id)),
        with_block::<K>(ix, k, id).len() >= ix.len(),
        with_block::<K>(ix, k, id).len() <= ix.len() + 1,
{
    broadcast use group_key_order;

    let r = route::<K>(ix, k);
    let t = with_block::<K>(ix, k, id);
    route_separates::<K>(ix, k);
    if ix[r].0 == Some(k) {
        assert forall|i: int| 0 < i < t.len() implies (#[trigger] t[i]).0 is Some by {
            assert(ix[i].0 is Some);
        }
        assert forall|i: int, j: int| 0 < i < j < t.len() implies key_precedes::<K>(
            (#[trigger] t[i]).0->0,
            (#[trigger] t[j]).0->0,
        ) by {
            assert(t[i].0 == ix[i].0 && t[j].0 == ix[j].0);
        }
    } else {
        assert forall|i: int| 0 < i < t.len() implies (#[trigger] t[i]).0 is Some by {
            if i <= r {
                assert(t[i] == ix[i]);
            } else if i > r + 1 {
                assert(t[i] == ix[i - 1]);
            }
        }
        assert forall|i: int, j: int| 0 < i < j < t.len() implies key_precedes::<K>(
            (#[trigger] t[i]).0->0,
            (#[trigger] t[j]).0->0,
        ) by {
            let i2 = if i > r + 1 { i - 1 } else { i };
            let j2 = if j > r + 1 { j - 1 } else { j };
            if i != r + 1 {
                assert(t[i] == ix[i2]);
                assert(ix[i2].0 is Some);
            }
            if j != r + 1 {
                assert(t[j] == ix[j2]);
                assert(ix[j2].0 is Some);
            }
            if i == r + 1 {
                assert(!reaches::<K>(ix[j2].0, k));
            } else if j == r + 1 {
                assert(reaches::<K>(ix[i2].0, k));
                if ix[i2].0->0 == k {
                    if i2 < r {
                        assert(ix[r].0 is Some);
                        assert(key_precedes::<K>(ix[i2].0->0, ix[r].0->0));
                        assert(reaches::<K>(ix[r].0, k));
                    }
                }
            } else {
                assert(i2 < j2);
            }
        }
    }
}

/// Taking out a block other than the first keeps the index valid.
pub proof fn remove_valid<K: ArrowWriteableKey>(ix: IndexModel<K>, p: int)
    requires
        index_valid::<K>(ix),
        0 < p < ix.len(),
    ensures
        index_valid::<K>(ix.remove(p)),
        ix.remove(p).len() > 0,
{
    let t = ix.remove(p);
    assert(t[0] == ix[0]);
    assert forall|i: int| 0 < i < t.len() implies (#[trigger] t[i]).0 is Some by {
        let i2 = if i >= p { i + 1 } else { i };
        assert(t[i] == ix[i2]);
    }
    assert forall|i: int, j: int| 0 < i < j < t.len() implies key_precedes::<K>(
        (#[trigger] t[i]).0->0,
        (#[trigger] t[j]).0->0,
    ) by {
        let i2 = if i >= p { i + 1 } else { i };
        let j2 = if j >= p { j + 1 } else { j };
        assert(t[i] == ix[i2] && t[j] == ix[j2]);
    }
}

/// Two first places of one block are the same.
pub proof fn first_place_unique<K: ArrowWriteableKey>(ix: IndexModel<K>, id: u128, i: int, j: int)
    requires
        first_place::<K>(ix, id, i),
        first_place::<K>(ix, id, j),
    ensures
        i == j,
{
    if i < j {
        assert(ix[i].1 != id);
    } else if j < i {
        assert(ix[j].1 != id);
    }
}

/// A block that the index names has a first place.
pub proof fn first_place_exists<K: ArrowWriteableKey>(ix: IndexModel<K>, id: u128) -> (p: int)
    requires
        names::<K>(ix, id),
    ensures
        first_place::<K>(ix, id, p),
        p == (choose|i: int| first_place::<K>(ix, id, i)),
{
    let i = choose|i: int| 0 <= i < ix.len() && (#[trigger] ix[i]).1 == id;
    first_place_before::<K>(ix, id, i)
}

/// A block named at the place `i` has a first place.
proof fn first_place_before<K: ArrowWriteableKey>(ix: IndexModel<K>, id: u128, i: int) -> (p: int)
    requires
        0 <= i < ix.len(),
        ix[i].1 == id,
    ensures
        first_place::<K>(ix, id, p),
        p == (choose|i: int| first_place::<K>(ix, id, i)),
    decreases i,
{
    if exists|j: int| 0 <= j < i && (#[trigger] ix[j]).1 == id {
        let j = choose|j: int| 0 <= j < i && (#[trigger] ix[j]).1 == id;
        first_place_before::<K>(ix, id, j)
    } else {
        assert(first_place::<K>(ix, id, i));
        let q = choose|q: int| first_place::<K>(ix, id, q);
        first_place_unique::<K>(ix, id, i, q);
        q
    }
}

/// An index with the starts of a valid one is valid and routes a key to the same place.
pub proof fn same_starts<K: ArrowWriteableKey>(
    a: IndexModel<K>,
    b: IndexModel<K>,
    k: KeyModel<K>,
)
    requires
        index_valid::<K>(a),
        a.len() > 0,
        a.len() == b.len(),
        forall|i: int| 0 <= i < a.len() ==> (#[trigger] a[i]).0 == (#[trigger] b[i]).0,
    ensures
        index_valid::<K>(b),
        route::<K>(b, k) == route::<K>(a, k),
{
    route_separates::<K>(a, k);
    let r = route::<K>(a, k);
    assert(a[r].0 == b[r].0);
    assert forall|j: int| r < j < b.len() implies !reaches::<K>((#[trigger] b[j]).0, k) by {
        assert(a[j].0 == b[j].0);
    }
    route_at::<K>(b, k, r);
    assert(a[0].0 == b[0].0);
    assert forall|i: int| 0 < i < b.len() implies (#[trigger] b[i]).0 is Some by {
        assert(a[i].0 == b[i].0);
    }
    assert forall|i: int, j: int| 0 < i < j < b.len() implies key_precedes::<K>(
        (#[trigger] b[i]).0->0,
        (#[trigger] b[j]).0->0,
    ) by {
        assert(a[i].0 == b[i].0 && a[j].0 == b[j].0);
    }
}

/// Replacing a block keeps the index valid.
pub proof fn with_replaced_valid<K: ArrowWriteableKey>(
    ix: IndexModel<K>,
    old: u128,
    new: u128,
    k: KeyModel<K>,
)
    requires
        index_valid::<K>(ix),
        names::<K>(ix, old),
    ensures
        index_valid::<K>(with_replaced::<K>(ix, old, new, k)),
        with_replaced::<K>(ix, old, new, k).len() > 0,
{
    let p = first_place_exists::<K>(ix, old);
    if p == 0 {
        same_starts::<K>(ix, with_replaced::<K>(ix, old, new, k), k);
    } else {
        remove_valid::<K>(ix, p);
        with_block_valid::<K>(ix.remove(p), k, new);
    }
}

/// The key `x` belongs to the block at the place `p`: it is not before the start of that block, and
/// before the start of the next one.
pub open spec fn in_range<K: ArrowWriteableKey>(ix: IndexModel<K>, p: int, x: KeyModel<K>) -> bool {
    &&& p == 0 || !key_precedes::<K>(x, ix[p].0->0)
    &&& p + 1 == ix.len() || key_precedes::<K>(x, ix[p + 1].0->0)
}

/// A key belongs to the block that starts in time for it and whose next one does not.
pub proof fn route_is_between_starts<K: ArrowWriteableKey>(
    ix: IndexModel<K>,
    k: KeyModel<K>,
    q: int,
)
    requires
        index_valid::<K>(ix),
        0 <= q < ix.len(),
        q == 0 || !key_precedes::<K>(k, ix[q].0->0),
        q + 1 == ix.len() || key_precedes::<K>(k, ix[q + 1].0->0),
    ensures
        route::<K>(ix, k) == q,
{
    broadcast use group_key_order;

    assert(q > 0 ==> ix[q].0 is Some);
    assert forall|j: int| q < j < ix.len() implies !reaches::<K>((#[trigger] ix[j]).0, k) by {
        assert(ix[j].0 is Some);
        if q + 1 < j {
            assert(key_precedes::<K>(ix[q + 1].0->0, ix[j].0->0));
        }
    }
    route_at::<K>(ix, k, q);
}

/// A block that starts at `k` is added after the block to which `k` belonged, or in its place where
/// that one starts at `k`. The others stay as they are.
pub proof fn block_is_added_at_its_start<K: ArrowWriteableKey>(
    ix: IndexModel<K>,
    k: KeyModel<K>,
    id: u128,
    q: int,
)
    requires
        index_valid::<K>(ix),
        0 <= q < ix.len(),
        q == 0 || !key_precedes::<K>(k, ix[q].0->0),
        q + 1 == ix.len() || key_precedes::<K>(k, ix[q + 1].0->0),
    ensures
        with_block::<K>(ix, k, id) == if ix[q].0 == Some(k) {
            ix.update(q, (Some(k), id))
        } else {
            ix.insert(q + 1, (Some(k), id))
        },
{
    route_is_between_starts::<K>(ix, k, q);
}

/// A block is replaced at the first place that names it. The first block stays the first. Another
/// one leaves its place, and the new block is added at its own start.
pub proof fn block_is_replaced_at_its_first_place<K: ArrowWriteableKey>(
    ix: IndexModel<K>,
    old: u128,
    new: u128,
    k: KeyModel<K>,
    p: int,
)
    requires
        0 <= p < ix.len(),
        ix[p].1 == old,
        forall|j: int| 0 <= j < p ==> (#[trigger] ix[j]).1 != old,
    ensures
        with_replaced::<K>(ix, old, new, k) == if p == 0 {
            ix.update(0, (None, new))
        } else {
            with_block::<K>(ix.remove(p), k, new)
        },
{
    assert(first_place::<K>(ix, old, p));
    let i = choose|i: int| first_place::<K>(ix, old, i);
    first_place_unique::<K>(ix, old, i, p);
}

/// A block of the index: its id, and the key it starts at, or `None` at the start of the file.
pub struct IndexEntry<K> {
    pub start: Option<CompositeKey<K>>,
    pub block: u128,
}

impl<K: ArrowWriteableKey> View for IndexEntry<K> {
    type V = (Option<KeyModel<K>>, u128);

    open spec fn view(&self) -> (Option<KeyModel<K>>, u128) {
        (
            match self.start {
                None => None,
                Some(k) => Some(k@),
            },
            self.block,
        )
    }
}

impl<K: ArrowWriteableKey> IndexEntry<K> {
    /// Whether the block may hold `key`: it does not start after it.
    fn reaches(&self, key: &CompositeKey<K>) -> (r: bool)
        ensures
            r == reaches::<K>(self@.0, key@),
    {
        match &self.start {
            None => true,
            Some(start) => !key.before(start),
        }
    }

    /// The same entry.
    fn duplicate(&self) -> (r: Self)
        ensures
            r@ == self@,
    {
        let start: Option<CompositeKey<K>> = match &self.start {
            None => None,
            Some(start) => Some(start.duplicate()),
        };
        IndexEntry { start, block: self.block }
    }
}

/// The sparse index of the blockfile `id`.
pub struct SparseIndex<K> {
    pub id: u128,
    pub blocks: Vec<IndexEntry<K>>,
}

impl<K: ArrowWriteableKey> View for SparseIndex<K> {
    type V = IndexModel<K>;

    open spec fn view(&self) -> IndexModel<K> {
        self.blocks@.map_values(|e: IndexEntry<K>| e@)
    }
}

impl<K: ArrowWriteableKey> SparseIndex<K> {
    /// An index without blocks.
    pub fn new(id: u128) -> (r: Self)
        ensures
            r.id == id,
            r@ == Seq::<(Option<KeyModel<K>>, u128)>::empty(),
            index_valid::<K>(r@),
    {
        let r = SparseIndex { id, blocks: Vec::new() };
        assert(r@ =~= Seq::<(Option<KeyModel<K>>, u128)>::empty());
        r
    }

    /// Gives an index without blocks its first block, which starts at the start of the file.
    pub fn add_initial_block(&mut self, block_id: u128)
        requires
            old(self)@.len() == 0,
        ensures
            final(self).id == old(self).id,
            final(self)@ == seq![(None::<KeyModel<K>>, block_id)],
            index_valid::<K>(final(self)@),
    {
        self.blocks.push(IndexEntry { start: None, block: block_id });
        assert(self@ =~= seq![(None::<KeyModel<K>>, block_id)]);
    }

    /// The place of the block for `key`.
    fn place(&self, key: &CompositeKey<K>) -> (r: usize)
        requires
            index_valid::<K>(self@),
            self@.len() > 0,
        ensures
            r == route::<K>(self@, key@),
            r < self.blocks@.len(),
    {
        proof {
            route_separates::<K>(self@, key@);
        }
        let ghost p = route::<K>(self@, key@);
        let mut low: usize = 0;
        let mut high: usize = self.blocks.len();
        while high - low > 1
            invariant
                low <= p < high <= self.blocks@.len(),
                self@.len() == self.blocks@.len(),
                p == route::<K>(self@, key@),
                forall|i: int| 0 <= i <= p ==> reaches::<K>((#[trigger] self@[i]).0, key@),
                forall|i: int| p < i < self@.len() ==> !reaches::<K>((#[trigger] self@[i]).0, key@),
            decreases high - low,
        {
            let middle: usize = low + (high - low) / 2;
            assert(self@[middle as int] == self.blocks@[middle as int]@);
            if self.blocks[middle].reaches(key) {
                low = middle;
            } else {
                high = middle;
            }
        }
        low
    }

    /// The block for `key`: the last one that does not start after it.
    pub fn get_target_block_id(&self, key: &CompositeKey<K>) -> (r: u128)
        requires
            index_valid::<K>(self@),
            self@.len() > 0,
        ensures
            r == self@[route::<K>(self@, key@)].1,
            exists|p: int|
                {
                    &&& 0 <= p < self@.len()
                    &&& #[trigger] in_range::<K>(self@, p, key@)
                    &&& r == self@[p].1
                },
    {
        let at: usize = self.place(key);
        assert(self@[at as int] == self.blocks@[at as int]@);
        proof {
            route_separates::<K>(self@, key@);
            assert(reaches::<K>(self@[at as int].0, key@));
            if at + 1 < self@.len() {
                assert(!reaches::<K>(self@[at + 1].0, key@));
            }
            assert(in_range::<K>(self@, at as int, key@));
        }
        self.blocks[at].block
    }

    /// Adds a block that starts at `start_key`, in place of one that does.
    pub fn add_block(&mut self, start_key: CompositeKey<K>, block_id: u128)
        requires
            index_valid::<K>(old(self)@),
            old(self)@.len() > 0,
        ensures
            final(self).id == old(self).id,
            final(self)@ == with_block::<K>(old(self)@, start_key@, block_id),
            index_valid::<K>(final(self)@),
            final(self)@.len() > 0,
    {
        broadcast use group_key_order;

        let at: usize = self.place(&start_key);
        let ghost before = self@;
        let ghost k = start_key@;
        proof {
            with_block_valid::<K>(before, k, block_id);
            route_separates::<K>(before, k);
            assert(before[at as int] == self.blocks@[at as int]@);
        }
        let replaces: bool = match &self.blocks[at].start {
            None => false,
            Some(start) => !start.before(&start_key),
        };
        assert(replaces == (before[at as int].0 == Some(k))) by {
            assert(reaches::<K>(before[at as int].0, k));
        }
        let entry = IndexEntry { start: Some(start_key), block: block_id };
        if replaces {
            self.blocks[at] = entry;
            assert(self@ =~= before.update(at as int, (Some(k), block_id)));
        } else {
            assert(at < self.blocks.len());
            self.blocks.insert(at + 1, entry);
            assert(self@ =~= before.insert(at + 1, (Some(k), block_id)));
        }
    }

    /// Puts the block `new_block_id`, which starts at `new_start_key`, in place of the block
    /// `old_block_id`. A block at the start of the file stays there.
    pub fn replace_block(
        &mut self,
        old_block_id: u128,
        new_block_id: u128,
        new_start_key: CompositeKey<K>,
    )
        requires
            index_valid::<K>(old(self)@),
            names::<K>(old(self)@, old_block_id),
        ensures
            final(self).id == old(self).id,
            final(self)@ == with_replaced::<K>(
                old(self)@,
                old_block_id,
                new_block_id,
                new_start_key@,
            ),
            index_valid::<K>(final(self)@),
            final(self)@.len() > 0,
    {
        let ghost before = self@;
        let mut at: usize = 0;
        while self.blocks[at].block != old_block_id
            invariant
                before == self@,
                names::<K>(before, old_block_id),
                at < self.blocks@.len(),
                forall|j: int| 0 <= j < at ==> (#[trigger] before[j]).1 != old_block_id,
            decreases self.blocks@.len() - at,
        {
            assert(before[at as int] == self.blocks@[at as int]@);
            assert(at + 1 < before.len()) by {
                let i = choose|i: int| 0 <= i < before.len() && (#[trigger] before[i]).1 == old_block_id;
                assert(i > at);
            }
            assert(at < self.blocks.len());
            at = at + 1;
        }
        proof {
            assert(before[at as int] == self.blocks@[at as int]@);
            assert(first_place::<K>(before, old_block_id, at as int));
            let i = choose|i: int| first_place::<K>(before, old_block_id, i);
            first_place_unique::<K>(before, old_block_id, i, at as int);
            with_replaced_valid::<K>(before, old_block_id, new_block_id, new_start_key@);
        }
        if at == 0 {
            self.blocks[0] = IndexEntry { start: None, block: new_block_id };
            assert(self@ =~= before.update(0, (None, new_block_id)));
        } else {
            self.blocks.remove(at);
            proof {
                assert(self@ =~= before.remove(at as int));
                remove_valid::<K>(before, at as int);
            }
            self.add_block(new_start_key, new_block_id);
        }
    }

    /// Whether the index names the block `block_id`.
    pub fn names_block(&self, block_id: u128) -> (r: bool)
        ensures
            r <==> exists|i: int| 0 <= i < self@.len() && (#[trigger] self@[i]).1 == block_id,
    {
        let mut i: usize = 0;
        while i < self.blocks.len()
            invariant
                i <= self.blocks@.len(),
                forall|j: int| 0 <= j < i ==> (#[trigger] self@[j]).1 != block_id,
            decreases self.blocks@.len() - i,
        {
            assert(self@[i as int] == self.blocks@[i as int]@);
            if self.blocks[i].block == block_id {
                return true;
            }
            i = i + 1;
        }
        false
    }

    /// How many blocks the index names.
    pub fn len(&self) -> (r: usize)
        ensures
            r == self@.len(),
    {
        self.blocks.len()
    }

    /// Whether the first block starts at the start of the file and the others at increasing keys.
    pub fn is_valid(&self) -> (r: bool)
        ensures
            r == index_valid::<K>(self@),
    {
        let ghost ix = self@;
        if self.blocks.len() == 0 {
            return true;
        }
        assert(ix[0] == self.blocks@[0]@);
        if self.blocks[0].start.is_some() {
            return false;
        }
        let mut i: usize = 1;
        while i < self.blocks.len()
            invariant
                ix == self@,
                1 <= i <= self.blocks@.len(),
                ix[0].0 is None,
                forall|j: int| 0 < j < i ==> (#[trigger] ix[j]).0 is Some,
                forall|a: int, b: int|
                    0 < a < b < i ==> key_precedes::<K>(
                        (#[trigger] ix[a]).0->0,
                        (#[trigger] ix[b]).0->0,
                    ),
            decreases self.blocks@.len() - i,
        {
            assert(ix[i as int] == self.blocks@[i as int]@);
            match &self.blocks[i].start {
                None => {
                    return false;
                },
                Some(start) => {
                    if i > 1 {
                        assert(ix[i - 1] == self.blocks@[i - 1]@);
                        assert(ix[i - 1].0 is Some);
                        match &self.blocks[i - 1].start {
                            None => {
                                return false;
                            },
                            Some(previous) => {
                                if !previous.before(start) {
                                    assert(!key_precedes::<K>(ix[i - 1].0->0, ix[i as int].0->0));
                                    return false;
                                }
                            },
                        }
                    }
                },
            }
            proof {
                broadcast use group_key_order;

                assert forall|a: int, b: int| 0 < a < b < i + 1 implies key_precedes::<K>(
                    (#[trigger] ix[a]).0->0,
                    (#[trigger] ix[b]).0->0,
                ) by {
                    if b == i && a < i - 1 {
                        assert(key_precedes::<K>(ix[a].0->0, ix[i - 1].0->0));
                    }
                }
            }
            i = i + 1;
        }
        true
    }

    /// The same index for the blockfile `id`.
    pub fn fork(&self, id: u128) -> (r: Self)
        ensures
            r.id == id,
            r@ == self@,
    {
        let mut blocks: Vec<IndexEntry<K>> = Vec::new();
        let mut i: usize = 0;
        while i < self.blocks.len()
            invariant
                i <= self.blocks@.len(),
                blocks@.len() == i,
                forall|j: int| 0 <= j < i ==> (#[trigger] blocks@[j])@ == self.blocks@[j]@,
            decreases self.blocks@.len() - i,
        {
            blocks.push(self.blocks[i].duplicate());
            i = i + 1;
        }
        let r = SparseIndex { id, blocks };
        assert(r@ =~= self@);
        r
    }
}

} // verus!
