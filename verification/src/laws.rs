//! What holds of a blockfile across its operations.

use crate::block::{
    find, find_at, has_key, put, put_find, put_sorted, rank, rank_separates, sorted,
    subrange_sorted, EntryModel,
};
use crate::key::{group_key_order, key_precedes, ArrowWriteableKey, KeyModel};
use crate::model::FileModel;
use crate::provider::StoreModel;
use crate::size::{fits, prefix_size, split_point, split_point_range};
use crate::sparse_index::{
    first_place, first_place_unique, index_valid, names, reaches, remove_valid, route, route_at,
    route_separates, same_starts, with_block, with_block_valid, with_replaced, with_replaced_valid,
    IndexModel,
};
use crate::value::ArrowWriteableValue;
use vstd::prelude::*;

verus! {

/// Every block of the index is there, no two places name one block, a block after the first holds
/// an entry at the key it starts at, and the keys of a block precede the start of the next one.
pub open spec fn sound<K: ArrowWriteableKey, V: ArrowWriteableValue>(f: FileModel<K, V>) -> bool {
    &&& index_valid::<K>(f.index)
    &&& f.index.len() > 0
    &&& forall|i: int|
        0 <= i < f.index.len() ==> f.has_block((#[trigger] f.index[i]).1) && sorted::<K, V>(
            f.block(f.index[i].1),
        )
    &&& forall|i: int, j: int|
        0 <= i < j < f.index.len() ==> (#[trigger] f.index[i]).1 != (#[trigger] f.index[j]).1
    &&& forall|i: int|
        0 < i < f.index.len() ==> f.block((#[trigger] f.index[i]).1).len() > 0 && f.index[i].0
            == Some(f.block(f.index[i].1)[0].0)
    &&& forall|i: int, j: int|
        0 <= i < f.index.len() - 1 && 0 <= j < f.block(f.index[i].1).len()
            ==> #[trigger] before_next::<K, V>(f, i, j)
}

/// The key of entry `j` of the block at place `i` precedes the start of the next block.
pub open spec fn before_next<K: ArrowWriteableKey, V: ArrowWriteableValue>(
    f: FileModel<K, V>,
    i: int,
    j: int,
) -> bool {
    key_precedes::<K>(f.block(f.index[i].1)[j].0, f.index[i + 1].0->0)
}

/// The ids that a write of `v` under `k` uses are those of no block.
pub open spec fn ids_fresh<K: ArrowWriteableKey, V: ArrowWriteableValue>(
    f: FileModel<K, V>,
    k: KeyModel<K>,
    v: V::V,
    fork_id: u128,
    split_id: u128,
) -> bool {
    &&& f.forks(k) ==> !f.has_block(fork_id)
    &&& f.splits(k, v) ==> !f.has_block(split_id)
    &&& f.forks(k) && f.splits(k, v) ==> fork_id != split_id
}

/// The write splits the target at a key after `k`, so that the value goes to a block that the
/// index does not give for `k`.
pub open spec fn misplaced<K: ArrowWriteableKey, V: ArrowWriteableValue>(
    f: FileModel<K, V>,
    k: KeyModel<K>,
    v: V::V,
) -> bool {
    f.splits(k, v) && key_precedes::<K>(k, f.split_key(k))
}

/// A block that keeps its start is replaced where it stands.
pub(crate) proof fn replaced_in_place<K: ArrowWriteableKey>(
    ix: IndexModel<K>,
    p: int,
    new: u128,
    k: KeyModel<K>,
)
    requires
        index_valid::<K>(ix),
        0 <= p < ix.len(),
        forall|j: int| 0 <= j < ix.len() && j != p ==> (#[trigger] ix[j]).1 != ix[p].1,
        p > 0 ==> ix[p].0 == Some(k),
    ensures
        with_replaced::<K>(ix, ix[p].1, new, k) == ix.update(p, (ix[p].0, new)),
{
    broadcast use group_key_order;

    let old = ix[p].1;
    assert(first_place::<K>(ix, old, p));
    let q = choose|i: int| first_place::<K>(ix, old, i);
    first_place_unique::<K>(ix, old, p, q);
    if p > 0 {
        let t = ix.remove(p);
        remove_valid::<K>(ix, p);
        assert(t[p - 1] == ix[p - 1]);
        assert(reaches::<K>(t[p - 1].0, k)) by {
            if p - 1 > 0 {
                assert(ix[p - 1].0 is Some);
                assert(key_precedes::<K>(ix[p - 1].0->0, ix[p].0->0));
            }
        }
        assert forall|j: int| p - 1 < j < t.len() implies !reaches::<K>((#[trigger] t[j]).0, k) by {
            assert(t[j] == ix[j + 1]);
            assert(ix[j + 1].0 is Some);
            assert(key_precedes::<K>(ix[p].0->0, ix[j + 1].0->0));
        }
        route_at::<K>(t, k, p - 1);
        assert(t[p - 1].0 != Some(k)) by {
            if p - 1 > 0 {
                assert(key_precedes::<K>(ix[p - 1].0->0, ix[p].0->0));
            }
        }
        assert(t.insert(p, (Some(k), new)) =~= ix.update(p, (Some(k), new)));
    }
}

/// Copying the target of `k` into a fresh delta keeps the blockfile sound and what reads find, and
/// makes the copy the target.
pub(crate) proof fn fork_step<K: ArrowWriteableKey, V: ArrowWriteableValue>(
    f: FileModel<K, V>,
    k: KeyModel<K>,
    new: u128,
)
    requires
        sound::<K, V>(f),
        f.forks(k),
        f.stored[f.target(k)].len() > 0,
        !f.has_block(new),
    ensures
        sound::<K, V>(f.fork(f.target(k), new)),
        f.fork(f.target(k), new).target(k) == new,
        f.fork(f.target(k), new).deltas.contains_key(new),
        f.fork(f.target(k), new).block(new) == f.block(f.target(k)),
        f.fork(f.target(k), new).index == f.index.update(
            route::<K>(f.index, k),
            (f.index[route::<K>(f.index, k)].0, new),
        ),
        forall|x: KeyModel<K>| #[trigger] f.fork(f.target(k), new).lookup(x) == f.lookup(x),
        forall|i: int|
            0 <= i < f.index.len() ==> (#[trigger] f.fork(f.target(k), new).index[i]).0
                == f.index[i].0 && f.fork(f.target(k), new).block(
                f.fork(f.target(k), new).index[i].1,
            ) == f.block(f.index[i].1),
{
    let p = route::<K>(f.index, k);
    let t = f.target(k);
    let g = f.fork(t, new);
    route_separates::<K>(f.index, k);
    assert(f.index[p].1 == t);
    assert(f.has_block(f.index[p].1));
    replaced_in_place::<K>(f.index, p, new, f.stored[t][0].0);
    assert(g.index == f.index.update(p, (f.index[p].0, new)));
    assert forall|i: int| 0 <= i < f.index.len() implies (#[trigger] g.index[i]).0 == f.index[i].0
        && g.has_block(g.index[i].1) && g.block(g.index[i].1) == f.block(f.index[i].1) by {
        assert(f.has_block(f.index[i].1));
        assert(f.index[i].1 != new);
    }
    assert forall|x: KeyModel<K>| #[trigger] g.lookup(x) == f.lookup(x) by {
        same_starts::<K>(f.index, g.index, x);
        route_separates::<K>(f.index, x);
        let r = route::<K>(f.index, x);
        assert(g.index[r].0 == f.index[r].0);
        assert(f.has_block(f.index[r].1));
    }
    same_starts::<K>(f.index, g.index, k);
    assert(sound::<K, V>(g)) by {
        assert forall|i: int| 0 <= i < g.index.len() implies g.has_block((#[trigger] g.index[i]).1)
            && sorted::<K, V>(g.block(g.index[i].1)) by {
            assert(sorted::<K, V>(f.block(f.index[i].1)));
        }
        assert forall|i: int, j: int| 0 <= i < j < g.index.len() implies (#[trigger] g.index[i]).1
            != (#[trigger] g.index[j]).1 by {
            assert(f.index[i].1 != f.index[j].1);
            assert(f.has_block(f.index[i].1) && f.has_block(f.index[j].1));
        }
        assert forall|i: int| 0 < i < g.index.len() implies g.block(
            (#[trigger] g.index[i]).1,
        ).len() > 0 && g.index[i].0 == Some(g.block(g.index[i].1)[0].0) by {
            assert(f.block(f.index[i].1).len() > 0);
        }
        assert forall|i: int, j: int|
            0 <= i < g.index.len() - 1 && 0 <= j < g.block(
                g.index[i].1,
            ).len() implies #[trigger] before_next::<K, V>(g, i, j) by {
            assert(g.index[i].0 == f.index[i].0);
            assert(g.index[i + 1].0 == f.index[i + 1].0);
            assert(before_next::<K, V>(f, i, j));
        }
    }
}

/// Putting a value under a key that is not the smallest keeps the smallest key.
proof fn put_first<K: ArrowWriteableKey, V: ArrowWriteableValue>(
    b: Seq<EntryModel<K, V>>,
    k: KeyModel<K>,
    v: V::V,
)
    requires
        sorted::<K, V>(b),
        b.len() > 0,
        !key_precedes::<K>(k, b[0].0),
    ensures
        put::<K, V>(b, k, v)[0].0 == b[0].0,
{
    broadcast use group_key_order;

    rank_separates::<K, V>(b, k);
    let p = rank::<K, V>(b, k);
    if p == 0 {
        assert(!key_precedes::<K>(b[0].0, k));
    }
}

/// Putting a value under a key before `s` keeps all keys before `s`.
pub(crate) proof fn put_below<K: ArrowWriteableKey, V: ArrowWriteableValue>(
    b: Seq<EntryModel<K, V>>,
    k: KeyModel<K>,
    v: V::V,
    s: KeyModel<K>,
)
    requires
        sorted::<K, V>(b),
        key_precedes::<K>(k, s),
        forall|j: int| 0 <= j < b.len() ==> key_precedes::<K>((#[trigger] b[j]).0, s),
    ensures
        forall|j: int|
            0 <= j < put::<K, V>(b, k, v).len() ==> key_precedes::<K>(
                (#[trigger] put::<K, V>(b, k, v)[j]).0,
                s,
            ),
{
    rank_separates::<K, V>(b, k);
    let p = rank::<K, V>(b, k);
    let q = put::<K, V>(b, k, v);
    assert forall|j: int| 0 <= j < q.len() implies key_precedes::<K>((#[trigger] q[j]).0, s) by {
        if j != p {
            let i = if q.len() > b.len() && j > p { j - 1 } else { j };
            assert(q[j] == b[i]);
        }
    }
}

/// What is found in a sorted block is found in its lower part before the key at `c`, and in its
/// upper part from there on.
pub(crate) proof fn find_in_part<K: ArrowWriteableKey, V: ArrowWriteableValue>(
    b: Seq<EntryModel<K, V>>,
    c: int,
    x: KeyModel<K>,
)
    requires
        sorted::<K, V>(b),
        0 <= c < b.len(),
    ensures
        sorted::<K, V>(b.take(c)),
        sorted::<K, V>(b.skip(c)),
        key_precedes::<K>(x, b[c].0) ==> find::<K, V>(b.take(c), x) == find::<K, V>(b, x),
        !key_precedes::<K>(x, b[c].0) ==> find::<K, V>(b.skip(c), x) == find::<K, V>(b, x),
{
    broadcast use group_key_order;

    subrange_sorted::<K, V>(b, 0, c);
    subrange_sorted::<K, V>(b, c, b.len() as int);
    let (low, high) = (b.take(c), b.skip(c));
    assert(low =~= b.subrange(0, c));
    assert(high =~= b.subrange(c, b.len() as int));
    if has_key::<K, V>(b, x) {
        let i = choose|i: int| 0 <= i < b.len() && (#[trigger] b[i]).0 == x;
        find_at::<K, V>(b, i);
        if i < c {
            assert(key_precedes::<K>(b[i].0, b[c].0));
            assert(low[i] == b[i]);
            find_at::<K, V>(low, i);
        } else {
            if c < i {
                assert(key_precedes::<K>(b[c].0, b[i].0));
            }
            assert(high[i - c] == b[i]);
            find_at::<K, V>(high, i - c);
        }
    } else {
        if has_key::<K, V>(low, x) {
            let i = choose|i: int| 0 <= i < low.len() && (#[trigger] low[i]).0 == x;
            assert(b[i] == low[i]);
        }
        if has_key::<K, V>(high, x) {
            let i = choose|i: int| 0 <= i < high.len() && (#[trigger] high[i]).0 == x;
            assert(b[i + c] == high[i]);
        }
    }
}

/// Adding in place to the target keeps the blockfile sound, makes the value the one found under
/// its key, and leaves the other keys alone.
proof fn add_step<K: ArrowWriteableKey, V: ArrowWriteableValue>(
    f: FileModel<K, V>,
    k: KeyModel<K>,
    v: V::V,
)
    requires
        sound::<K, V>(f),
        !f.forks(k),
    ensures
        sound::<K, V>(f.add_in_place(f.target(k), k, v)),
        f.add_in_place(f.target(k), k, v).lookup(k) == Some(v),
        forall|x: KeyModel<K>|
            x != k ==> #[trigger] f.add_in_place(f.target(k), k, v).lookup(x) == f.lookup(x),
{
    let p = route::<K>(f.index, k);
    let t = f.target(k);
    let b = f.deltas[t];
    let h = f.add_in_place(t, k, v);
    route_separates::<K>(f.index, k);
    assert(f.index[p].1 == t);
    assert(sorted::<K, V>(f.block(f.index[p].1)));
    put_sorted::<K, V>(b, k, v);
    put_find::<K, V>(b, k, v);
    assert forall|i: int| 0 <= i < f.index.len() implies h.has_block((#[trigger] f.index[i]).1)
        && h.block(f.index[i].1) == if i == p {
        put::<K, V>(b, k, v)
    } else {
        f.block(f.index[i].1)
    } by {
        assert(f.has_block(f.index[i].1));
        if i < p {
            assert(f.index[i].1 != f.index[p].1);
        } else if p < i {
            assert(f.index[p].1 != f.index[i].1);
        }
    }
    assert forall|x: KeyModel<K>| x != k implies #[trigger] h.lookup(x) == f.lookup(x) by {
        route_separates::<K>(f.index, x);
        let r = route::<K>(f.index, x);
        assert(f.has_block(f.index[r].1));
        assert(h.has_block(f.index[r].1));
    }
    if p > 0 {
        assert(reaches::<K>(f.index[p].0, k));
        assert(f.block(f.index[p].1).len() > 0);
        put_first::<K, V>(b, k, v);
    }
    if p + 1 < f.index.len() {
        let s = f.index[p + 1].0->0;
        assert(!reaches::<K>(f.index[p + 1].0, k));
        assert forall|j: int| 0 <= j < b.len() implies key_precedes::<K>((#[trigger] b[j]).0, s) by {
            assert(before_next::<K, V>(f, p, j));
        }
        put_below::<K, V>(b, k, v, s);
    }
    assert(sound::<K, V>(h)) by {
        assert forall|i: int| 0 <= i < h.index.len() implies h.has_block((#[trigger] h.index[i]).1)
            && sorted::<K, V>(h.block(h.index[i].1)) by {
            assert(sorted::<K, V>(f.block(f.index[i].1)));
        }
        assert forall|i: int| 0 < i < h.index.len() implies h.block(
            (#[trigger] h.index[i]).1,
        ).len() > 0 && h.index[i].0 == Some(h.block(h.index[i].1)[0].0) by {
            assert(f.block(f.index[i].1).len() > 0);
        }
        assert forall|i: int, j: int|
            0 <= i < h.index.len() - 1 && 0 <= j < h.block(
                h.index[i].1,
            ).len() implies #[trigger] before_next::<K, V>(h, i, j) by {
            assert(f.index[i] == h.index[i]);
            if i != p {
                assert(before_next::<K, V>(f, i, j));
            }
        }
    }
}

/// In a sound blockfile the key at which the target of `k` is split lies in the target.
pub(crate) proof fn split_key_route<K: ArrowWriteableKey, V: ArrowWriteableValue>(
    f: FileModel<K, V>,
    k: KeyModel<K>,
)
    requires
        sound::<K, V>(f),
        f.block(f.target(k)).len() > 0,
    ensures
        0 <= split_point::<K, V>(f.block(f.target(k))) < f.block(f.target(k)).len(),
        route::<K>(f.index, f.split_key(k)) == route::<K>(f.index, k),
{
    broadcast use group_key_order;

    let p = route::<K>(f.index, k);
    let b = f.block(f.target(k));
    let c = split_point::<K, V>(b);
    let s = f.split_key(k);
    route_separates::<K>(f.index, k);
    split_point_range::<K, V>(b);
    assert(f.index[p].1 == f.target(k));
    assert(sorted::<K, V>(f.block(f.index[p].1)));
    assert(reaches::<K>(f.index[p].0, s)) by {
        if p > 0 {
            assert(f.index[p].0 == Some(f.block(f.index[p].1)[0].0));
            if c > 0 {
                assert(key_precedes::<K>(b[0].0, b[c].0));
            }
        }
    }
    assert forall|j: int| p < j < f.index.len() implies !reaches::<K>(
        (#[trigger] f.index[j]).0,
        s,
    ) by {
        assert(f.index[j].0 is Some);
        assert(before_next::<K, V>(f, p, c));
        if p + 1 < j {
            assert(key_precedes::<K>(f.index[p + 1].0->0, f.index[j].0->0));
        }
    }
    route_at::<K>(f.index, s, p);
}

/// Where a key is routed once a block that starts at `s` stands after the place `p`.
pub(crate) proof fn route_after_insert<K: ArrowWriteableKey>(
    ix: IndexModel<K>,
    p: int,
    s: KeyModel<K>,
    new: u128,
    x: KeyModel<K>,
)
    requires
        index_valid::<K>(ix),
        ix.len() > 0,
        p == route::<K>(ix, s),
        ix[p].0 != Some(s),
    ensures
        with_block::<K>(ix, s, new) == ix.insert(p + 1, (Some(s), new)),
        route::<K>(with_block::<K>(ix, s, new), x) == ({
            let r = route::<K>(ix, x);
            if r < p || (r == p && key_precedes::<K>(x, s)) {
                r
            } else {
                r + 1
            }
        }),
{
    broadcast use group_key_order;

    let r = route::<K>(ix, x);
    let t = with_block::<K>(ix, s, new);
    route_separates::<K>(ix, s);
    route_separates::<K>(ix, x);
    if r < p {
        assert(!reaches::<K>(ix[p].0, x));
        assert(reaches::<K>(ix[p].0, s));
        assert(key_precedes::<K>(x, s)) by {
            if ix[p].0->0 != s {
                assert(key_precedes::<K>(ix[p].0->0, s));
            }
        }
    }
    if r > p {
        assert(reaches::<K>(ix[r].0, x));
        assert(!reaches::<K>(ix[r].0, s));
        assert(!key_precedes::<K>(x, s));
    }
    let q = if r < p || (r == p && key_precedes::<K>(x, s)) { r } else { r + 1 };
    assert(reaches::<K>(t[q].0, x)) by {
        if q <= p {
            assert(t[q] == ix[q]);
        } else if q > p + 1 {
            assert(t[q] == ix[q - 1]);
        }
    }
    assert forall|j: int| q < j < t.len() implies !reaches::<K>((#[trigger] t[j]).0, x) by {
        if j <= p {
            assert(t[j] == ix[j]);
        } else if j > p + 1 {
            assert(t[j] == ix[j - 1]);
        }
    }
    route_at::<K>(t, x, q);
}

/// The two parts of a split block are sorted, the upper one starts at the split key, and the keys
/// of the lower one precede it.
proof fn split_parts<K: ArrowWriteableKey, V: ArrowWriteableValue>(
    b: Seq<EntryModel<K, V>>,
    c: int,
    k: KeyModel<K>,
    v: V::V,
)
    requires
        sorted::<K, V>(b),
        0 <= c < b.len(),
        !key_precedes::<K>(k, b[c].0),
    ensures
        sorted::<K, V>(b.take(c)),
        sorted::<K, V>(put::<K, V>(b.skip(c), k, v)),
        put::<K, V>(b.skip(c), k, v).len() > 0,
        put::<K, V>(b.skip(c), k, v)[0].0 == b[c].0,
        forall|j: int| 0 <= j < c ==> key_precedes::<K>((#[trigger] b.take(c)[j]).0, b[c].0),
{
    find_in_part::<K, V>(b, c, k);
    put_sorted::<K, V>(b.skip(c), k, v);
    assert(b.skip(c)[0] == b[c]);
    put_first::<K, V>(b.skip(c), k, v);
    assert forall|j: int| 0 <= j < c implies key_precedes::<K>(
        (#[trigger] b.take(c)[j]).0,
        b[c].0,
    ) by {
        assert(key_precedes::<K>(b[j].0, b[c].0));
    }
}

/// The place that the new block gets in the index when the target of `k` is split.
spec fn split_place<K: ArrowWriteableKey, V: ArrowWriteableValue>(
    f: FileModel<K, V>,
    k: KeyModel<K>,
) -> int {
    let p = route::<K>(f.index, k);
    if f.index[p].0 == Some(f.split_key(k)) {
        p
    } else {
        p + 1
    }
}

/// Where the block at another place of the index stood before the target of `k` was split.
spec fn split_origin<K: ArrowWriteableKey, V: ArrowWriteableValue>(
    f: FileModel<K, V>,
    k: KeyModel<K>,
    i: int,
) -> int {
    let p = route::<K>(f.index, k);
    if f.index[p].0 != Some(f.split_key(k)) && i > p {
        i - 1
    } else {
        i
    }
}

/// The blocks after the target of `k` is split.
#[verifier::spinoff_prover]
proof fn split_shape<K: ArrowWriteableKey, V: ArrowWriteableValue>(
    f: FileModel<K, V>,
    k: KeyModel<K>,
    v: V::V,
    new: u128,
)
    requires
        sound::<K, V>(f),
        !f.forks(k),
        f.block(f.target(k)).len() > 0,
        !f.has_block(new),
    ensures
        ({
            let h = f.split_and_add(f.target(k), new, k, v);
            let p = route::<K>(f.index, k);
            let b = f.deltas[f.target(k)];
            let c = split_point::<K, V>(b);
            let place = split_place::<K, V>(f, k);
            &&& index_valid::<K>(h.index)
            &&& 0 <= place < h.index.len()
            &&& h.index.len() == f.index.len() + place - p
            &&& h.index[place] == (Some(f.split_key(k)), new)
            &&& h.has_block(new)
            &&& h.block(new) == put::<K, V>(b.skip(c), k, v)
            &&& forall|i: int|
                #![trigger h.index[i]]
                0 <= i < h.index.len() && i != place ==> {
                    let o = split_origin::<K, V>(f, k, i);
                    &&& 0 <= o < f.index.len()
                    &&& h.index[i] == f.index[o]
                    &&& h.index[i].1 != new
                    &&& h.has_block(h.index[i].1)
                    &&& h.block(h.index[i].1) == (if o == p {
                        b.take(c)
                    } else {
                        f.block(f.index[o].1)
                    })
                }
        }),
{
    let p = route::<K>(f.index, k);
    let t = f.target(k);
    let s = f.split_key(k);
    let h = f.split_and_add(t, new, k, v);
    let place = split_place::<K, V>(f, k);
    route_separates::<K>(f.index, k);
    split_key_route::<K, V>(f, k);
    with_block_valid::<K>(f.index, s, new);
    assert(f.index[p].1 == t);
    assert(t != new);
    assert forall|i: int|
        #![trigger h.index[i]]
        0 <= i < h.index.len() && i != place implies ({
        let o = split_origin::<K, V>(f, k, i);
        &&& 0 <= o < f.index.len()
        &&& h.index[i] == f.index[o]
        &&& h.index[i].1 != new
        &&& h.has_block(h.index[i].1)
        &&& h.block(h.index[i].1) == (if o == p {
            h.deltas[t]
        } else {
            f.block(f.index[o].1)
        })
    }) by {
        let o = split_origin::<K, V>(f, k, i);
        assert(f.has_block(f.index[o].1));
        if o < p {
            assert(f.index[o].1 != f.index[p].1);
        } else if p < o {
            assert(f.index[p].1 != f.index[o].1);
        }
    }
}

/// What is found under `x` after the target of `k` is split.
#[verifier::spinoff_prover]
proof fn split_find_one<K: ArrowWriteableKey, V: ArrowWriteableValue>(
    f: FileModel<K, V>,
    k: KeyModel<K>,
    v: V::V,
    new: u128,
    x: KeyModel<K>,
)
    requires
        sound::<K, V>(f),
        !f.forks(k),
        f.block(f.target(k)).len() > 0,
        !f.has_block(new),
    ensures
        f.split_and_add(f.target(k), new, k, v).lookup(x) == (if x == k && !key_precedes::<K>(
            k,
            f.split_key(k),
        ) {
            Some(v)
        } else {
            f.lookup(x)
        }),
{
    let p = route::<K>(f.index, k);
    let r = route::<K>(f.index, x);
    let b = f.deltas[f.target(k)];
    let c = split_point::<K, V>(b);
    let s = f.split_key(k);
    let h = f.split_and_add(f.target(k), new, k, v);
    let q = route::<K>(h.index, x);
    let place = split_place::<K, V>(f, k);
    route_separates::<K>(f.index, k);
    route_separates::<K>(f.index, x);
    split_key_route::<K, V>(f, k);
    assert(f.index[p].1 == f.target(k));
    assert(sorted::<K, V>(f.block(f.index[p].1)));
    assert(f.has_block(f.index[r].1));
    find_in_part::<K, V>(b, c, x);
    put_find::<K, V>(b.skip(c), k, v);
    split_shape::<K, V>(f, k, v, new);
    if f.index[p].0 == Some(s) {
        same_starts::<K>(f.index, h.index, x);
        if r == p {
            assert(reaches::<K>(f.index[p].0, x));
        }
    } else {
        route_after_insert::<K>(f.index, p, s, new, x);
    }
    if q == place {
        assert(r == p && !key_precedes::<K>(x, s));
        assert(h.target(x) == new);
    } else {
        assert(split_origin::<K, V>(f, k, q) == r);
        assert(h.index[q] == f.index[r]);
    }
}

/// Splitting the target keeps what is found under the other keys. The value is the one found under
/// its key where the key is not before the split key, and is not found where it is.
proof fn split_finds<K: ArrowWriteableKey, V: ArrowWriteableValue>(
    f: FileModel<K, V>,
    k: KeyModel<K>,
    v: V::V,
    new: u128,
)
    requires
        sound::<K, V>(f),
        !f.forks(k),
        f.block(f.target(k)).len() > 0,
        !f.has_block(new),
    ensures
        f.split_and_add(f.target(k), new, k, v).lookup(k) == (if key_precedes::<K>(
            k,
            f.split_key(k),
        ) {
            f.lookup(k)
        } else {
            Some(v)
        }),
        forall|x: KeyModel<K>|
            x != k ==> #[trigger] f.split_and_add(f.target(k), new, k, v).lookup(x) == f.lookup(x),
{
    split_find_one::<K, V>(f, k, v, new, k);
    assert forall|x: KeyModel<K>| x != k implies #[trigger] f.split_and_add(
        f.target(k),
        new,
        k,
        v,
    ).lookup(x) == f.lookup(x) by {
        split_find_one::<K, V>(f, k, v, new, x);
    }
}

/// Splitting the target keeps the blockfile sound where the key is not before the split key.
#[verifier::spinoff_prover]
proof fn split_sound<K: ArrowWriteableKey, V: ArrowWriteableValue>(
    f: FileModel<K, V>,
    k: KeyModel<K>,
    v: V::V,
    new: u128,
)
    requires
        sound::<K, V>(f),
        !f.forks(k),
        f.block(f.target(k)).len() > 0,
        !f.has_block(new),
        !key_precedes::<K>(k, f.split_key(k)),
    ensures
        sound::<K, V>(f.split_and_add(f.target(k), new, k, v)),
{
    let p = route::<K>(f.index, k);
    let t = f.target(k);
    let b = f.deltas[t];
    let c = split_point::<K, V>(b);
    let s = f.split_key(k);
    let h = f.split_and_add(t, new, k, v);
    let low = b.take(c);
    let high = put::<K, V>(b.skip(c), k, v);
    let place = split_place::<K, V>(f, k);
    route_separates::<K>(f.index, k);
    split_key_route::<K, V>(f, k);
    assert(f.index[p].1 == t);
    assert(sorted::<K, V>(f.block(f.index[p].1)));
    split_parts::<K, V>(b, c, k, v);
    split_shape::<K, V>(f, k, v, new);
    assert forall|i: int| 0 <= i < h.index.len() implies h.has_block((#[trigger] h.index[i]).1)
        && sorted::<K, V>(h.block(h.index[i].1)) by {
        if i != place {
            let o = split_origin::<K, V>(f, k, i);
            assert(sorted::<K, V>(f.block(f.index[o].1)));
        }
    }
    assert forall|i: int, j: int| 0 <= i < j < h.index.len() implies (#[trigger] h.index[i]).1
        != (#[trigger] h.index[j]).1 by {
        if i != place && j != place {
            let (a, z) = (split_origin::<K, V>(f, k, i), split_origin::<K, V>(f, k, j));
            assert(a < z);
            assert(f.index[a].1 != f.index[z].1);
        }
    }
    assert forall|i: int| 0 < i < h.index.len() implies h.block((#[trigger] h.index[i]).1).len() > 0
        && h.index[i].0 == Some(h.block(h.index[i].1)[0].0) by {
        if i != place {
            let o = split_origin::<K, V>(f, k, i);
            assert(f.block(f.index[o].1).len() > 0);
            assert(f.index[o].0 == Some(f.block(f.index[o].1)[0].0));
            if o == p {
                assert(c > 0);
                assert(low[0] == b[0]);
            }
        }
    }
    assert forall|i: int, j: int|
        0 <= i < h.index.len() - 1 && 0 <= j < h.block(
            h.index[i].1,
        ).len() implies #[trigger] before_next::<K, V>(h, i, j) by {
        split_below::<K, V>(f, k, v, new, i, j);
    }
}

/// After the target is split the keys of each block precede the start of the next one.
#[verifier::spinoff_prover]
proof fn split_below<K: ArrowWriteableKey, V: ArrowWriteableValue>(
    f: FileModel<K, V>,
    k: KeyModel<K>,
    v: V::V,
    new: u128,
    i: int,
    j: int,
)
    requires
        sound::<K, V>(f),
        !f.forks(k),
        f.block(f.target(k)).len() > 0,
        !f.has_block(new),
        !key_precedes::<K>(k, f.split_key(k)),
        ({
            let h = f.split_and_add(f.target(k), new, k, v);
            0 <= i < h.index.len() - 1 && 0 <= j < h.block(h.index[i].1).len()
        }),
    ensures
        ({
            let h = f.split_and_add(f.target(k), new, k, v);
            before_next::<K, V>(h, i, j)
        }),
{
    let p = route::<K>(f.index, k);
    let t = f.target(k);
    let b = f.deltas[t];
    let c = split_point::<K, V>(b);
    let h = f.split_and_add(t, new, k, v);
    let place = split_place::<K, V>(f, k);
    let o = split_origin::<K, V>(f, k, i);
    route_separates::<K>(f.index, k);
    split_key_route::<K, V>(f, k);
    assert(f.index[p].1 == t);
    assert(sorted::<K, V>(f.block(f.index[p].1)));
    split_parts::<K, V>(b, c, k, v);
    split_shape::<K, V>(f, k, v, new);
    if i == place {
        assert(h.index[i + 1] == f.index[p + 1]);
        let n = f.index[p + 1].0->0;
        assert(!reaches::<K>(f.index[p + 1].0, k));
        assert forall|m: int| 0 <= m < b.skip(c).len() implies key_precedes::<K>(
            (#[trigger] b.skip(c)[m]).0,
            n,
        ) by {
            assert(before_next::<K, V>(f, p, m + c));
        }
        find_in_part::<K, V>(b, c, k);
        put_below::<K, V>(b.skip(c), k, v, n);
    } else {
        assert(h.index[i] == f.index[o]);
        if o == p {
            assert(h.index[i + 1] == h.index[place]);
        } else {
            assert(before_next::<K, V>(f, o, j));
            if i + 1 != place {
                assert(h.index[i + 1] == f.index[split_origin::<K, V>(f, k, i + 1)]);
            }
        }
    }
}

/// A read after a write gives back the value that was written, and under every other key what it
/// gave before. The exception is a misplaced write: a read of its key gives what it gave before.
pub proof fn set_reads_back<K: ArrowWriteableKey, V: ArrowWriteableValue>(
    f: FileModel<K, V>,
    k: KeyModel<K>,
    v: V::V,
    fork_id: u128,
    split_id: u128,
)
    requires
        sound::<K, V>(f),
        f.writable(k, v),
        ids_fresh::<K, V>(f, k, v, fork_id, split_id),
    ensures
        f.set(k, v, fork_id, split_id).lookup(k) == (if misplaced::<K, V>(f, k, v) {
            f.lookup(k)
        } else {
            Some(v)
        }),
        forall|x: KeyModel<K>|
            x != k ==> #[trigger] f.set(k, v, fork_id, split_id).lookup(x) == f.lookup(x),
{
    let t = f.target(k);
    if f.forks(k) {
        let g = f.fork(t, fork_id);
        fork_step::<K, V>(f, k, fork_id);
        if f.splits(k, v) {
            split_finds::<K, V>(g, k, v, split_id);
        } else {
            add_step::<K, V>(g, k, v);
        }
        assert forall|x: KeyModel<K>| x != k implies #[trigger] f.set(
            k,
            v,
            fork_id,
            split_id,
        ).lookup(x) == f.lookup(x) by {
            assert(g.lookup(x) == f.lookup(x));
        }
        assert(g.lookup(k) == f.lookup(k));
    } else if f.splits(k, v) {
        split_finds::<K, V>(f, k, v, split_id);
    } else {
        add_step::<K, V>(f, k, v);
    }
}

/// The block in which a write puts the value.
pub open spec fn written_block<K: ArrowWriteableKey, V: ArrowWriteableValue>(
    f: FileModel<K, V>,
    k: KeyModel<K>,
    v: V::V,
    fork_id: u128,
    split_id: u128,
) -> u128 {
    if f.splits(k, v) {
        split_id
    } else if f.forks(k) {
        fork_id
    } else {
        f.target(k)
    }
}

/// The write leaves `k` to the block in which it puts the value. A target that is copied and is not
/// the first block moves to its least key: that key is not after `k`, and not before the start of
/// the block before the target. A target that is split is split at a key that is not after `k`, and
/// not before the start of the target.
pub open spec fn within_reach<K: ArrowWriteableKey, V: ArrowWriteableValue>(
    f: FileModel<K, V>,
    k: KeyModel<K>,
    v: V::V,
) -> bool {
    let p = route::<K>(f.index, k);
    let least = f.block(f.target(k))[0].0;
    &&& f.forks(k) ==> first_place::<K>(f.index, f.target(k), p) && (p == 0 || (!key_precedes::<K>(
        k,
        least,
    ) && reaches::<K>(f.index[p - 1].0, least)))
    &&& f.splits(k, v) ==> !key_precedes::<K>(k, f.split_key(k)) && (f.forks(k) || reaches::<K>(
        f.index[p].0,
        f.split_key(k),
    ))
}

/// Copying the target within reach of `k` keeps it the target of `k`.
proof fn copy_keeps_target<K: ArrowWriteableKey, V: ArrowWriteableValue>(
    f: FileModel<K, V>,
    k: KeyModel<K>,
    v: V::V,
    new: u128,
)
    requires
        index_valid::<K>(f.index),
        f.index.len() > 0,
        f.forks(k),
        within_reach::<K, V>(f, k, v),
    ensures
        ({
            let g = f.fork(f.target(k), new);
            &&& index_valid::<K>(g.index)
            &&& g.index.len() > 0
            &&& g.target(k) == new
            &&& reaches::<K>(g.index[route::<K>(g.index, k)].0, f.stored[f.target(k)][0].0)
        }),
{
    broadcast use group_key_order;

    let ix = f.index;
    let p = route::<K>(ix, k);
    let t = f.target(k);
    let least = f.stored[t][0].0;
    let g = f.fork(t, new);
    route_separates::<K>(ix, k);
    assert(ix[p].1 == t);
    assert(names::<K>(ix, t));
    with_replaced_valid::<K>(ix, t, new, least);
    first_place_unique::<K>(ix, t, p, choose|i: int| first_place::<K>(ix, t, i));
    if p == 0 {
        same_starts::<K>(ix, g.index, k);
    } else {
        let rest = ix.remove(p);
        remove_valid::<K>(ix, p);
        assert(rest[p - 1] == ix[p - 1]);
        assert forall|j: int| p - 1 < j < rest.len() implies !reaches::<K>(
            (#[trigger] rest[j]).0,
            k,
        ) && !reaches::<K>(rest[j].0, least) by {
            assert(rest[j] == ix[j + 1]);
            assert(ix[j + 1].0 is Some);
            assert(!reaches::<K>(ix[j + 1].0, k));
        }
        route_at::<K>(rest, k, p - 1);
        route_at::<K>(rest, least, p - 1);
        if rest[p - 1].0 == Some(least) {
            same_starts::<K>(rest, g.index, k);
        } else {
            route_after_insert::<K>(rest, p - 1, least, new, k);
        }
    }
}

/// Splitting the target within reach of `k` makes the new block the target of `k`.
proof fn split_moves_target<K: ArrowWriteableKey>(
    ix: IndexModel<K>,
    k: KeyModel<K>,
    s: KeyModel<K>,
    new: u128,
)
    requires
        index_valid::<K>(ix),
        ix.len() > 0,
        !key_precedes::<K>(k, s),
        reaches::<K>(ix[route::<K>(ix, k)].0, s),
    ensures
        ({
            let t = with_block::<K>(ix, s, new);
            t[route::<K>(t, k)].1 == new
        }),
{
    broadcast use group_key_order;

    let r = route::<K>(ix, k);
    let t = with_block::<K>(ix, s, new);
    route_separates::<K>(ix, k);
    assert forall|j: int| r < j < ix.len() implies !reaches::<K>((#[trigger] ix[j]).0, s) by {
        assert(ix[j].0 is Some);
        assert(!reaches::<K>(ix[j].0, k));
    }
    route_at::<K>(ix, s, r);
    if ix[r].0 == Some(s) {
        same_starts::<K>(ix, t, k);
    } else {
        route_after_insert::<K>(ix, r, s, new, k);
    }
}

/// A read after a write within reach gives back the value that was written, also from a blockfile
/// that is not sound and whatever ids are drawn for the write.
pub proof fn set_within_reach_reads_back<K: ArrowWriteableKey, V: ArrowWriteableValue>(
    f: FileModel<K, V>,
    k: KeyModel<K>,
    v: V::V,
    fork_id: u128,
    split_id: u128,
)
    requires
        index_valid::<K>(f.index),
        f.index.len() > 0,
        f.writable(k, v),
        sorted::<K, V>(f.block(f.target(k))),
        within_reach::<K, V>(f, k, v),
    ensures
        f.set(k, v, fork_id, split_id).target(k) == written_block::<K, V>(
            f,
            k,
            v,
            fork_id,
            split_id,
        ),
        f.set(k, v, fork_id, split_id).lookup(k) == Some(v),
{
    let b = f.block(f.target(k));
    let g = if f.forks(k) {
        copy_keeps_target::<K, V>(f, k, v, fork_id);
        f.fork(f.target(k), fork_id)
    } else {
        f
    };
    put_find::<K, V>(b, k, v);
    if f.splits(k, v) {
        let c = split_point::<K, V>(b);
        let s = f.split_key(k);
        split_point_range::<K, V>(b);
        find_in_part::<K, V>(b, c, k);
        put_find::<K, V>(b.skip(c), k, v);
        assert(reaches::<K>(g.index[route::<K>(g.index, k)].0, s)) by {
            broadcast use group_key_order;

            if c > 0 {
                assert(key_precedes::<K>(b[0].0, b[c].0));
            }
        }
        split_moves_target::<K>(g.index, k, s, split_id);
    }
}

/// Every write to a sound blockfile that is not misplaced is within reach.
pub proof fn sound_write_is_within_reach<K: ArrowWriteableKey, V: ArrowWriteableValue>(
    f: FileModel<K, V>,
    k: KeyModel<K>,
    v: V::V,
)
    requires
        sound::<K, V>(f),
        f.writable(k, v),
        !misplaced::<K, V>(f, k, v),
    ensures
        within_reach::<K, V>(f, k, v),
{
    let p = route::<K>(f.index, k);
    route_separates::<K>(f.index, k);
    assert(f.index[p].1 == f.target(k));
    assert(first_place::<K>(f.index, f.target(k), p));
    if p > 0 {
        assert(f.block(f.index[p].1).len() > 0);
        assert(f.index[p].0 == Some(f.block(f.index[p].1)[0].0));
        if p > 1 {
            broadcast use group_key_order;

            assert(key_precedes::<K>(f.index[p - 1].0->0, f.index[p].0->0));
        }
    }
    if f.splits(k, v) {
        split_key_route::<K, V>(f, k);
        route_separates::<K>(f.index, f.split_key(k));
    }
}

/// A write that is not misplaced keeps a blockfile sound.
pub proof fn set_keeps_sound<K: ArrowWriteableKey, V: ArrowWriteableValue>(
    f: FileModel<K, V>,
    k: KeyModel<K>,
    v: V::V,
    fork_id: u128,
    split_id: u128,
)
    requires
        sound::<K, V>(f),
        f.writable(k, v),
        ids_fresh::<K, V>(f, k, v, fork_id, split_id),
        !misplaced::<K, V>(f, k, v),
    ensures
        sound::<K, V>(f.set(k, v, fork_id, split_id)),
{
    let t = f.target(k);
    if f.forks(k) {
        let g = f.fork(t, fork_id);
        fork_step::<K, V>(f, k, fork_id);
        if f.splits(k, v) {
            split_sound::<K, V>(g, k, v, split_id);
        } else {
            add_step::<K, V>(g, k, v);
        }
    } else if f.splits(k, v) {
        split_sound::<K, V>(f, k, v, split_id);
    } else {
        add_step::<K, V>(f, k, v);
    }
}

/// A write adds a block to the index where it splits the target elsewhere than at the key the
/// target starts at, and else keeps the number of blocks.
pub proof fn set_block_count<K: ArrowWriteableKey, V: ArrowWriteableValue>(
    f: FileModel<K, V>,
    k: KeyModel<K>,
    v: V::V,
    fork_id: u128,
    split_id: u128,
)
    requires
        sound::<K, V>(f),
        f.writable(k, v),
        ids_fresh::<K, V>(f, k, v, fork_id, split_id),
    ensures
        f.set(k, v, fork_id, split_id).index.len() == f.index.len() + (if f.splits(k, v)
            && f.index[route::<K>(f.index, k)].0 != Some(f.split_key(k)) {
            1int
        } else {
            0
        }),
{
    let g = if f.forks(k) {
        fork_step::<K, V>(f, k, fork_id);
        f.fork(f.target(k), fork_id)
    } else {
        f
    };
    route_separates::<K>(f.index, k);
    assert(g.index[route::<K>(f.index, k)].0 == f.index[route::<K>(f.index, k)].0);
    same_starts::<K>(f.index, g.index, k);
    if f.splits(k, v) {
        split_shape::<K, V>(g, k, v, split_id);
    }
}

/// A write leaves the stored blocks as they are.
pub proof fn set_leaves_stored<K: ArrowWriteableKey, V: ArrowWriteableValue>(
    f: FileModel<K, V>,
    k: KeyModel<K>,
    v: V::V,
    fork_id: u128,
    split_id: u128,
)
    ensures
        f.set(k, v, fork_id, split_id).stored == f.stored,
{
}

/// A blockfile with one empty block is sound and holds nothing.
pub proof fn initial_is_empty<K: ArrowWriteableKey, V: ArrowWriteableValue>(
    block: u128,
    stored: StoreModel<K, V>,
)
    ensures
        sound::<K, V>(FileModel::<K, V>::initial(block, stored)),
        forall|x: KeyModel<K>| #[trigger]
            FileModel::<K, V>::initial(block, stored).lookup(x) is None,
{
    let f = FileModel::<K, V>::initial(block, stored);
    assert(f.block(block) =~= Seq::<EntryModel<K, V>>::empty());
    assert forall|x: KeyModel<K>| #[trigger] f.lookup(x) is None by {
        route_separates::<K>(f.index, x);
    }
}

/// A commit changes nothing for reads: what the writer would find under a key, a reader of the
/// committed index over the committed blocks finds.
pub proof fn commit_keeps_contents<K: ArrowWriteableKey, V: ArrowWriteableValue>(
    f: FileModel<K, V>,
)
    ensures
        forall|x: KeyModel<K>| #[trigger]
            FileModel::<K, V>::opened(f.index, f.committed()).lookup(x) == f.lookup(x),
        sound::<K, V>(f) ==> sound::<K, V>(FileModel::<K, V>::opened(f.index, f.committed())),
{
    let g = FileModel::<K, V>::opened(f.index, f.committed());
    assert(forall|id: u128| #[trigger] g.has_block(id) == f.has_block(id));
    assert forall|id: u128| f.has_block(id) implies #[trigger] g.block(id) == f.block(id) by {
        assert(g.has_block(id) == f.has_block(id));
    }
    if sound::<K, V>(f) {
        assert forall|i: int| 0 <= i < g.index.len() implies g.has_block((#[trigger] g.index[i]).1)
            && g.block(g.index[i].1) == f.block(f.index[i].1) by {
            assert(f.has_block(f.index[i].1));
        }
        assert forall|i: int, j: int|
            0 <= i < g.index.len() - 1 && 0 <= j < g.block(
                g.index[i].1,
            ).len() implies #[trigger] before_next::<K, V>(g, i, j) by {
            assert(g.has_block(g.index[i].1));
            assert(before_next::<K, V>(f, i, j));
        }
    }
}

/// In a sound blockfile every entry of every block of the index is found under its key.
pub proof fn every_entry_is_found<K: ArrowWriteableKey, V: ArrowWriteableValue>(
    f: FileModel<K, V>,
    i: int,
    j: int,
)
    requires
        sound::<K, V>(f),
        0 <= i < f.index.len(),
        0 <= j < f.block(f.index[i].1).len(),
    ensures
        f.lookup(f.block(f.index[i].1)[j].0) == Some(f.block(f.index[i].1)[j].1),
{
    broadcast use group_key_order;

    let b = f.block(f.index[i].1);
    let x = b[j].0;
    assert(f.has_block(f.index[i].1) && sorted::<K, V>(b));
    assert(reaches::<K>(f.index[i].0, x)) by {
        if i > 0 {
            assert(f.index[i].0 == Some(b[0].0));
            if j > 0 {
                assert(key_precedes::<K>(b[0].0, b[j].0));
            }
        }
    }
    assert forall|m: int| i < m < f.index.len() implies !reaches::<K>(
        (#[trigger] f.index[m]).0,
        x,
    ) by {
        assert(f.index[m].0 is Some);
        assert(before_next::<K, V>(f, i, j));
        if i + 1 < m {
            assert(key_precedes::<K>(f.index[i + 1].0->0, f.index[m].0->0));
        }
    }
    route_at::<K>(f.index, x, i);
    find_at::<K, V>(b, j);
}

/// A write under a key after every key that the blockfile holds is not misplaced.
pub proof fn larger_key_is_not_misplaced<K: ArrowWriteableKey, V: ArrowWriteableValue>(
    f: FileModel<K, V>,
    k: KeyModel<K>,
    v: V::V,
)
    requires
        sound::<K, V>(f),
        f.writable(k, v),
        forall|x: KeyModel<K>| #[trigger] f.lookup(x) is Some ==> key_precedes::<K>(x, k),
    ensures
        !misplaced::<K, V>(f, k, v),
{
    broadcast use group_key_order;

    if f.splits(k, v) {
        let p = route::<K>(f.index, k);
        route_separates::<K>(f.index, k);
        split_key_route::<K, V>(f, k);
        assert(f.index[p].1 == f.target(k));
        every_entry_is_found::<K, V>(f, p, split_point::<K, V>(f.block(f.target(k))));
        assert(f.lookup(f.split_key(k)) is Some);
    }
}

/// A write can be done in a sound blockfile where the entry fits a block of its own, unless its
/// target is the first block, stored without entries.
pub proof fn small_entry_is_writable<K: ArrowWriteableKey, V: ArrowWriteableValue>(
    f: FileModel<K, V>,
    k: KeyModel<K>,
    v: V::V,
)
    requires
        sound::<K, V>(f),
        fits::<K, V>(seq![(k, v)]),
        f.deltas.contains_key(f.index[0].1) || f.stored[f.index[0].1].len() > 0,
    ensures
        f.writable(k, v),
{
    let p = route::<K>(f.index, k);
    let b = f.block(f.target(k));
    route_separates::<K>(f.index, k);
    assert(f.has_block(f.index[p].1));
    if p > 0 {
        assert(f.block(f.index[p].1).len() > 0);
    }
    if b.len() == 0 {
        assert(put::<K, V>(b, k, v) =~= seq![(k, v)]);
    }
}

/// A write: the key, the value, and the ids for the deltas it may make.
#[verifier::reject_recursive_types(K)]
#[verifier::reject_recursive_types(V)]
pub struct Write<K: ArrowWriteableKey, V: ArrowWriteableValue> {
    pub key: KeyModel<K>,
    pub value: V::V,
    pub fork_id: u128,
    pub split_id: u128,
}

/// The blockfile after a run of writes.
pub open spec fn after<K: ArrowWriteableKey, V: ArrowWriteableValue>(
    f: FileModel<K, V>,
    writes: Seq<Write<K, V>>,
) -> FileModel<K, V>
    decreases writes.len(),
{
    if writes.len() == 0 {
        f
    } else {
        let w = writes.last();
        after::<K, V>(f, writes.drop_last()).set(w.key, w.value, w.fork_id, w.split_id)
    }
}

/// Every write of the run can be done, with ids of no block.
pub open spec fn can_run<K: ArrowWriteableKey, V: ArrowWriteableValue>(
    f: FileModel<K, V>,
    writes: Seq<Write<K, V>>,
) -> bool
    decreases writes.len(),
{
    writes.len() > 0 ==> {
        let g = after::<K, V>(f, writes.drop_last());
        let w = writes.last();
        &&& can_run::<K, V>(f, writes.drop_last())
        &&& g.writable(w.key, w.value)
        &&& ids_fresh::<K, V>(g, w.key, w.value, w.fork_id, w.split_id)
    }
}

/// No write of the run is misplaced.
pub open spec fn none_misplaced<K: ArrowWriteableKey, V: ArrowWriteableValue>(
    f: FileModel<K, V>,
    writes: Seq<Write<K, V>>,
) -> bool
    decreases writes.len(),
{
    writes.len() > 0 ==> {
        let g = after::<K, V>(f, writes.drop_last());
        let w = writes.last();
        &&& none_misplaced::<K, V>(f, writes.drop_last())
        &&& !misplaced::<K, V>(g, w.key, w.value)
    }
}

/// The value of the last write under `x`, where there is one.
pub open spec fn last_written<K: ArrowWriteableKey, V: ArrowWriteableValue>(
    writes: Seq<Write<K, V>>,
    x: KeyModel<K>,
) -> Option<V::V>
    decreases writes.len(),
{
    if writes.len() == 0 {
        None
    } else if writes.last().key == x {
        Some(writes.last().value)
    } else {
        last_written::<K, V>(writes.drop_last(), x)
    }
}

/// After any run of writes of which none is misplaced, the blockfile is sound, and a read of a key
/// gives the value written last under it, or else what it gave before the run.
pub proof fn writes_read_back<K: ArrowWriteableKey, V: ArrowWriteableValue>(
    f: FileModel<K, V>,
    writes: Seq<Write<K, V>>,
)
    requires
        sound::<K, V>(f),
        can_run::<K, V>(f, writes),
        none_misplaced::<K, V>(f, writes),
    ensures
        sound::<K, V>(after::<K, V>(f, writes)),
        forall|x: KeyModel<K>| #[trigger]
            after::<K, V>(f, writes).lookup(x) == (match last_written::<K, V>(writes, x) {
                Some(v) => Some(v),
                None => f.lookup(x),
            }),
    decreases writes.len(),
{
    if writes.len() > 0 {
        let g = after::<K, V>(f, writes.drop_last());
        let w = writes.last();
        writes_read_back::<K, V>(f, writes.drop_last());
        set_keeps_sound::<K, V>(g, w.key, w.value, w.fork_id, w.split_id);
        set_reads_back::<K, V>(g, w.key, w.value, w.fork_id, w.split_id);
        assert forall|x: KeyModel<K>| #[trigger]
            after::<K, V>(f, writes).lookup(x) == (match last_written::<K, V>(writes, x) {
                Some(v) => Some(v),
                None => f.lookup(x),
            }) by {
            assert(g.lookup(x) == (match last_written::<K, V>(writes.drop_last(), x) {
                Some(v) => Some(v),
                None => f.lookup(x),
            }));
        }
    }
}

/// A new blockfile that is written, committed and opened again holds what was written: a read of a
/// key gives the value written last under it, and finds nothing under a key that was not written.
pub proof fn new_file_reads_back<K: ArrowWriteableKey, V: ArrowWriteableValue>(
    block: u128,
    stored: StoreModel<K, V>,
    writes: Seq<Write<K, V>>,
    x: KeyModel<K>,
)
    requires
        can_run::<K, V>(FileModel::<K, V>::initial(block, stored), writes),
        none_misplaced::<K, V>(FileModel::<K, V>::initial(block, stored), writes),
    ensures
        ({
            let f = after::<K, V>(FileModel::<K, V>::initial(block, stored), writes);
            FileModel::<K, V>::opened(f.index, f.committed()).lookup(x) == last_written::<K, V>(
                writes,
                x,
            )
        }),
{
    let f = FileModel::<K, V>::initial(block, stored);
    initial_is_empty::<K, V>(block, stored);
    writes_read_back::<K, V>(f, writes);
    commit_keeps_contents::<K, V>(after::<K, V>(f, writes));
    assert(f.lookup(x) is None);
    assert(after::<K, V>(f, writes).lookup(x) == last_written::<K, V>(writes, x));
}

/// A blockfile that is forked, written, committed and opened again holds what the source of the
/// fork held, with what was written in its place.
pub proof fn forked_file_reads_back<K: ArrowWriteableKey, V: ArrowWriteableValue>(
    index: IndexModel<K>,
    stored: StoreModel<K, V>,
    writes: Seq<Write<K, V>>,
    x: KeyModel<K>,
)
    requires
        sound::<K, V>(FileModel::<K, V>::opened(index, stored)),
        can_run::<K, V>(FileModel::<K, V>::opened(index, stored), writes),
        none_misplaced::<K, V>(FileModel::<K, V>::opened(index, stored), writes),
    ensures
        ({
            let f = after::<K, V>(FileModel::<K, V>::opened(index, stored), writes);
            FileModel::<K, V>::opened(f.index, f.committed()).lookup(x) == (match last_written::<
                K,
                V,
            >(writes, x) {
                Some(v) => Some(v),
                None => FileModel::<K, V>::opened(index, stored).lookup(x),
            })
        }),
{
    let f = FileModel::<K, V>::opened(index, stored);
    writes_read_back::<K, V>(f, writes);
    commit_keeps_contents::<K, V>(after::<K, V>(f, writes));
    assert(after::<K, V>(f, writes).lookup(x) == (match last_written::<K, V>(writes, x) {
        Some(v) => Some(v),
        None => f.lookup(x),
    }));
}

/// The keys of the run increase.
pub open spec fn increasing<K: ArrowWriteableKey, V: ArrowWriteableValue>(
    writes: Seq<Write<K, V>>,
) -> bool {
    forall|i: int, j: int|
        0 <= i < j < writes.len() ==> key_precedes::<K>(
            (#[trigger] writes[i]).key,
            (#[trigger] writes[j]).key,
        )
}

/// Of writes in increasing order of their keys, all after the keys that a sound blockfile holds,
/// none is misplaced.
pub proof fn increasing_writes_are_not_misplaced<K: ArrowWriteableKey, V: ArrowWriteableValue>(
    f: FileModel<K, V>,
    writes: Seq<Write<K, V>>,
)
    requires
        sound::<K, V>(f),
        can_run::<K, V>(f, writes),
        increasing::<K, V>(writes),
        forall|x: KeyModel<K>, i: int|
            #![trigger f.lookup(x), writes[i]]
            0 <= i < writes.len() && f.lookup(x) is Some ==> key_precedes::<K>(x, writes[i].key),
    ensures
        none_misplaced::<K, V>(f, writes),
    decreases writes.len(),
{
    if writes.len() > 0 {
        let rest = writes.drop_last();
        let g = after::<K, V>(f, rest);
        let w = writes.last();
        let n = writes.len() - 1;
        assert(increasing::<K, V>(rest)) by {
            assert forall|i: int, j: int| 0 <= i < j < rest.len() implies key_precedes::<K>(
                (#[trigger] rest[i]).key,
                (#[trigger] rest[j]).key,
            ) by {
                assert(rest[i] == writes[i] && rest[j] == writes[j]);
            }
        }
        assert forall|x: KeyModel<K>, i: int|
            #![trigger f.lookup(x), rest[i]]
            0 <= i < rest.len() && f.lookup(x) is Some implies key_precedes::<K>(
            x,
            rest[i].key,
        ) by {
            assert(rest[i] == writes[i]);
        }
        increasing_writes_are_not_misplaced::<K, V>(f, rest);
        writes_read_back::<K, V>(f, rest);
        assert forall|x: KeyModel<K>| #[trigger] g.lookup(x) is Some implies key_precedes::<K>(
            x,
            w.key,
        ) by {
            if last_written::<K, V>(rest, x) is Some {
                last_written_key::<K, V>(rest, x);
                let i = choose|i: int| 0 <= i < rest.len() && (#[trigger] rest[i]).key == x;
                assert(rest[i] == writes[i]);
                assert(key_precedes::<K>(writes[i].key, writes[n].key));
            } else {
                assert(f.lookup(x) is Some);
                assert(writes[n] == w);
            }
        }
        larger_key_is_not_misplaced::<K, V>(g, w.key, w.value);
    }
}

/// A key with a value written under it is the key of a write.
proof fn last_written_key<K: ArrowWriteableKey, V: ArrowWriteableValue>(
    writes: Seq<Write<K, V>>,
    x: KeyModel<K>,
)
    requires
        last_written::<K, V>(writes, x) is Some,
    ensures
        exists|i: int| 0 <= i < writes.len() && (#[trigger] writes[i]).key == x,
    decreases writes.len(),
{
    if writes.last().key == x {
        assert(writes[writes.len() - 1].key == x);
    } else {
        last_written_key::<K, V>(writes.drop_last(), x);
        let i = choose|i: int|
            0 <= i < writes.drop_last().len() && (#[trigger] writes.drop_last()[i]).key == x;
        assert(writes[i].key == x);
    }
}

/// A commit leaves every blockfile alone none of whose blocks has the id of a delta.
pub proof fn commit_leaves_other_files<K: ArrowWriteableKey, V: ArrowWriteableValue>(
    f: FileModel<K, V>,
    other: IndexModel<K>,
    x: KeyModel<K>,
)
    requires
        index_valid::<K>(other),
        other.len() > 0,
        forall|i: int| 0 <= i < other.len() ==> !f.deltas.contains_key((#[trigger] other[i]).1),
    ensures
        FileModel::<K, V>::opened(other, f.committed()).lookup(x) == FileModel::<K, V>::opened(
            other,
            f.stored,
        ).lookup(x),
{
    route_separates::<K>(other, x);
    assert(!f.deltas.contains_key(other[route::<K>(other, x)].1));
}

/// Writing to a fork of a blockfile and committing it leaves the source of the fork, and every
/// other blockfile whose blocks are stored, as it was.
pub proof fn fork_leaves_source<K: ArrowWriteableKey, V: ArrowWriteableValue>(
    index: IndexModel<K>,
    stored: StoreModel<K, V>,
    writes: Seq<Write<K, V>>,
    other: IndexModel<K>,
    x: KeyModel<K>,
)
    requires
        can_run::<K, V>(FileModel::<K, V>::opened(index, stored), writes),
        index_valid::<K>(other),
        other.len() > 0,
        forall|i: int| 0 <= i < other.len() ==> stored.contains_key((#[trigger] other[i]).1),
    ensures
        FileModel::<K, V>::opened(
            other,
            after::<K, V>(FileModel::<K, V>::opened(index, stored), writes).committed(),
        ).lookup(x) == FileModel::<K, V>::opened(other, stored).lookup(x),
{
    let f = FileModel::<K, V>::opened(index, stored);
    deltas_are_new::<K, V>(f, writes);
    commit_leaves_other_files::<K, V>(after::<K, V>(f, writes), other, x);
}

/// Writing to a new blockfile and committing it leaves every blockfile whose blocks are stored as it
/// was, where the first block of the new one has the id of no stored block.
pub proof fn new_file_leaves_other_files<K: ArrowWriteableKey, V: ArrowWriteableValue>(
    block: u128,
    stored: StoreModel<K, V>,
    writes: Seq<Write<K, V>>,
    other: IndexModel<K>,
    x: KeyModel<K>,
)
    requires
        !stored.contains_key(block),
        can_run::<K, V>(FileModel::<K, V>::initial(block, stored), writes),
        index_valid::<K>(other),
        other.len() > 0,
        forall|i: int| 0 <= i < other.len() ==> stored.contains_key((#[trigger] other[i]).1),
    ensures
        FileModel::<K, V>::opened(
            other,
            after::<K, V>(FileModel::<K, V>::initial(block, stored), writes).committed(),
        ).lookup(x) == FileModel::<K, V>::opened(other, stored).lookup(x),
{
    let f = FileModel::<K, V>::initial(block, stored);
    deltas_are_new::<K, V>(f, writes);
    commit_leaves_other_files::<K, V>(after::<K, V>(f, writes), other, x);
}

/// Where no delta has the id of a stored block, this stays so over a run of writes.
proof fn deltas_are_new<K: ArrowWriteableKey, V: ArrowWriteableValue>(
    f: FileModel<K, V>,
    writes: Seq<Write<K, V>>,
)
    requires
        can_run::<K, V>(f, writes),
        forall|id: u128| #[trigger] f.deltas.contains_key(id) ==> !f.stored.contains_key(id),
    ensures
        after::<K, V>(f, writes).stored == f.stored,
        forall|id: u128| #[trigger]
            after::<K, V>(f, writes).deltas.contains_key(id) ==> !f.stored.contains_key(id),
    decreases writes.len(),
{
    if writes.len() > 0 {
        deltas_are_new::<K, V>(f, writes.drop_last());
    }
}

/// Every delta is within the limit.
pub open spec fn within_limit<K: ArrowWriteableKey, V: ArrowWriteableValue>(
    deltas: StoreModel<K, V>,
) -> bool {
    forall|id: u128| #[trigger] deltas.contains_key(id) ==> fits::<K, V>(deltas[id])
}

/// A write that does not split keeps every delta within the limit. One that does keeps all within
/// it but the new delta, whose size no rule bounds.
pub proof fn set_keeps_limit<K: ArrowWriteableKey, V: ArrowWriteableValue>(
    f: FileModel<K, V>,
    k: KeyModel<K>,
    v: V::V,
    fork_id: u128,
    split_id: u128,
)
    requires
        f.writable(k, v),
        within_limit::<K, V>(f.deltas),
        f.forks(k) ==> fits::<K, V>(f.stored[f.target(k)]),
    ensures
        !f.splits(k, v) ==> within_limit::<K, V>(f.set(k, v, fork_id, split_id).deltas),
        f.splits(k, v) ==> within_limit::<K, V>(
            f.set(k, v, fork_id, split_id).deltas.remove(split_id),
        ),
{
    let b = f.block(f.target(k));
    assert(fits::<K, V>(b));
    if f.splits(k, v) {
        split_point_range::<K, V>(b);
        let c = split_point::<K, V>(b);
        prefix_size::<K, V>(b, c, b.len() as int);
        assert(b.take(b.len() as int) =~= b);
    }
}

} // verus!
