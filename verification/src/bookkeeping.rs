//! Which blocks a blockfile names, copies, commits and loads over a run of writes.

use crate::block::sorted;
use crate::key::{group_key_order, key_precedes, ArrowWriteableKey, KeyModel};
use crate::laws::{
    after, can_run, commit_keeps_contents, fork_step, ids_fresh, last_written, none_misplaced,
    sound, split_key_route, writes_read_back, Write,
};
use crate::model::FileModel;
use crate::provider::StoreModel;
use crate::size::{split_point, split_point_range};
use crate::sparse_index::{
    first_place, first_place_exists, first_place_unique, index_valid, names, reaches, remove_valid,
    route, route_separates, with_block, with_block_valid, with_replaced, with_replaced_valid,
    IndexModel,
};
use crate::value::ArrowWriteableValue;
use vstd::prelude::*;

verus! {

/// Two places of the index name the block `id`.
pub open spec fn named_twice<K: ArrowWriteableKey>(ix: IndexModel<K>, id: u128) -> bool {
    exists|i: int, j: int|
        0 <= i < j < ix.len() && (#[trigger] ix[i]).1 == id && (#[trigger] ix[j]).1 == id
}

/// No two places of the index name one block.
pub open spec fn distinct<K: ArrowWriteableKey>(ix: IndexModel<K>) -> bool {
    forall|id: u128| !#[trigger] named_twice::<K>(ix, id)
}

/// Every block of a valid index is there, and no two places name one block.
pub open spec fn placed<K: ArrowWriteableKey, V: ArrowWriteableValue>(f: FileModel<K, V>) -> bool {
    &&& index_valid::<K>(f.index)
    &&& f.index.len() > 0
    &&& distinct::<K>(f.index)
    &&& forall|id: u128| #[trigger] names::<K>(f.index, id) ==> f.has_block(id)
}

/// The ids that an index names.
pub open spec fn block_ids<K: ArrowWriteableKey>(ix: IndexModel<K>) -> Set<u128> {
    Set::new(|id: u128| names::<K>(ix, id))
}

/// Every block that two places of the index name is a delta.
pub open spec fn stored_named_once<K: ArrowWriteableKey, V: ArrowWriteableValue>(
    f: FileModel<K, V>,
) -> bool {
    forall|id: u128| #[trigger] named_twice::<K>(f.index, id) ==> f.deltas.contains_key(id)
}

/// The index starts a delta at `k`.
pub open spec fn delta_starts_at<K: ArrowWriteableKey, V: ArrowWriteableValue>(
    f: FileModel<K, V>,
    k: KeyModel<K>,
) -> bool {
    exists|i: int|
        0 <= i < f.index.len() && (#[trigger] f.index[i]).0 == Some(k) && f.deltas.contains_key(
            f.index[i].1,
        )
}

/// The blockfile once the target of `k` is copied into a delta, where it has to be.
pub open spec fn copied_for<K: ArrowWriteableKey, V: ArrowWriteableValue>(
    f: FileModel<K, V>,
    k: KeyModel<K>,
    fork_id: u128,
) -> FileModel<K, V> {
    if f.forks(k) {
        f.fork(f.target(k), fork_id)
    } else {
        f
    }
}

/// The write puts a new block at a key at which the index starts a delta already, so that the new
/// block takes the place of that delta. The key is the least key of a block that is copied and is
/// not the first one, or the key at which the target is split.
pub open spec fn displaces<K: ArrowWriteableKey, V: ArrowWriteableValue>(
    f: FileModel<K, V>,
    k: KeyModel<K>,
    v: V::V,
    fork_id: u128,
) -> bool {
    ||| f.forks(k) && f.index[0].1 != f.target(k) && delta_starts_at::<K, V>(
        f,
        f.stored[f.target(k)][0].0,
    )
    ||| f.splits(k, v) && delta_starts_at::<K, V>(
        copied_for::<K, V>(f, k, fork_id),
        f.split_key(k),
    )
}

/// Each write of the run can be done when its turn comes, whatever ids are drawn for it.
pub open spec fn runnable<K: ArrowWriteableKey, V: ArrowWriteableValue>(
    f: FileModel<K, V>,
    writes: Seq<Write<K, V>>,
) -> bool
    decreases writes.len(),
{
    writes.len() > 0 ==> {
        let g = after::<K, V>(f, writes.drop_last());
        let w = writes.last();
        &&& runnable::<K, V>(f, writes.drop_last())
        &&& g.writable(w.key, w.value)
    }
}

/// No write of the run puts a new block in the place of a delta.
pub open spec fn none_displaces<K: ArrowWriteableKey, V: ArrowWriteableValue>(
    f: FileModel<K, V>,
    writes: Seq<Write<K, V>>,
) -> bool
    decreases writes.len(),
{
    writes.len() > 0 ==> {
        let g = after::<K, V>(f, writes.drop_last());
        let w = writes.last();
        &&& none_displaces::<K, V>(f, writes.drop_last())
        &&& !displaces::<K, V>(g, w.key, w.value, w.fork_id)
    }
}

/// Every delta is a block of the index.
pub open spec fn deltas_named<K: ArrowWriteableKey, V: ArrowWriteableValue>(
    f: FileModel<K, V>,
) -> bool {
    forall|id: u128| #[trigger] f.deltas.contains_key(id) ==> names::<K>(f.index, id)
}

/// Every delta that holds an entry is a block of the index.
pub open spec fn entries_named<K: ArrowWriteableKey, V: ArrowWriteableValue>(
    f: FileModel<K, V>,
) -> bool {
    forall|id: u128| #[trigger]
        f.deltas.contains_key(id) && f.deltas[id].len() > 0 ==> names::<K>(f.index, id)
}

/// A valid index routes the key at which a block starts to that block.
proof fn route_of_start<K: ArrowWriteableKey>(ix: IndexModel<K>, k: KeyModel<K>, i: int)
    requires
        index_valid::<K>(ix),
        0 <= i < ix.len(),
        ix[i].0 == Some(k),
    ensures
        route::<K>(ix, k) == i,
{
    broadcast use group_key_order;

    let r = route::<K>(ix, k);
    route_separates::<K>(ix, k);
    assert(reaches::<K>(ix[i].0, k));
    if i < r {
        assert(key_precedes::<K>(ix[i].0->0, ix[r].0->0));
        assert(reaches::<K>(ix[r].0, k));
    }
}

/// The ids that an index names once a block is added.
proof fn with_block_ids<K: ArrowWriteableKey>(ix: IndexModel<K>, k: KeyModel<K>, id: u128)
    requires
        index_valid::<K>(ix),
        ix.len() > 0,
    ensures
        names::<K>(with_block::<K>(ix, k, id), id),
        forall|x: u128| #[trigger]
            names::<K>(with_block::<K>(ix, k, id), x) ==> x == id || names::<K>(ix, x),
        forall|x: u128| #[trigger]
            names::<K>(ix, x) && ix[route::<K>(ix, k)] != (Some(k), x) ==> names::<K>(
                with_block::<K>(ix, k, id),
                x,
            ),
        forall|x: u128| #[trigger]
            named_twice::<K>(with_block::<K>(ix, k, id), x) ==> x == id || named_twice::<K>(ix, x),
        !names::<K>(ix, id) ==> !named_twice::<K>(with_block::<K>(ix, k, id), id),
{
    let r = route::<K>(ix, k);
    let t = with_block::<K>(ix, k, id);
    route_separates::<K>(ix, k);
    let inserted = ix[r].0 != Some(k);
    let place = if inserted { r + 1 } else { r };
    assert(t[place].1 == id);
    assert forall|x: u128| #[trigger] names::<K>(t, x) implies x == id || names::<K>(ix, x) by {
        let i = choose|i: int| 0 <= i < t.len() && (#[trigger] t[i]).1 == x;
        if i != place {
            let o = if inserted && i > place { i - 1 } else { i };
            assert(t[i] == ix[o]);
        }
    }
    assert forall|x: u128| #[trigger]
        names::<K>(ix, x) && ix[r] != (Some(k), x) implies names::<K>(t, x) by {
        let i = choose|i: int| 0 <= i < ix.len() && (#[trigger] ix[i]).1 == x;
        let o = if inserted && i > r { i + 1 } else { i };
        assert(t[o] == ix[i]);
    }
    assert forall|x: u128| #[trigger] named_twice::<K>(t, x) implies (x == id && names::<K>(ix, id))
        || named_twice::<K>(ix, x) by {
        let (i, j) = choose|i: int, j: int|
            0 <= i < j < t.len() && (#[trigger] t[i]).1 == x && (#[trigger] t[j]).1 == x;
        let i2 = if inserted && i > place { i - 1 } else { i };
        let j2 = if inserted && j > place { j - 1 } else { j };
        if i != place {
            assert(t[i] == ix[i2]);
        }
        if j != place {
            assert(t[j] == ix[j2]);
        }
    }
}

/// A block that an index names once is not named twice without one of its places.
proof fn remove_names_once<K: ArrowWriteableKey>(ix: IndexModel<K>, p: int)
    requires
        0 <= p < ix.len(),
    ensures
        forall|x: u128| #[trigger]
            named_twice::<K>(ix.remove(p), x) ==> named_twice::<K>(ix, x),
{
    let rest = ix.remove(p);
    assert forall|x: u128| #[trigger] named_twice::<K>(rest, x) implies named_twice::<K>(ix, x) by {
        let (i, j) = choose|i: int, j: int|
            0 <= i < j < rest.len() && (#[trigger] rest[i]).1 == x && (#[trigger] rest[j]).1 == x;
        let i2 = if i >= p { i + 1 } else { i };
        let j2 = if j >= p { j + 1 } else { j };
        assert(rest[i] == ix[i2] && rest[j] == ix[j2]);
    }
}

/// The ids that an index names once a block is replaced.
#[verifier::spinoff_prover]
proof fn with_replaced_ids<K: ArrowWriteableKey>(
    ix: IndexModel<K>,
    old: u128,
    new: u128,
    k: KeyModel<K>,
    p: int,
)
    requires
        index_valid::<K>(ix),
        first_place::<K>(ix, old, p),
    ensures
        index_valid::<K>(with_replaced::<K>(ix, old, new, k)),
        with_replaced::<K>(ix, old, new, k).len() > 0,
        names::<K>(with_replaced::<K>(ix, old, new, k), new),
        forall|x: u128| #[trigger]
            names::<K>(with_replaced::<K>(ix, old, new, k), x) ==> x == new || (names::<K>(ix, x)
                && (x == old ==> named_twice::<K>(ix, old))),
        forall|x: u128| #[trigger]
            named_twice::<K>(with_replaced::<K>(ix, old, new, k), x) ==> x == new
                || named_twice::<K>(ix, x),
        !names::<K>(ix, new) ==> !named_twice::<K>(with_replaced::<K>(ix, old, new, k), new),
        forall|x: u128| #[trigger]
            names::<K>(ix, x) && x != old && (p == 0 || !ix.contains((Some(k), x))) ==> names::<K>(
                with_replaced::<K>(ix, old, new, k),
                x,
            ),
{
    let q = choose|i: int| first_place::<K>(ix, old, i);
    first_place_unique::<K>(ix, old, p, q);
    assert(names::<K>(ix, old));
    with_replaced_valid::<K>(ix, old, new, k);
    let t = with_replaced::<K>(ix, old, new, k);
    if p == 0 {
        assert(t[0].1 == new);
        assert forall|x: u128| #[trigger] names::<K>(t, x) implies x == new || (names::<K>(ix, x)
            && (x == old ==> named_twice::<K>(ix, old))) by {
            let i = choose|i: int| 0 <= i < t.len() && (#[trigger] t[i]).1 == x;
            if i > 0 {
                assert(t[i] == ix[i]);
                assert(ix[0].1 == old);
            }
        }
        assert forall|x: u128| #[trigger] named_twice::<K>(t, x) implies (x == new && names::<K>(
            ix,
            new,
        )) || named_twice::<K>(ix, x) by {
            let (i, j) = choose|i: int, j: int|
                0 <= i < j < t.len() && (#[trigger] t[i]).1 == x && (#[trigger] t[j]).1 == x;
            assert(t[j] == ix[j]);
            if i > 0 {
                assert(t[i] == ix[i]);
            }
        }
        assert forall|x: u128| #[trigger] names::<K>(ix, x) && x != old implies names::<K>(t, x) by {
            let i = choose|i: int| 0 <= i < ix.len() && (#[trigger] ix[i]).1 == x;
            assert(t[i] == ix[i]);
        }
    } else {
        let rest = ix.remove(p);
        remove_valid::<K>(ix, p);
        with_block_ids::<K>(rest, k, new);
        assert forall|x: u128| #[trigger] names::<K>(rest, x) implies names::<K>(ix, x) && (x == old
            ==> named_twice::<K>(ix, old)) by {
            let i = choose|i: int| 0 <= i < rest.len() && (#[trigger] rest[i]).1 == x;
            let o = if i >= p { i + 1 } else { i };
            assert(rest[i] == ix[o]);
            assert(ix[p].1 == old);
        }
        remove_names_once::<K>(ix, p);
        assert forall|x: u128| #[trigger]
            names::<K>(ix, x) && x != old && !ix.contains((Some(k), x)) implies names::<K>(t, x) by {
            let i = choose|i: int| 0 <= i < ix.len() && (#[trigger] ix[i]).1 == x;
            let o = if i > p { i - 1 } else { i };
            assert(rest[o] == ix[i]);
            assert(names::<K>(rest, x));
            let r = route::<K>(rest, k);
            route_separates::<K>(rest, k);
            assert(rest[r] == ix[if r >= p { r + 1 } else { r }]);
        }
    }
}

/// A sound blockfile has its blocks placed.
pub proof fn sound_is_placed<K: ArrowWriteableKey, V: ArrowWriteableValue>(f: FileModel<K, V>)
    requires
        sound::<K, V>(f),
    ensures
        placed::<K, V>(f),
{
    assert forall|id: u128| #[trigger] names::<K>(f.index, id) implies f.has_block(id) by {
        let i = choose|i: int| 0 <= i < f.index.len() && (#[trigger] f.index[i]).1 == id;
        assert(f.has_block(f.index[i].1));
    }
}

/// Every write, also a misplaced one and whatever ids are drawn for it, keeps the index valid and
/// names no block but those named before and those it makes. The blocks that it makes are deltas,
/// and no other block becomes one. A block that it copies is no longer named, unless the index
/// named it twice or its id is drawn for a block that is made.
pub proof fn set_names_what_it_makes<K: ArrowWriteableKey, V: ArrowWriteableValue>(
    f: FileModel<K, V>,
    k: KeyModel<K>,
    v: V::V,
    fork_id: u128,
    split_id: u128,
)
    requires
        index_valid::<K>(f.index),
        f.index.len() > 0,
        f.writable(k, v),
    ensures
        ({
            let h = f.set(k, v, fork_id, split_id);
            let made = |x: u128| (f.forks(k) && x == fork_id) || (f.splits(k, v) && x == split_id);
            &&& index_valid::<K>(h.index)
            &&& h.index.len() > 0
            &&& h.stored == f.stored
            &&& forall|x: u128| #[trigger]
                names::<K>(h.index, x) ==> names::<K>(f.index, x) || made(x)
            &&& forall|x: u128| #[trigger]
                named_twice::<K>(h.index, x) ==> named_twice::<K>(f.index, x) || made(x)
            &&& forall|x: u128| #[trigger]
                h.deltas.contains_key(x) <==> f.deltas.contains_key(x) || made(x)
            &&& f.forks(k) && names::<K>(h.index, f.target(k)) ==> named_twice::<K>(
                f.index,
                f.target(k),
            ) || made(f.target(k))
        }),
{
    let t = f.target(k);
    let g = copied_for::<K, V>(f, k, fork_id);
    route_separates::<K>(f.index, k);
    assert(f.index[route::<K>(f.index, k)].1 == t);
    assert(names::<K>(f.index, t));
    if f.forks(k) {
        let p = first_place_exists::<K>(f.index, t);
        with_replaced_ids::<K>(f.index, t, fork_id, f.stored[t][0].0, p);
    }
    if f.splits(k, v) {
        with_block_valid::<K>(g.index, f.split_key(k), split_id);
        with_block_ids::<K>(g.index, f.split_key(k), split_id);
    }
}

/// Every write, also a misplaced one, keeps the blocks of a blockfile placed where the ids drawn
/// for it are unused. A block that it copies is no longer named.
pub proof fn set_keeps_placed<K: ArrowWriteableKey, V: ArrowWriteableValue>(
    f: FileModel<K, V>,
    k: KeyModel<K>,
    v: V::V,
    fork_id: u128,
    split_id: u128,
)
    requires
        placed::<K, V>(f),
        f.writable(k, v),
        ids_fresh::<K, V>(f, k, v, fork_id, split_id),
    ensures
        placed::<K, V>(f.set(k, v, fork_id, split_id)),
        f.forks(k) ==> !names::<K>(f.set(k, v, fork_id, split_id).index, f.target(k)),
{
    let t = f.target(k);
    let g = copied_for::<K, V>(f, k, fork_id);
    let h = f.set(k, v, fork_id, split_id);
    set_names_what_it_makes::<K, V>(f, k, v, fork_id, split_id);
    route_separates::<K>(f.index, k);
    assert(f.index[route::<K>(f.index, k)].1 == t);
    assert(names::<K>(f.index, t));
    if f.forks(k) {
        let p = first_place_exists::<K>(f.index, t);
        with_replaced_ids::<K>(f.index, t, fork_id, f.stored[t][0].0, p);
    }
    if f.splits(k, v) {
        assert(!names::<K>(g.index, split_id)) by {
            if names::<K>(g.index, split_id) {
                assert(names::<K>(f.index, split_id));
            }
        }
        with_block_ids::<K>(g.index, f.split_key(k), split_id);
    }
    assert forall|id: u128| #[trigger] names::<K>(h.index, id) implies h.has_block(id) by {
        if names::<K>(f.index, id) {
            assert(f.has_block(id));
        }
    }
}

/// A write keeps the index valid and every delta a block of the index, whether or not it is
/// misplaced and whatever ids are drawn for it, unless it puts a new block in the place of a delta.
pub proof fn set_keeps_deltas_named<K: ArrowWriteableKey, V: ArrowWriteableValue>(
    f: FileModel<K, V>,
    k: KeyModel<K>,
    v: V::V,
    fork_id: u128,
    split_id: u128,
)
    requires
        index_valid::<K>(f.index),
        f.index.len() > 0,
        deltas_named::<K, V>(f),
        f.writable(k, v),
        !displaces::<K, V>(f, k, v, fork_id),
    ensures
        index_valid::<K>(f.set(k, v, fork_id, split_id).index),
        deltas_named::<K, V>(f.set(k, v, fork_id, split_id)),
{
    let t = f.target(k);
    let g = copied_for::<K, V>(f, k, fork_id);
    let h = f.set(k, v, fork_id, split_id);
    set_names_what_it_makes::<K, V>(f, k, v, fork_id, split_id);
    route_separates::<K>(f.index, k);
    assert(f.index[route::<K>(f.index, k)].1 == t);
    assert(names::<K>(f.index, t));
    if f.forks(k) {
        let p = first_place_exists::<K>(f.index, t);
        let least = f.stored[t][0].0;
        with_replaced_ids::<K>(f.index, t, fork_id, least, p);
        assert forall|x: u128| #[trigger] f.deltas.contains_key(x) implies names::<K>(
            g.index,
            x,
        ) by {
            assert(names::<K>(f.index, x));
            if p > 0 && f.index.contains((Some(least), x)) {
                let i = choose|i: int| 0 <= i < f.index.len() && f.index[i] == (Some(least), x);
                assert(f.index[i].0 == Some(least));
                assert(f.index[0].1 != t);
            }
        }
    }
    assert(deltas_named::<K, V>(g));
    if f.splits(k, v) {
        let s = f.split_key(k);
        let r = route::<K>(g.index, s);
        route_separates::<K>(g.index, s);
        with_block_ids::<K>(g.index, s, split_id);
        assert forall|x: u128| #[trigger] g.deltas.contains_key(x) implies names::<K>(
            h.index,
            x,
        ) by {
            assert(names::<K>(g.index, x));
            assert(g.index[r] != (Some(s), x));
        }
    }
}

/// A block in whose place another one is put is no longer named, where it was named once.
proof fn with_block_unnames<K: ArrowWriteableKey>(
    ix: IndexModel<K>,
    k: KeyModel<K>,
    id: u128,
    i: int,
)
    requires
        index_valid::<K>(ix),
        0 <= i < ix.len(),
        ix[i].0 == Some(k),
        ix[i].1 != id,
        distinct::<K>(ix),
    ensures
        !names::<K>(with_block::<K>(ix, k, id), ix[i].1),
{
    let x = ix[i].1;
    let t = with_block::<K>(ix, k, id);
    route_of_start::<K>(ix, k, i);
    if names::<K>(t, x) {
        let j = choose|j: int| 0 <= j < t.len() && (#[trigger] t[j]).1 == x;
        assert(t[j] == ix[j]);
        assert(named_twice::<K>(ix, x));
    }
}

/// A write that puts a new block in the place of a delta leaves that delta outside the index, where
/// no two places name one block and the ids drawn are unused.
pub proof fn displaced_delta_is_not_named<K: ArrowWriteableKey, V: ArrowWriteableValue>(
    f: FileModel<K, V>,
    k: KeyModel<K>,
    v: V::V,
    fork_id: u128,
    split_id: u128,
)
    requires
        placed::<K, V>(f),
        f.writable(k, v),
        ids_fresh::<K, V>(f, k, v, fork_id, split_id),
        displaces::<K, V>(f, k, v, fork_id),
    ensures
        !deltas_named::<K, V>(f.set(k, v, fork_id, split_id)),
{
    let t = f.target(k);
    let g = copied_for::<K, V>(f, k, fork_id);
    let h = f.set(k, v, fork_id, split_id);
    route_separates::<K>(f.index, k);
    assert(f.index[route::<K>(f.index, k)].1 == t);
    assert(names::<K>(f.index, t));
    if f.forks(k) {
        let p = first_place_exists::<K>(f.index, t);
        with_replaced_ids::<K>(f.index, t, fork_id, f.stored[t][0].0, p);
    }
    if f.splits(k, v) {
        with_block_ids::<K>(g.index, f.split_key(k), split_id);
    }
    if f.splits(k, v) && delta_starts_at::<K, V>(g, f.split_key(k)) {
        let i = choose|i: int|
            0 <= i < g.index.len() && (#[trigger] g.index[i]).0 == Some(f.split_key(k))
                && g.deltas.contains_key(g.index[i].1);
        with_block_unnames::<K>(g.index, f.split_key(k), split_id, i);
        assert(h.deltas.contains_key(g.index[i].1));
    } else {
        let least = f.stored[t][0].0;
        let i = choose|i: int|
            0 <= i < f.index.len() && (#[trigger] f.index[i]).0 == Some(least)
                && f.deltas.contains_key(f.index[i].1);
        let x = f.index[i].1;
        let p = first_place_exists::<K>(f.index, t);
        let rest = f.index.remove(p);
        let o = if i > p { i - 1 } else { i };
        remove_valid::<K>(f.index, p);
        assert(rest[o] == f.index[i]);
        remove_names_once::<K>(f.index, p);
        with_block_unnames::<K>(rest, least, fork_id, o);
        assert(!names::<K>(g.index, x));
        assert(!names::<K>(h.index, x));
        assert(h.deltas.contains_key(x));
    }
}

/// A run whose writes draw unused ids can be run.
pub(crate) proof fn can_run_is_runnable<K: ArrowWriteableKey, V: ArrowWriteableValue>(
    f: FileModel<K, V>,
    writes: Seq<Write<K, V>>,
)
    requires
        can_run::<K, V>(f, writes),
    ensures
        runnable::<K, V>(f, writes),
    decreases writes.len(),
{
    if writes.len() > 0 {
        can_run_is_runnable::<K, V>(f, writes.drop_last());
    }
}

/// A prefix of a run can be run, and gives the blockfile before the write that follows it.
proof fn runnable_prefix<K: ArrowWriteableKey, V: ArrowWriteableValue>(
    f: FileModel<K, V>,
    writes: Seq<Write<K, V>>,
    i: int,
)
    requires
        runnable::<K, V>(f, writes),
        0 <= i <= writes.len(),
    ensures
        runnable::<K, V>(f, writes.take(i)),
        i < writes.len() ==> {
            let g = after::<K, V>(f, writes.take(i));
            let w = writes[i];
            &&& g.writable(w.key, w.value)
            &&& after::<K, V>(f, writes.take(i + 1)) == g.set(
                w.key,
                w.value,
                w.fork_id,
                w.split_id,
            )
        },
    decreases writes.len(),
{
    if i == writes.len() {
        assert(writes.take(i) =~= writes);
    } else {
        let rest = writes.drop_last();
        assert(writes.take(i) =~= rest.take(i));
        assert(writes.take(i + 1).drop_last() =~= writes.take(i));
        assert(writes.take(i + 1).last() == writes[i]);
        if i + 1 == writes.len() {
            assert(writes.take(i) =~= rest);
        } else {
            assert(writes.take(i + 1) =~= rest.take(i + 1));
            assert(rest[i] == writes[i]);
        }
        runnable_prefix::<K, V>(f, rest, i);
    }
}

/// Over a run of writes, also of misplaced ones and whatever ids are drawn, the index stays valid,
/// and every delta stays a block of the index where no write puts a block in the place of a delta.
pub proof fn run_keeps_deltas_named<K: ArrowWriteableKey, V: ArrowWriteableValue>(
    f: FileModel<K, V>,
    writes: Seq<Write<K, V>>,
)
    requires
        index_valid::<K>(f.index),
        f.index.len() > 0,
        runnable::<K, V>(f, writes),
    ensures
        index_valid::<K>(after::<K, V>(f, writes).index),
        after::<K, V>(f, writes).index.len() > 0,
        deltas_named::<K, V>(f) && none_displaces::<K, V>(f, writes) ==> deltas_named::<K, V>(
            after::<K, V>(f, writes),
        ),
    decreases writes.len(),
{
    if writes.len() > 0 {
        let g = after::<K, V>(f, writes.drop_last());
        let w = writes.last();
        run_keeps_deltas_named::<K, V>(f, writes.drop_last());
        set_names_what_it_makes::<K, V>(g, w.key, w.value, w.fork_id, w.split_id);
        if deltas_named::<K, V>(f) && none_displaces::<K, V>(f, writes) {
            set_keeps_deltas_named::<K, V>(g, w.key, w.value, w.fork_id, w.split_id);
        }
    }
}

/// Over a run of writes the blocks stay placed and the stored blocks stay as they are.
pub proof fn run_keeps_placed<K: ArrowWriteableKey, V: ArrowWriteableValue>(
    f: FileModel<K, V>,
    writes: Seq<Write<K, V>>,
)
    requires
        placed::<K, V>(f),
        can_run::<K, V>(f, writes),
    ensures
        placed::<K, V>(after::<K, V>(f, writes)),
        after::<K, V>(f, writes).stored == f.stored,
    decreases writes.len(),
{
    if writes.len() > 0 {
        let g = after::<K, V>(f, writes.drop_last());
        let w = writes.last();
        run_keeps_placed::<K, V>(f, writes.drop_last());
        set_keeps_placed::<K, V>(g, w.key, w.value, w.fork_id, w.split_id);
    }
}

/// Over a run of writes no two places come to name a stored block that is no delta.
pub proof fn run_keeps_stored_named_once<K: ArrowWriteableKey, V: ArrowWriteableValue>(
    f: FileModel<K, V>,
    writes: Seq<Write<K, V>>,
)
    requires
        index_valid::<K>(f.index),
        f.index.len() > 0,
        stored_named_once::<K, V>(f),
        runnable::<K, V>(f, writes),
    ensures
        stored_named_once::<K, V>(after::<K, V>(f, writes)),
    decreases writes.len(),
{
    if writes.len() > 0 {
        let g = after::<K, V>(f, writes.drop_last());
        let w = writes.last();
        run_keeps_stored_named_once::<K, V>(f, writes.drop_last());
        run_keeps_deltas_named::<K, V>(f, writes.drop_last());
        set_names_what_it_makes::<K, V>(g, w.key, w.value, w.fork_id, w.split_id);
    }
}

/// A block that the index names after `i` writes as a delta at most is named after more of them as
/// a delta at most.
proof fn stays_delta<K: ArrowWriteableKey, V: ArrowWriteableValue>(
    f: FileModel<K, V>,
    writes: Seq<Write<K, V>>,
    i: int,
    j: int,
    t: u128,
)
    requires
        index_valid::<K>(f.index),
        f.index.len() > 0,
        runnable::<K, V>(f, writes),
        0 <= i <= j <= writes.len(),
        ({
            let g = after::<K, V>(f, writes.take(i));
            names::<K>(g.index, t) ==> g.deltas.contains_key(t)
        }),
    ensures
        ({
            let g = after::<K, V>(f, writes.take(j));
            names::<K>(g.index, t) ==> g.deltas.contains_key(t)
        }),
    decreases j - i,
{
    if i < j {
        stays_delta::<K, V>(f, writes, i, j - 1, t);
        runnable_prefix::<K, V>(f, writes, j - 1);
        run_keeps_deltas_named::<K, V>(f, writes.take(j - 1));
        let g = after::<K, V>(f, writes.take(j - 1));
        let w = writes[j - 1];
        set_names_what_it_makes::<K, V>(g, w.key, w.value, w.fork_id, w.split_id);
    }
}

/// A block is copied at most once over a run of writes, also of misplaced ones and whatever ids
/// are drawn: once a write has copied it, no later write copies it again. A copy is made where the
/// target is no delta, and only there.
pub proof fn block_is_copied_once<K: ArrowWriteableKey, V: ArrowWriteableValue>(
    f: FileModel<K, V>,
    writes: Seq<Write<K, V>>,
    i: int,
    j: int,
)
    requires
        index_valid::<K>(f.index),
        f.index.len() > 0,
        stored_named_once::<K, V>(f),
        runnable::<K, V>(f, writes),
        0 <= i < j < writes.len(),
        after::<K, V>(f, writes.take(i)).forks(writes[i].key),
        after::<K, V>(f, writes.take(j)).forks(writes[j].key),
    ensures
        after::<K, V>(f, writes.take(j)).target(writes[j].key) != after::<K, V>(
            f,
            writes.take(i),
        ).target(writes[i].key),
{
    let g = after::<K, V>(f, writes.take(i));
    let h = after::<K, V>(f, writes.take(j));
    let w = writes[i];
    let t = g.target(w.key);
    runnable_prefix::<K, V>(f, writes, i);
    runnable_prefix::<K, V>(f, writes, j);
    run_keeps_deltas_named::<K, V>(f, writes.take(i));
    run_keeps_deltas_named::<K, V>(f, writes.take(j));
    run_keeps_stored_named_once::<K, V>(f, writes.take(i));
    set_names_what_it_makes::<K, V>(g, w.key, w.value, w.fork_id, w.split_id);
    stays_delta::<K, V>(f, writes, i + 1, j, t);
    route_separates::<K>(h.index, writes[j].key);
    assert(h.index[route::<K>(h.index, writes[j].key)].1 == h.target(writes[j].key));
    assert(names::<K>(h.index, h.target(writes[j].key)));
}

/// Copying the target into a delta leaves no delta with entries outside the index.
proof fn fork_keeps_entries_named<K: ArrowWriteableKey, V: ArrowWriteableValue>(
    f: FileModel<K, V>,
    k: KeyModel<K>,
    new: u128,
)
    requires
        sound::<K, V>(f),
        entries_named::<K, V>(f),
        f.forks(k),
        f.stored[f.target(k)].len() > 0,
        !f.has_block(new),
    ensures
        entries_named::<K, V>(f.fork(f.target(k), new)),
{
    let p = route::<K>(f.index, k);
    let g = f.fork(f.target(k), new);
    fork_step::<K, V>(f, k, new);
    route_separates::<K>(f.index, k);
    assert(g.index[p].1 == new);
    assert forall|id: u128|
        f.deltas.contains_key(id) && names::<K>(f.index, id) implies #[trigger] names::<K>(
        g.index,
        id,
    ) by {
        let i = choose|i: int| 0 <= i < f.index.len() && (#[trigger] f.index[i]).1 == id;
        assert(i != p);
        assert(g.index[i] == f.index[i]);
    }
    assert forall|id: u128| #[trigger] g.deltas.contains_key(id) implies id == new
        || f.deltas.contains_key(id) && g.deltas[id] == f.deltas[id] by {}
    assert(names::<K>(g.index, new));
}

/// Splitting the target leaves no delta with entries outside the index.
proof fn split_keeps_entries_named<K: ArrowWriteableKey, V: ArrowWriteableValue>(
    f: FileModel<K, V>,
    k: KeyModel<K>,
    v: V::V,
    new: u128,
)
    requires
        sound::<K, V>(f),
        entries_named::<K, V>(f),
        !f.forks(k),
        f.block(f.target(k)).len() > 0,
        !f.has_block(new),
    ensures
        entries_named::<K, V>(f.split_and_add(f.target(k), new, k, v)),
{
    let p = route::<K>(f.index, k);
    let t = f.target(k);
    let b = f.deltas[t];
    let c = split_point::<K, V>(b);
    let s = f.split_key(k);
    let h = f.split_and_add(t, new, k, v);
    route_separates::<K>(f.index, k);
    split_key_route::<K, V>(f, k);
    with_block_ids::<K>(f.index, s, new);
    assert(f.index[p].1 == t);
    assert(names::<K>(f.index, t));
    if f.index[p].0 == Some(s) {
        assert(c == 0) by {
            broadcast use group_key_order;

            assert(f.block(f.index[p].1).len() > 0);
            assert(sorted::<K, V>(f.block(f.index[p].1)));
            assert(f.index[p].0 == Some(b[0].0));
            if c > 0 {
                assert(key_precedes::<K>(b[0].0, b[c].0));
            }
        }
    }
    assert forall|id: u128| #[trigger]
        h.deltas.contains_key(id) && h.deltas[id].len() > 0 implies names::<K>(h.index, id) by {
        if id != new {
            assert(id == t || h.deltas[id] == f.deltas[id]);
            assert(names::<K>(f.index, id));
            assert(f.index[p] != (Some(s), id));
        }
    }
}

/// A write to a sound blockfile leaves no delta that holds an entry outside the index, also where
/// it puts a new block in the place of a delta.
pub proof fn set_keeps_entries_named<K: ArrowWriteableKey, V: ArrowWriteableValue>(
    f: FileModel<K, V>,
    k: KeyModel<K>,
    v: V::V,
    fork_id: u128,
    split_id: u128,
)
    requires
        sound::<K, V>(f),
        entries_named::<K, V>(f),
        f.writable(k, v),
        ids_fresh::<K, V>(f, k, v, fork_id, split_id),
    ensures
        entries_named::<K, V>(f.set(k, v, fork_id, split_id)),
{
    let g = copied_for::<K, V>(f, k, fork_id);
    if f.forks(k) {
        fork_step::<K, V>(f, k, fork_id);
        fork_keeps_entries_named::<K, V>(f, k, fork_id);
    }
    if f.splits(k, v) {
        split_keeps_entries_named::<K, V>(g, k, v, split_id);
    } else {
        let h = f.set(k, v, fork_id, split_id);
        let id = g.target(k);
        route_separates::<K>(g.index, k);
        assert(g.index[route::<K>(g.index, k)].1 == id);
        assert(names::<K>(g.index, id));
        assert forall|x: u128| #[trigger] h.deltas.contains_key(x) implies x == id || (
        g.deltas.contains_key(x) && h.deltas[x] == g.deltas[x]) by {}
    }
}

/// In a sound blockfile, a write puts a new block in the place of a delta only where it splits a
/// target that is not the first block and holds a single entry. The delta is that of the target.
pub proof fn displacing_is_rare<K: ArrowWriteableKey, V: ArrowWriteableValue>(
    f: FileModel<K, V>,
    k: KeyModel<K>,
    v: V::V,
    fork_id: u128,
    split_id: u128,
)
    requires
        sound::<K, V>(f),
        f.writable(k, v),
        ids_fresh::<K, V>(f, k, v, fork_id, split_id),
    ensures
        displaces::<K, V>(f, k, v, fork_id) <==> {
            &&& f.splits(k, v)
            &&& route::<K>(f.index, k) > 0
            &&& f.block(f.target(k)).len() == 1
        },
{
    let p = route::<K>(f.index, k);
    let t = f.target(k);
    let g = copied_for::<K, V>(f, k, fork_id);
    route_separates::<K>(f.index, k);
    assert(f.index[p].1 == t);
    if f.forks(k) {
        let least = f.stored[t][0].0;
        fork_step::<K, V>(f, k, fork_id);
        if f.index[0].1 != t && delta_starts_at::<K, V>(f, least) {
            let i = choose|i: int|
                0 <= i < f.index.len() && (#[trigger] f.index[i]).0 == Some(least)
                    && f.deltas.contains_key(f.index[i].1);
            assert(f.index[p].0 == Some(least));
            route_of_start::<K>(f.index, least, i);
            route_of_start::<K>(f.index, least, p);
        }
    }
    if f.splits(k, v) {
        let b = f.block(t);
        let c = split_point::<K, V>(b);
        let s = f.split_key(k);
        let r = route::<K>(g.index, k);
        split_point_range::<K, V>(b);
        split_key_route::<K, V>(g, k);
        route_separates::<K>(g.index, k);
        if delta_starts_at::<K, V>(g, s) {
            let i = choose|i: int|
                0 <= i < g.index.len() && (#[trigger] g.index[i]).0 == Some(s)
                    && g.deltas.contains_key(g.index[i].1);
            route_of_start::<K>(g.index, s, i);
        }
        if r > 0 {
            broadcast use group_key_order;

            assert(g.index[r].0 == Some(g.block(g.index[r].1)[0].0));
            assert(sorted::<K, V>(g.block(g.index[r].1)));
            if c > 0 {
                assert(key_precedes::<K>(b[0].0, b[c].0));
            }
        }
    }
}

/// Every block of the index is a delta.
pub open spec fn all_deltas<K: ArrowWriteableKey, V: ArrowWriteableValue>(
    f: FileModel<K, V>,
) -> bool {
    forall|id: u128| #[trigger] names::<K>(f.index, id) ==> f.deltas.contains_key(id)
}

/// A blockfile whose blocks are all deltas is written without copying a stored block, and its
/// blocks stay deltas.
proof fn set_keeps_all_deltas<K: ArrowWriteableKey, V: ArrowWriteableValue>(
    f: FileModel<K, V>,
    k: KeyModel<K>,
    v: V::V,
    fork_id: u128,
    split_id: u128,
)
    requires
        index_valid::<K>(f.index),
        f.index.len() > 0,
        all_deltas::<K, V>(f),
        f.writable(k, v),
    ensures
        !f.forks(k),
        all_deltas::<K, V>(f.set(k, v, fork_id, split_id)),
{
    route_separates::<K>(f.index, k);
    assert(f.index[route::<K>(f.index, k)].1 == f.target(k));
    assert(names::<K>(f.index, f.target(k)));
    set_names_what_it_makes::<K, V>(f, k, v, fork_id, split_id);
}

/// The blocks of a blockfile with one empty block are placed, and are its deltas.
proof fn initial_is_placed<K: ArrowWriteableKey, V: ArrowWriteableValue>(
    block: u128,
    stored: StoreModel<K, V>,
)
    ensures
        placed::<K, V>(FileModel::<K, V>::initial(block, stored)),
        all_deltas::<K, V>(FileModel::<K, V>::initial(block, stored)),
        deltas_named::<K, V>(FileModel::<K, V>::initial(block, stored)),
{
    let f = FileModel::<K, V>::initial(block, stored);
    assert(f.index[0].1 == block);
    assert forall|id: u128| #[trigger] names::<K>(f.index, id) implies id == block by {
        let i = choose|i: int| 0 <= i < f.index.len() && (#[trigger] f.index[i]).1 == id;
        assert(i == 0);
    }
    assert(names::<K>(f.index, block));
}

/// Over a run of writes to a new blockfile its blocks are deltas.
pub(crate) proof fn new_file_run<K: ArrowWriteableKey, V: ArrowWriteableValue>(
    block: u128,
    stored: StoreModel<K, V>,
    writes: Seq<Write<K, V>>,
)
    requires
        runnable::<K, V>(FileModel::<K, V>::initial(block, stored), writes),
    ensures
        ({
            let f = FileModel::<K, V>::initial(block, stored);
            let g = after::<K, V>(f, writes);
            &&& index_valid::<K>(g.index)
            &&& g.index.len() > 0
            &&& all_deltas::<K, V>(g)
        }),
    decreases writes.len(),
{
    let f = FileModel::<K, V>::initial(block, stored);
    initial_is_placed::<K, V>(block, stored);
    if writes.len() > 0 {
        let g = after::<K, V>(f, writes.drop_last());
        let w = writes.last();
        new_file_run::<K, V>(block, stored, writes.drop_last());
        set_names_what_it_makes::<K, V>(g, w.key, w.value, w.fork_id, w.split_id);
        set_keeps_all_deltas::<K, V>(g, w.key, w.value, w.fork_id, w.split_id);
    }
}

/// No write to a new blockfile copies a stored block.
pub proof fn new_file_copies_nothing<K: ArrowWriteableKey, V: ArrowWriteableValue>(
    block: u128,
    stored: StoreModel<K, V>,
    writes: Seq<Write<K, V>>,
    i: int,
)
    requires
        runnable::<K, V>(FileModel::<K, V>::initial(block, stored), writes),
        0 <= i < writes.len(),
    ensures
        !after::<K, V>(FileModel::<K, V>::initial(block, stored), writes.take(i)).forks(
            writes[i].key,
        ),
{
    let f = FileModel::<K, V>::initial(block, stored);
    let g = after::<K, V>(f, writes.take(i));
    let w = writes[i];
    runnable_prefix::<K, V>(f, writes, i);
    new_file_run::<K, V>(block, stored, writes.take(i));
    set_keeps_all_deltas::<K, V>(g, w.key, w.value, w.fork_id, w.split_id);
}

/// The ids that an index names are as many as its blocks where no two places name one block.
proof fn count_of_ids<K: ArrowWriteableKey>(ix: IndexModel<K>)
    requires
        distinct::<K>(ix),
    ensures
        block_ids::<K>(ix).finite(),
        block_ids::<K>(ix).len() == ix.len(),
{
    let ids = ix.map_values(|e: (Option<KeyModel<K>>, u128)| e.1);
    assert(ids.no_duplicates()) by {
        assert forall|i: int, j: int|
            0 <= i < ids.len() && 0 <= j < ids.len() && i != j implies ids[i] != ids[j] by {
            assert(!named_twice::<K>(ix, ix[i].1));
            assert(ids[i] == ix[i].1 && ids[j] == ix[j].1);
        }
    }
    ids.unique_seq_to_set();
    assert(block_ids::<K>(ix) =~= ids.to_set()) by {
        assert forall|id: u128| names::<K>(ix, id) implies ids.to_set().contains(id) by {
            let i = choose|i: int| 0 <= i < ix.len() && (#[trigger] ix[i]).1 == id;
            assert(ids[i] == id);
        }
        assert forall|id: u128| ids.to_set().contains(id) implies names::<K>(ix, id) by {
            let i = choose|i: int| 0 <= i < ids.len() && ids[i] == id;
            assert(ix[i].1 == id);
        }
    }
}

/// A new blockfile commits every one of its blocks, of which there is at least one. It commits
/// nothing else, unless a write put a new block in the place of a delta. Where the ids drawn were
/// unused, it commits as many blocks as the index has places.
pub proof fn new_file_commits_its_blocks<K: ArrowWriteableKey, V: ArrowWriteableValue>(
    block: u128,
    stored: StoreModel<K, V>,
    writes: Seq<Write<K, V>>,
)
    requires
        runnable::<K, V>(FileModel::<K, V>::initial(block, stored), writes),
    ensures
        ({
            let f = FileModel::<K, V>::initial(block, stored);
            let g = after::<K, V>(f, writes);
            &&& block_ids::<K>(g.index).subset_of(g.deltas.dom())
            &&& g.index.len() >= 1
            &&& none_displaces::<K, V>(f, writes) ==> g.deltas.dom() == block_ids::<K>(g.index)
            &&& can_run::<K, V>(f, writes) ==> block_ids::<K>(g.index).len() == g.index.len()
        }),
{
    let f = FileModel::<K, V>::initial(block, stored);
    let g = after::<K, V>(f, writes);
    initial_is_placed::<K, V>(block, stored);
    new_file_run::<K, V>(block, stored, writes);
    run_keeps_deltas_named::<K, V>(f, writes);
    if none_displaces::<K, V>(f, writes) {
        assert(g.deltas.dom() =~= block_ids::<K>(g.index));
    }
    if can_run::<K, V>(f, writes) {
        run_keeps_placed::<K, V>(f, writes);
        count_of_ids::<K>(g.index);
    }
}

/// The blockfile over more stored blocks.
pub open spec fn over<K: ArrowWriteableKey, V: ArrowWriteableValue>(
    f: FileModel<K, V>,
    all: StoreModel<K, V>,
) -> FileModel<K, V> {
    FileModel { index: f.index, deltas: f.deltas, stored: all }
}

/// A write depends on no stored block but its target: over more of them it does the same.
pub proof fn set_ignores_other_blocks<K: ArrowWriteableKey, V: ArrowWriteableValue>(
    f: FileModel<K, V>,
    all: StoreModel<K, V>,
    k: KeyModel<K>,
    v: V::V,
    fork_id: u128,
    split_id: u128,
)
    requires
        f.writable(k, v),
        f.stored.submap_of(all),
    ensures
        over::<K, V>(f, all).writable(k, v),
        over::<K, V>(f, all).set(k, v, fork_id, split_id) == over::<K, V>(
            f.set(k, v, fork_id, split_id),
            all,
        ),
{
    assert(f.deltas.contains_key(f.target(k)) || f.stored.contains_key(f.target(k)));
}

/// A read depends on no stored block but its target: over more of them it finds the same.
pub proof fn lookup_ignores_other_blocks<K: ArrowWriteableKey, V: ArrowWriteableValue>(
    f: FileModel<K, V>,
    all: StoreModel<K, V>,
    x: KeyModel<K>,
)
    requires
        f.has_block(f.target(x)),
        f.stored.submap_of(all),
    ensures
        over::<K, V>(f, all).lookup(x) == f.lookup(x),
{
    assert(f.deltas.contains_key(f.target(x)) || f.stored.contains_key(f.target(x)));
}

/// The blockfile once the target of `k` is loaded, where it is not there yet.
pub open spec fn loaded_for<K: ArrowWriteableKey, V: ArrowWriteableValue>(
    f: FileModel<K, V>,
    all: StoreModel<K, V>,
    k: KeyModel<K>,
) -> FileModel<K, V> {
    if f.has_block(f.target(k)) {
        f
    } else {
        FileModel { stored: f.stored.insert(f.target(k), all[f.target(k)]), ..f }
    }
}

/// The blockfile after a run of writes before each of which its target is loaded on demand.
pub open spec fn after_on_demand<K: ArrowWriteableKey, V: ArrowWriteableValue>(
    f: FileModel<K, V>,
    all: StoreModel<K, V>,
    writes: Seq<Write<K, V>>,
) -> FileModel<K, V>
    decreases writes.len(),
{
    if writes.len() == 0 {
        f
    } else {
        let w = writes.last();
        let g = after_on_demand::<K, V>(f, all, writes.drop_last());
        loaded_for::<K, V>(g, all, w.key).set(w.key, w.value, w.fork_id, w.split_id)
    }
}

/// A run of writes that loads its targets on demand gives the index and the deltas that it gives
/// with all stored blocks at hand, and each of its writes can be done where that one can.
pub proof fn on_demand_writes_the_same<K: ArrowWriteableKey, V: ArrowWriteableValue>(
    f: FileModel<K, V>,
    all: StoreModel<K, V>,
    writes: Seq<Write<K, V>>,
)
    requires
        f.stored.submap_of(all),
        runnable::<K, V>(over::<K, V>(f, all), writes),
    ensures
        after_on_demand::<K, V>(f, all, writes).stored.submap_of(all),
        over::<K, V>(after_on_demand::<K, V>(f, all, writes), all) == after::<K, V>(
            over::<K, V>(f, all),
            writes,
        ),
        writes.len() > 0 ==> loaded_for::<K, V>(
            after_on_demand::<K, V>(f, all, writes.drop_last()),
            all,
            writes.last().key,
        ).writable(writes.last().key, writes.last().value),
    decreases writes.len(),
{
    if writes.len() > 0 {
        let rest = writes.drop_last();
        let w = writes.last();
        on_demand_writes_the_same::<K, V>(f, all, rest);
        let g = after_on_demand::<K, V>(f, all, rest);
        let h = loaded_for::<K, V>(g, all, w.key);
        let full = after::<K, V>(over::<K, V>(f, all), rest);
        assert(over::<K, V>(g, all) == full);
        assert(full.has_block(full.target(w.key)));
        assert(h.stored.submap_of(all));
        assert(over::<K, V>(h, all) == full);
        assert(h.has_block(h.target(w.key)));
        assert(h.writable(w.key, w.value));
        set_ignores_other_blocks::<K, V>(h, all, w.key, w.value, w.fork_id, w.split_id);
    }
}

/// A blockfile that is written with its blocks loaded on demand, committed and opened again holds
/// what it held, with what was written in its place.
pub proof fn on_demand_reads_back<K: ArrowWriteableKey, V: ArrowWriteableValue>(
    f: FileModel<K, V>,
    all: StoreModel<K, V>,
    writes: Seq<Write<K, V>>,
    x: KeyModel<K>,
)
    requires
        f.stored.submap_of(all),
        sound::<K, V>(over::<K, V>(f, all)),
        can_run::<K, V>(over::<K, V>(f, all), writes),
        none_misplaced::<K, V>(over::<K, V>(f, all), writes),
    ensures
        ({
            let g = after_on_demand::<K, V>(f, all, writes);
            FileModel::<K, V>::opened(g.index, all.union_prefer_right(g.deltas)).lookup(x) == (
            match last_written::<K, V>(writes, x) {
                Some(v) => Some(v),
                None => over::<K, V>(f, all).lookup(x),
            })
        }),
{
    let full = after::<K, V>(over::<K, V>(f, all), writes);
    let g = after_on_demand::<K, V>(f, all, writes);
    can_run_is_runnable::<K, V>(over::<K, V>(f, all), writes);
    on_demand_writes_the_same::<K, V>(f, all, writes);
    writes_read_back::<K, V>(over::<K, V>(f, all), writes);
    commit_keeps_contents::<K, V>(full);
    assert(over::<K, V>(g, all) == full);
    assert(full.lookup(x) == (match last_written::<K, V>(writes, x) {
        Some(v) => Some(v),
        None => over::<K, V>(f, all).lookup(x),
    }));
    assert(FileModel::<K, V>::opened(full.index, full.committed()).lookup(x) == full.lookup(x));
}

/// A run of writes of which none is misplaced leaves no delta that holds an entry outside the
/// index.
pub proof fn run_keeps_entries_named<K: ArrowWriteableKey, V: ArrowWriteableValue>(
    f: FileModel<K, V>,
    writes: Seq<Write<K, V>>,
)
    requires
        sound::<K, V>(f),
        entries_named::<K, V>(f),
        can_run::<K, V>(f, writes),
        none_misplaced::<K, V>(f, writes),
    ensures
        entries_named::<K, V>(after::<K, V>(f, writes)),
    decreases writes.len(),
{
    if writes.len() > 0 {
        let g = after::<K, V>(f, writes.drop_last());
        let w = writes.last();
        run_keeps_entries_named::<K, V>(f, writes.drop_last());
        writes_read_back::<K, V>(f, writes.drop_last());
        set_keeps_entries_named::<K, V>(g, w.key, w.value, w.fork_id, w.split_id);
    }
}

} // verus!
