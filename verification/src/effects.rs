//! What a read finds and what a write does, told by the entries of the blocks that they touch.

use crate::block::{
    find, find_is_membership, put, put_find, put_replaces_one_entry, put_sorted, rank, rank_at,
    rank_separates, sorted, sorted_entries_are_unique, subrange_sorted, EntryModel,
};
use crate::bookkeeping::{all_deltas, can_run_is_runnable, new_file_run};
use crate::key::{
    group_key_order, key_precedes, numbers_are_ordered_by_value, ArrowWriteableKey, KeyModel,
};
use crate::laws::{
    after, before_next, can_run, commit_keeps_contents, find_in_part, ids_fresh, increasing,
    increasing_writes_are_not_misplaced, initial_is_empty, last_written, misplaced,
    new_file_reads_back, put_below, replaced_in_place, route_after_insert, sound, Write,
};
use crate::model::FileModel;
use crate::provider::StoreModel;
use crate::size::{
    balanced_split_is_unique, block_size, limit_of_a_block, split_is_balanced, split_point,
    split_point_range,
};
use crate::sparse_index::{
    in_range, index_valid, names, reaches, route, route_is_between_starts, route_separates,
    same_starts, with_block, with_block_valid, with_replaced,
};
use crate::value::ArrowWriteableValue;
use vstd::prelude::*;

verus! {

/// A key is looked for in the block that starts in time for it and whose next one does not.
pub proof fn target_is_between_starts<K: ArrowWriteableKey, V: ArrowWriteableValue>(
    f: FileModel<K, V>,
    k: KeyModel<K>,
    p: int,
)
    requires
        index_valid::<K>(f.index),
        0 <= p < f.index.len(),
        p == 0 || !key_precedes::<K>(k, f.index[p].0->0),
        p + 1 == f.index.len() || key_precedes::<K>(k, f.index[p + 1].0->0),
    ensures
        f.target(k) == f.index[p].1,
{
    route_is_between_starts::<K>(f.index, k, p);
}

/// A read finds a value under a key where the block in which it looks has an entry of the two. That
/// block is the delta with the id that the index gives, or the stored block where there is no such
/// delta.
pub proof fn read_finds_the_entry_of_the_target<K: ArrowWriteableKey, V: ArrowWriteableValue>(
    f: FileModel<K, V>,
    k: KeyModel<K>,
    v: V::V,
)
    requires
        f.deltas.contains_key(f.target(k)) ==> sorted::<K, V>(f.deltas[f.target(k)]),
        f.stored.contains_key(f.target(k)) ==> sorted::<K, V>(f.stored[f.target(k)]),
    ensures
        f.lookup(k) == Some(v) <==> if f.deltas.contains_key(f.target(k)) {
            f.deltas[f.target(k)].contains((k, v))
        } else {
            f.stored.contains_key(f.target(k)) && f.stored[f.target(k)].contains((k, v))
        },
{
    if f.has_block(f.target(k)) {
        find_is_membership::<K, V>(f.block(f.target(k)), k);
        assert(f.block(f.target(k)).contains((k, v)) <==> find::<K, V>(
            f.block(f.target(k)),
            k,
        ) == Some(v));
    }
}

/// A write can be done in a delta that holds an entry, in an empty delta where the entry takes at
/// most 16384 bytes by itself, and in a stored block that holds an entry. It cannot be done
/// otherwise.
pub proof fn write_needs_a_target_with_room<K: ArrowWriteableKey, V: ArrowWriteableValue>(
    f: FileModel<K, V>,
    k: KeyModel<K>,
    v: V::V,
)
    ensures
        f.writable(k, v) <==> if f.deltas.contains_key(f.target(k)) {
            f.deltas[f.target(k)].len() > 0 || block_size::<K, V>(seq![(k, v)]) <= 16384
        } else {
            f.stored.contains_key(f.target(k)) && f.stored[f.target(k)].len() > 0
        },
{
    let b = f.block(f.target(k));
    if b.len() == 0 {
        assert(put::<K, V>(b, k, v) =~= seq![(k, v)]);
        limit_of_a_block::<K, V>(seq![(k, v)]);
    }
}

/// A write whose block stays within 16384 bytes puts the entry in that block and does nothing else.
/// Here `b` is the block of the target, and `n` the same block with the value under the key. Where
/// the target is a delta, `n` takes its place. Where it is stored, `n` becomes a delta with an id
/// of its own, which takes the place of the target in the index.
pub proof fn write_within_the_limit<K: ArrowWriteableKey, V: ArrowWriteableValue>(
    f: FileModel<K, V>,
    k: KeyModel<K>,
    v: V::V,
    fork_id: u128,
    split_id: u128,
    b: Seq<EntryModel<K, V>>,
    n: Seq<EntryModel<K, V>>,
)
    requires
        f.deltas.contains_key(f.target(k)) ==> b == f.deltas[f.target(k)],
        !f.deltas.contains_key(f.target(k)) ==> b == f.stored[f.target(k)],
        sorted::<K, V>(b),
        sorted::<K, V>(n),
        forall|x: KeyModel<K>, u: V::V| #[trigger]
            n.contains((x, u)) <==> if x == k {
                u == v
            } else {
                b.contains((x, u))
            },
        block_size::<K, V>(n) <= 16384,
    ensures
        ({
            let t = f.target(k);
            let h = f.set(k, v, fork_id, split_id);
            &&& h.stored == f.stored
            &&& f.deltas.contains_key(t) ==> h.index == f.index && h.deltas == f.deltas.insert(t, n)
            &&& !f.deltas.contains_key(t) ==> h.index == with_replaced::<K>(
                f.index,
                t,
                fork_id,
                b[0].0,
            ) && h.deltas == f.deltas.insert(fork_id, n)
        }),
{
    put_replaces_one_entry::<K, V>(b, k, v);
    sorted_entries_are_unique::<K, V>(n, put::<K, V>(b, k, v));
    limit_of_a_block::<K, V>(n);
    let h = f.set(k, v, fork_id, split_id);
    if f.forks(k) {
        assert(h.deltas =~= f.deltas.insert(fork_id, n));
    }
}

/// A write whose block would outgrow 16384 bytes leaves the entries before the place `c` in the
/// block, and makes a new block of the others with the value under the key. The new block is added
/// to the index at its least key before the write. The place `c` splits the block in balance. Here
/// `b` is the block of the target, `n` the same block with the value under the key, and `up` the
/// part of `b` from `c` on with the value under the key.
pub proof fn write_over_the_limit<K: ArrowWriteableKey, V: ArrowWriteableValue>(
    f: FileModel<K, V>,
    k: KeyModel<K>,
    v: V::V,
    fork_id: u128,
    split_id: u128,
    b: Seq<EntryModel<K, V>>,
    n: Seq<EntryModel<K, V>>,
    c: int,
    up: Seq<EntryModel<K, V>>,
)
    requires
        f.deltas.contains_key(f.target(k)) ==> b == f.deltas[f.target(k)],
        !f.deltas.contains_key(f.target(k)) ==> b == f.stored[f.target(k)],
        sorted::<K, V>(b),
        sorted::<K, V>(n),
        sorted::<K, V>(up),
        forall|x: KeyModel<K>, u: V::V| #[trigger]
            n.contains((x, u)) <==> if x == k {
                u == v
            } else {
                b.contains((x, u))
            },
        block_size::<K, V>(n) > 16384,
        0 <= c < b.len(),
        b.len() > 1 ==> {
            &&& c >= 1
            &&& block_size::<K, V>(b.take(c)) <= 8192 || c == 1
            &&& block_size::<K, V>(b.take(c + 1)) > 8192 || c + 1 == b.len()
        },
        forall|x: KeyModel<K>, u: V::V| #[trigger]
            up.contains((x, u)) <==> if x == k {
                u == v
            } else {
                b.skip(c).contains((x, u))
            },
    ensures
        ({
            let t = f.target(k);
            let h = f.set(k, v, fork_id, split_id);
            &&& h.stored == f.stored
            &&& f.deltas.contains_key(t) ==> h.index == with_block::<K>(f.index, b[c].0, split_id)
                && h.deltas == f.deltas.insert(t, b.take(c)).insert(split_id, up)
            &&& !f.deltas.contains_key(t) ==> h.index == with_block::<K>(
                with_replaced::<K>(f.index, t, fork_id, b[0].0),
                b[c].0,
                split_id,
            ) && h.deltas == f.deltas.insert(fork_id, b.take(c)).insert(split_id, up)
        }),
{
    put_replaces_one_entry::<K, V>(b, k, v);
    sorted_entries_are_unique::<K, V>(n, put::<K, V>(b, k, v));
    limit_of_a_block::<K, V>(n);
    if b.len() > 1 {
        balanced_split_is_unique::<K, V>(b, c);
    } else {
        split_point_range::<K, V>(b);
    }
    assert(b.skip(c) =~= b.subrange(c, b.len() as int));
    subrange_sorted::<K, V>(b, c, b.len() as int);
    put_replaces_one_entry::<K, V>(b.skip(c), k, v);
    sorted_entries_are_unique::<K, V>(up, put::<K, V>(b.skip(c), k, v));
    let h = f.set(k, v, fork_id, split_id);
    if f.forks(k) {
        assert(h.deltas =~= f.deltas.insert(fork_id, b.take(c)).insert(split_id, up));
    }
}

/// An id that no delta, no stored block and no block of the index has.
pub open spec fn is_unused<K: ArrowWriteableKey, V: ArrowWriteableValue>(
    f: FileModel<K, V>,
    id: u128,
) -> bool {
    &&& !f.deltas.contains_key(id)
    &&& !f.stored.contains_key(id)
    &&& forall|j: int| 0 <= j < f.index.len() ==> (#[trigger] f.index[j]).1 != id
}

/// Copying a block that starts at its least key, or that is the first one, changes nothing for
/// reads.
proof fn copy_in_place<K: ArrowWriteableKey, V: ArrowWriteableValue>(
    f: FileModel<K, V>,
    p: int,
    new: u128,
)
    requires
        index_valid::<K>(f.index),
        0 <= p < f.index.len(),
        f.stored.contains_key(f.index[p].1),
        !f.deltas.contains_key(f.index[p].1),
        forall|j: int| 0 <= j < f.index.len() && j != p ==> (#[trigger] f.index[j]).1
            != f.index[p].1,
        p == 0 || f.index[p].0 == Some(f.stored[f.index[p].1][0].0),
        is_unused::<K, V>(f, new),
    ensures
        ({
            let g = f.fork(f.index[p].1, new);
            &&& g.index == f.index.update(p, (f.index[p].0, new))
            &&& index_valid::<K>(g.index)
            &&& forall|x: KeyModel<K>| #[trigger] g.lookup(x) == f.lookup(x)
        }),
{
    let t = f.index[p].1;
    let g = f.fork(t, new);
    replaced_in_place::<K>(f.index, p, new, f.stored[t][0].0);
    assert forall|x: KeyModel<K>| #[trigger] g.lookup(x) == f.lookup(x) by {
        same_starts::<K>(f.index, g.index, x);
        route_separates::<K>(f.index, x);
        let r = route::<K>(f.index, x);
        assert(f.index[r].1 != new);
    }
    same_starts::<K>(f.index, g.index, f.stored[t][0].0);
}

/// Splitting a delta at a key that belongs to it changes nothing for reads of keys other than the
/// one that is written.
proof fn split_in_range<K: ArrowWriteableKey, V: ArrowWriteableValue>(
    f: FileModel<K, V>,
    k: KeyModel<K>,
    v: V::V,
    p: int,
    new: u128,
)
    requires
        index_valid::<K>(f.index),
        0 <= p < f.index.len(),
        route::<K>(f.index, k) == p,
        f.deltas.contains_key(f.index[p].1),
        f.deltas[f.index[p].1].len() > 0,
        sorted::<K, V>(f.deltas[f.index[p].1]),
        forall|j: int| 0 <= j < f.index.len() && j != p ==> (#[trigger] f.index[j]).1
            != f.index[p].1,
        route::<K>(f.index, f.split_key(k)) == p,
        is_unused::<K, V>(f, new),
    ensures
        ({
            let h = f.split_and_add(f.index[p].1, new, k, v);
            &&& forall|x: KeyModel<K>| x != k ==> #[trigger] h.lookup(x) == f.lookup(x)
            &&& h.lookup(k) == (if key_precedes::<K>(k, f.split_key(k)) {
                f.lookup(k)
            } else {
                Some(v)
            })
        }),
{
    let t = f.index[p].1;
    let b = f.deltas[t];
    let c = split_point::<K, V>(b);
    let s = b[c].0;
    let h = f.split_and_add(t, new, k, v);
    split_point_range::<K, V>(b);
    assert(f.split_key(k) == s);
    assert(b.skip(c) =~= b.subrange(c, b.len() as int));
    subrange_sorted::<K, V>(b, c, b.len() as int);
    put_find::<K, V>(b.skip(c), k, v);
    assert forall|x: KeyModel<K>| #[trigger] h.lookup(x) == (if x == k && !key_precedes::<K>(k, s) {
        Some(v)
    } else {
        f.lookup(x)
    }) by {
        let r = route::<K>(f.index, x);
        route_separates::<K>(f.index, x);
        find_in_part::<K, V>(b, c, x);
        assert(f.index[r].1 != new);
        if f.index[p].0 == Some(s) {
            assert(h.index == f.index.update(p, (Some(s), new)));
            same_starts::<K>(f.index, h.index, x);
        } else {
            route_after_insert::<K>(f.index, p, s, new, x);
        }
    }
}

/// A write to a block that is named once and whose keys belong to it leaves what a read finds under
/// every other key, also where the blockfile is not sound. Under the key it makes the value the one
/// that is found, unless the block is split at a key after it: a read of the key then finds what it
/// found before. The first of several keys of the block may lie outside. A block that is copied is
/// the first one, or starts at its least key.
///
/// Here `p` is the place of the block, `b` the block, `n` the block with the value under the key, and
/// `c` the place at which `b` is split in balance.
pub proof fn write_leaves_other_keys<K: ArrowWriteableKey, V: ArrowWriteableValue>(
    f: FileModel<K, V>,
    k: KeyModel<K>,
    v: V::V,
    fork_id: u128,
    split_id: u128,
    p: int,
    b: Seq<EntryModel<K, V>>,
    n: Seq<EntryModel<K, V>>,
    c: int,
)
    requires
        index_valid::<K>(f.index),
        0 <= p < f.index.len(),
        in_range::<K>(f.index, p, k),
        forall|j: int| 0 <= j < f.index.len() && j != p ==> (#[trigger] f.index[j]).1
            != f.index[p].1,
        f.deltas.contains_key(f.index[p].1) ==> b == f.deltas[f.index[p].1],
        !f.deltas.contains_key(f.index[p].1) ==> {
            &&& f.stored.contains_key(f.index[p].1)
            &&& b == f.stored[f.index[p].1]
            &&& b.len() > 0
            &&& p == 0 || f.index[p].0 == Some(b[0].0)
        },
        sorted::<K, V>(b),
        forall|j: int|
            0 <= j < b.len() && (j > 0 || b.len() == 1) ==> in_range::<K>(
                f.index,
                p,
                (#[trigger] b[j]).0,
            ),
        sorted::<K, V>(n),
        forall|x: KeyModel<K>, u: V::V| #[trigger]
            n.contains((x, u)) <==> if x == k {
                u == v
            } else {
                b.contains((x, u))
            },
        block_size::<K, V>(n) > 16384 ==> 0 <= c < b.len(),
        block_size::<K, V>(n) > 16384 && b.len() > 1 ==> {
            &&& c >= 1
            &&& block_size::<K, V>(b.take(c)) <= 8192 || c == 1
            &&& block_size::<K, V>(b.take(c + 1)) > 8192 || c + 1 == b.len()
        },
        !f.deltas.contains_key(f.index[p].1) ==> is_unused::<K, V>(f, fork_id),
        block_size::<K, V>(n) > 16384 ==> is_unused::<K, V>(f, split_id),
        !f.deltas.contains_key(f.index[p].1) && block_size::<K, V>(n) > 16384 ==> fork_id
            != split_id,
    ensures
        forall|x: KeyModel<K>|
            x != k ==> #[trigger] f.set(k, v, fork_id, split_id).lookup(x) == f.lookup(x),
        f.set(k, v, fork_id, split_id).lookup(k) == (if block_size::<K, V>(n) > 16384
            && key_precedes::<K>(k, b[c].0) {
            f.lookup(k)
        } else {
            Some(v)
        }),
{
    let t = f.index[p].1;
    target_is_between_starts::<K, V>(f, k, p);
    route_is_between_starts::<K>(f.index, k, p);
    put_replaces_one_entry::<K, V>(b, k, v);
    sorted_entries_are_unique::<K, V>(n, put::<K, V>(b, k, v));
    limit_of_a_block::<K, V>(n);
    let g = if f.forks(k) {
        copy_in_place::<K, V>(f, p, fork_id);
        same_starts::<K>(f.index, f.fork(t, fork_id).index, k);
        f.fork(t, fork_id)
    } else {
        f
    };
    let h = f.set(k, v, fork_id, split_id);
    assert(g.index[p].0 == f.index[p].0);
    if f.splits(k, v) {
        if b.len() > 1 {
            balanced_split_is_unique::<K, V>(b, c);
        } else {
            split_point_range::<K, V>(b);
        }
        let s = b[c].0;
        assert(in_range::<K>(f.index, p, s));
        route_is_between_starts::<K>(f.index, s, p);
        same_starts::<K>(f.index, g.index, s);
        assert(g.split_key(k) == s);
        split_in_range::<K, V>(g, k, v, p, split_id);
        assert forall|x: KeyModel<K>| x != k implies #[trigger] h.lookup(x) == f.lookup(x) by {
            assert(g.lookup(x) == f.lookup(x));
        }
        assert(g.lookup(k) == f.lookup(k));
    } else {
        put_find::<K, V>(b, k, v);
        assert forall|x: KeyModel<K>| x != k implies #[trigger] h.lookup(x) == f.lookup(x) by {
            assert(g.lookup(x) == f.lookup(x));
        }
    }
}

/// A write into a delta that stays within 16384 bytes leaves what a read finds under every other
/// key, and makes the value the one that is found under the key, whatever the index gives for the
/// other keys and however often it names the delta.
pub proof fn write_in_place_leaves_other_keys<K: ArrowWriteableKey, V: ArrowWriteableValue>(
    f: FileModel<K, V>,
    k: KeyModel<K>,
    v: V::V,
    fork_id: u128,
    split_id: u128,
    n: Seq<EntryModel<K, V>>,
)
    requires
        f.deltas.contains_key(f.target(k)),
        sorted::<K, V>(f.deltas[f.target(k)]),
        sorted::<K, V>(n),
        forall|x: KeyModel<K>, u: V::V| #[trigger]
            n.contains((x, u)) <==> if x == k {
                u == v
            } else {
                f.deltas[f.target(k)].contains((x, u))
            },
        block_size::<K, V>(n) <= 16384,
    ensures
        f.set(k, v, fork_id, split_id).lookup(k) == Some(v),
        forall|x: KeyModel<K>|
            x != k ==> #[trigger] f.set(k, v, fork_id, split_id).lookup(x) == f.lookup(x),
{
    let b = f.deltas[f.target(k)];
    put_replaces_one_entry::<K, V>(b, k, v);
    sorted_entries_are_unique::<K, V>(n, put::<K, V>(b, k, v));
    limit_of_a_block::<K, V>(n);
    put_find::<K, V>(b, k, v);
}

/// A write is misplaced where its block would outgrow 16384 bytes and is split at a key after the
/// one that is written, and only there. Here `b` is the block of the target, `n` the block with the
/// value under the key, and `c` the place at which `b` is split in balance.
pub proof fn misplaced_key_is_below_the_split<K: ArrowWriteableKey, V: ArrowWriteableValue>(
    f: FileModel<K, V>,
    k: KeyModel<K>,
    v: V::V,
    b: Seq<EntryModel<K, V>>,
    n: Seq<EntryModel<K, V>>,
    c: int,
)
    requires
        f.deltas.contains_key(f.target(k)) ==> b == f.deltas[f.target(k)],
        !f.deltas.contains_key(f.target(k)) ==> b == f.stored[f.target(k)],
        sorted::<K, V>(b),
        sorted::<K, V>(n),
        forall|x: KeyModel<K>, u: V::V| #[trigger]
            n.contains((x, u)) <==> if x == k {
                u == v
            } else {
                b.contains((x, u))
            },
        0 <= c < b.len(),
        b.len() > 1 ==> {
            &&& c >= 1
            &&& block_size::<K, V>(b.take(c)) <= 8192 || c == 1
            &&& block_size::<K, V>(b.take(c + 1)) > 8192 || c + 1 == b.len()
        },
    ensures
        misplaced::<K, V>(f, k, v) <==> block_size::<K, V>(n) > 16384 && key_precedes::<K>(
            k,
            b[c].0,
        ),
{
    put_replaces_one_entry::<K, V>(b, k, v);
    sorted_entries_are_unique::<K, V>(n, put::<K, V>(b, k, v));
    limit_of_a_block::<K, V>(n);
    if b.len() > 1 {
        balanced_split_is_unique::<K, V>(b, c);
    } else {
        split_point_range::<K, V>(b);
    }
}

/// Every block of the index is there, no two places name one block, and the keys of a block precede
/// the start of the next one. A block after the first holds an entry at the key it starts at, with
/// at most one entry before it.
pub open spec fn tidy<K: ArrowWriteableKey, V: ArrowWriteableValue>(f: FileModel<K, V>) -> bool {
    &&& index_valid::<K>(f.index)
    &&& f.index.len() > 0
    &&& forall|i: int|
        0 <= i < f.index.len() ==> f.has_block((#[trigger] f.index[i]).1) && sorted::<K, V>(
            f.block(f.index[i].1),
        )
    &&& forall|i: int, j: int|
        0 <= i < j < f.index.len() ==> (#[trigger] f.index[i]).1 != (#[trigger] f.index[j]).1
    &&& forall|i: int| 0 < i < f.index.len() ==> starts_near::<K, V>(
        f.block((#[trigger] f.index[i]).1),
        f.index[i].0->0,
    )
    &&& forall|i: int, j: int|
        0 <= i < f.index.len() - 1 && 0 <= j < f.block(f.index[i].1).len()
            ==> #[trigger] before_next::<K, V>(f, i, j)
}

/// The first key of the block is `s`, or the second.
pub open spec fn starts_near<K: ArrowWriteableKey, V: ArrowWriteableValue>(
    b: Seq<EntryModel<K, V>>,
    s: KeyModel<K>,
) -> bool {
    (b.len() > 0 && b[0].0 == s) || (b.len() > 1 && b[1].0 == s)
}

/// A sound blockfile is tidy.
pub proof fn sound_is_tidy<K: ArrowWriteableKey, V: ArrowWriteableValue>(f: FileModel<K, V>)
    requires
        sound::<K, V>(f),
    ensures
        tidy::<K, V>(f),
{
    assert forall|i: int| 0 < i < f.index.len() implies starts_near::<K, V>(
        f.block((#[trigger] f.index[i]).1),
        f.index[i].0->0,
    ) by {
        assert(f.index[i].0 == Some(f.block(f.index[i].1)[0].0));
    }
}

/// Putting a value under a key keeps the keys of the entries that do not come after it in place.
proof fn put_keeps_key<K: ArrowWriteableKey, V: ArrowWriteableValue>(
    b: Seq<EntryModel<K, V>>,
    k: KeyModel<K>,
    v: V::V,
    j: int,
)
    requires
        sorted::<K, V>(b),
        0 <= j < b.len(),
        !key_precedes::<K>(k, b[j].0),
    ensures
        put::<K, V>(b, k, v).len() > j,
        put::<K, V>(b, k, v)[j].0 == b[j].0,
{
    broadcast use group_key_order;

    let r = rank::<K, V>(b, k);
    rank_separates::<K, V>(b, k);
    if r < j {
        assert(key_precedes::<K>(b[r].0, b[j].0));
        assert(!key_precedes::<K>(b[r].0, k));
    } else if r == j {
        assert(!key_precedes::<K>(b[j].0, k));
    }
}

/// Putting a value keeps a block near its start, where the key is not before the start.
proof fn put_stays_near<K: ArrowWriteableKey, V: ArrowWriteableValue>(
    b: Seq<EntryModel<K, V>>,
    k: KeyModel<K>,
    v: V::V,
    s: KeyModel<K>,
)
    requires
        sorted::<K, V>(b),
        starts_near::<K, V>(b, s),
        !key_precedes::<K>(k, s),
    ensures
        starts_near::<K, V>(put::<K, V>(b, k, v), s),
{
    if b[0].0 == s {
        put_keeps_key::<K, V>(b, k, v, 0);
    } else {
        put_keeps_key::<K, V>(b, k, v, 1);
    }
}

/// The upper part of a split block starts near the split key whatever is put in it.
proof fn put_starts_near<K: ArrowWriteableKey, V: ArrowWriteableValue>(
    b: Seq<EntryModel<K, V>>,
    k: KeyModel<K>,
    v: V::V,
)
    requires
        sorted::<K, V>(b),
        b.len() > 0,
    ensures
        starts_near::<K, V>(put::<K, V>(b, k, v), b[0].0),
{
    broadcast use group_key_order;

    if key_precedes::<K>(k, b[0].0) {
        assert forall|i: int| 0 <= i < b.len() implies !key_precedes::<K>(#[trigger] b[i].0, k) by {
            if i > 0 {
                assert(key_precedes::<K>(b[0].0, b[i].0));
            }
        }
        rank_at::<K, V>(b, k, 0);
        assert(put::<K, V>(b, k, v)[1] == b[0]);
    } else {
        put_keeps_key::<K, V>(b, k, v, 0);
    }
}

/// The keys of a block of a tidy blockfile belong to it, but for the first of several.
proof fn tidy_keys_are_in_range<K: ArrowWriteableKey, V: ArrowWriteableValue>(
    f: FileModel<K, V>,
    p: int,
)
    requires
        tidy::<K, V>(f),
        0 <= p < f.index.len(),
    ensures
        forall|j: int|
            0 <= j < f.block(f.index[p].1).len() && (j > 0 || f.block(f.index[p].1).len() == 1)
                ==> in_range::<K>(f.index, p, (#[trigger] f.block(f.index[p].1)[j]).0),
{
    broadcast use group_key_order;

    let b = f.block(f.index[p].1);
    assert(sorted::<K, V>(b));
    assert forall|j: int| 0 <= j < b.len() && (j > 0 || b.len() == 1) implies in_range::<K>(
        f.index,
        p,
        (#[trigger] b[j]).0,
    ) by {
        if p + 1 < f.index.len() {
            assert(before_next::<K, V>(f, p, j));
        }
        if p > 0 {
            assert(starts_near::<K, V>(f.block(f.index[p].1), f.index[p].0->0));
            if j > 0 {
                assert(key_precedes::<K>(b[0].0, b[j].0));
            }
            if j > 1 {
                assert(key_precedes::<K>(b[1].0, b[j].0));
            }
        }
    }
}

/// Copying a block that starts at its least key, or that is the first one, keeps a blockfile tidy.
proof fn copy_keeps_tidy<K: ArrowWriteableKey, V: ArrowWriteableValue>(
    f: FileModel<K, V>,
    p: int,
    new: u128,
)
    requires
        tidy::<K, V>(f),
        0 <= p < f.index.len(),
        !f.deltas.contains_key(f.index[p].1),
        p == 0 || f.index[p].0 == Some(f.stored[f.index[p].1][0].0),
        !f.has_block(new),
    ensures
        is_unused::<K, V>(f, new),
        tidy::<K, V>(f.fork(f.index[p].1, new)),
{
    let t = f.index[p].1;
    let g = f.fork(t, new);
    assert forall|j: int| 0 <= j < f.index.len() implies (#[trigger] f.index[j]).1 != new by {
        assert(f.has_block(f.index[j].1));
    }
    assert(f.has_block(f.index[p].1));
    assert forall|j: int| 0 <= j < f.index.len() && j != p implies (#[trigger] f.index[j]).1
        != f.index[p].1 by {
        assert(j < p || p < j);
    }
    copy_in_place::<K, V>(f, p, new);
    assert forall|i: int| 0 <= i < g.index.len() implies g.has_block((#[trigger] g.index[i]).1)
        && g.block(g.index[i].1) == f.block(f.index[i].1) && g.index[i].0 == f.index[i].0 && sorted::<
        K,
        V,
    >(g.block(g.index[i].1)) by {
        assert(f.has_block(f.index[i].1));
    }
    assert forall|i: int, j: int| 0 <= i < j < g.index.len() implies (#[trigger] g.index[i]).1 != (
    #[trigger] g.index[j]).1 by {
        assert(f.index[i].1 != f.index[j].1);
    }
    assert forall|i: int| 0 < i < g.index.len() implies starts_near::<K, V>(
        g.block((#[trigger] g.index[i]).1),
        g.index[i].0->0,
    ) by {
        assert(starts_near::<K, V>(f.block(f.index[i].1), f.index[i].0->0));
    }
    assert forall|i: int, j: int|
        0 <= i < g.index.len() - 1 && 0 <= j < g.block(
            g.index[i].1,
        ).len() implies #[trigger] before_next::<K, V>(g, i, j) by {
        assert(g.index[i + 1].0 == f.index[i + 1].0);
        assert(before_next::<K, V>(f, i, j));
    }
}

/// Adding to a delta in place keeps a blockfile tidy.
proof fn add_keeps_tidy<K: ArrowWriteableKey, V: ArrowWriteableValue>(
    f: FileModel<K, V>,
    k: KeyModel<K>,
    v: V::V,
)
    requires
        tidy::<K, V>(f),
        f.deltas.contains_key(f.target(k)),
    ensures
        tidy::<K, V>(f.add_in_place(f.target(k), k, v)),
{
    let p = route::<K>(f.index, k);
    let t = f.target(k);
    let b = f.deltas[t];
    let n = put::<K, V>(b, k, v);
    let h = f.add_in_place(t, k, v);
    route_separates::<K>(f.index, k);
    assert(f.index[p].1 == t);
    assert(sorted::<K, V>(f.block(f.index[p].1)));
    put_sorted::<K, V>(b, k, v);
    assert forall|i: int| 0 <= i < h.index.len() implies h.has_block((#[trigger] h.index[i]).1)
        && h.block(h.index[i].1) == (if i == p {
        n
    } else {
        f.block(f.index[i].1)
    }) && sorted::<K, V>(h.block(h.index[i].1)) by {
        assert(f.has_block(f.index[i].1) && sorted::<K, V>(f.block(f.index[i].1)));
        if i < p {
            assert(f.index[i].1 != f.index[p].1);
        } else if p < i {
            assert(f.index[p].1 != f.index[i].1);
        }
    }
    if p > 0 {
        assert(starts_near::<K, V>(f.block(f.index[p].1), f.index[p].0->0));
        assert(reaches::<K>(f.index[p].0, k));
        put_stays_near::<K, V>(b, k, v, f.index[p].0->0);
    }
    assert forall|i: int| 0 < i < h.index.len() implies starts_near::<K, V>(
        h.block((#[trigger] h.index[i]).1),
        h.index[i].0->0,
    ) by {
        assert(starts_near::<K, V>(f.block(f.index[i].1), f.index[i].0->0));
    }
    if p + 1 < f.index.len() {
        let s = f.index[p + 1].0->0;
        assert(!reaches::<K>(f.index[p + 1].0, k));
        assert forall|j: int| 0 <= j < b.len() implies key_precedes::<K>((#[trigger] b[j]).0, s) by {
            assert(before_next::<K, V>(f, p, j));
        }
        put_below::<K, V>(b, k, v, s);
    }
    assert forall|i: int, j: int|
        0 <= i < h.index.len() - 1 && 0 <= j < h.block(
            h.index[i].1,
        ).len() implies #[trigger] before_next::<K, V>(h, i, j) by {
        assert(f.index[i] == h.index[i]);
        if i != p {
            assert(before_next::<K, V>(f, i, j));
        }
    }
}

/// The place of the new block once the target of `k` is split.
spec fn new_place<K: ArrowWriteableKey, V: ArrowWriteableValue>(
    f: FileModel<K, V>,
    k: KeyModel<K>,
) -> int {
    let p = route::<K>(f.index, k);
    if f.index[p].0 == Some(f.split_key(k)) {
        p
    } else {
        p + 1
    }
}

/// The place from which another block than the new one comes once the target of `k` is split.
spec fn old_place<K: ArrowWriteableKey, V: ArrowWriteableValue>(
    f: FileModel<K, V>,
    k: KeyModel<K>,
    i: int,
) -> int {
    if i > route::<K>(f.index, k) {
        i + route::<K>(f.index, k) - new_place::<K, V>(f, k)
    } else {
        i
    }
}

/// What stands at each place once a delta of a tidy blockfile is split.
#[verifier::spinoff_prover]
proof fn split_blocks<K: ArrowWriteableKey, V: ArrowWriteableValue>(
    f: FileModel<K, V>,
    k: KeyModel<K>,
    v: V::V,
    new: u128,
)
    requires
        tidy::<K, V>(f),
        f.deltas.contains_key(f.target(k)),
        f.deltas[f.target(k)].len() > 0,
        is_unused::<K, V>(f, new),
    ensures
        ({
            let p = route::<K>(f.index, k);
            let b = f.deltas[f.target(k)];
            let c = split_point::<K, V>(b);
            let h = f.split_and_add(f.target(k), new, k, v);
            &&& 0 <= p < f.index.len()
            &&& f.index[p].1 == f.target(k)
            &&& 0 <= c < b.len()
            &&& sorted::<K, V>(b)
            &&& index_valid::<K>(h.index)
            &&& h.index.len() == f.index.len() + new_place::<K, V>(f, k) - p
            &&& h.index[new_place::<K, V>(f, k)] == (Some(b[c].0), new)
            &&& h.has_block(new)
            &&& h.block(new) == put::<K, V>(b.skip(c), k, v)
            &&& forall|i: int|
                0 <= i < h.index.len() && i != new_place::<K, V>(f, k) ==> {
                    let o = old_place::<K, V>(f, k, i);
                    &&& 0 <= o < f.index.len()
                    &&& (#[trigger] h.index[i]) == f.index[o]
                    &&& h.has_block(h.index[i].1)
                    &&& h.block(h.index[i].1) == (if o == p {
                        b.take(c)
                    } else {
                        f.block(f.index[o].1)
                    })
                }
        }),
{
    let p = route::<K>(f.index, k);
    let t = f.target(k);
    let b = f.deltas[t];
    let c = split_point::<K, V>(b);
    let s = b[c].0;
    let h = f.split_and_add(t, new, k, v);
    route_separates::<K>(f.index, k);
    split_point_range::<K, V>(b);
    assert(f.index[p].1 == t);
    assert(sorted::<K, V>(f.block(f.index[p].1)));
    tidy_keys_are_in_range::<K, V>(f, p);
    assert(f.block(f.index[p].1)[c] == b[c]);
    route_is_between_starts::<K>(f.index, s, p);
    with_block_valid::<K>(f.index, s, new);
    assert forall|i: int| 0 <= i < h.index.len() && i != new_place::<K, V>(f, k) implies {
        let o = old_place::<K, V>(f, k, i);
        &&& 0 <= o < f.index.len()
        &&& (#[trigger] h.index[i]) == f.index[o]
        &&& h.has_block(h.index[i].1)
        &&& h.block(h.index[i].1) == (if o == p {
            b.take(c)
        } else {
            f.block(f.index[o].1)
        })
    } by {
        let o = old_place::<K, V>(f, k, i);
        assert(h.index[i] == f.index[o]);
        assert(f.has_block(f.index[o].1));
        assert(f.index[o].1 != new);
        if o < p {
            assert(f.index[o].1 != f.index[p].1);
        } else if p < o {
            assert(f.index[p].1 != f.index[o].1);
        }
    }
}

/// The upper part of a split delta, with the value put in it, stays before the next block.
proof fn upper_stays_below<K: ArrowWriteableKey, V: ArrowWriteableValue>(
    f: FileModel<K, V>,
    k: KeyModel<K>,
    v: V::V,
    c: int,
)
    requires
        tidy::<K, V>(f),
        f.deltas.contains_key(f.target(k)),
        0 <= c < f.deltas[f.target(k)].len(),
        route::<K>(f.index, k) + 1 < f.index.len(),
    ensures
        ({
            let up = put::<K, V>(f.deltas[f.target(k)].skip(c), k, v);
            forall|j: int|
                0 <= j < up.len() ==> key_precedes::<K>(
                    (#[trigger] up[j]).0,
                    f.index[route::<K>(f.index, k) + 1].0->0,
                )
        }),
{
    let p = route::<K>(f.index, k);
    let b = f.deltas[f.target(k)];
    let next = f.index[p + 1].0->0;
    route_separates::<K>(f.index, k);
    assert(f.index[p].1 == f.target(k));
    assert(sorted::<K, V>(f.block(f.index[p].1)));
    find_in_part::<K, V>(b, c, k);
    assert(!reaches::<K>(f.index[p + 1].0, k));
    assert forall|j: int| 0 <= j < b.skip(c).len() implies key_precedes::<K>(
        (#[trigger] b.skip(c)[j]).0,
        next,
    ) by {
        assert(b.skip(c)[j] == b[c + j]);
        assert(before_next::<K, V>(f, p, c + j));
    }
    put_below::<K, V>(b.skip(c), k, v, next);
}

/// Splitting a delta keeps a blockfile tidy.
#[verifier::spinoff_prover]
proof fn split_keeps_tidy<K: ArrowWriteableKey, V: ArrowWriteableValue>(
    f: FileModel<K, V>,
    k: KeyModel<K>,
    v: V::V,
    new: u128,
)
    requires
        tidy::<K, V>(f),
        f.deltas.contains_key(f.target(k)),
        f.deltas[f.target(k)].len() > 0,
        is_unused::<K, V>(f, new),
    ensures
        tidy::<K, V>(f.split_and_add(f.target(k), new, k, v)),
{
    let p = route::<K>(f.index, k);
    let b = f.deltas[f.target(k)];
    let c = split_point::<K, V>(b);
    let (low, up) = (b.take(c), put::<K, V>(b.skip(c), k, v));
    let h = f.split_and_add(f.target(k), new, k, v);
    let place = new_place::<K, V>(f, k);
    split_blocks::<K, V>(f, k, v, new);
    find_in_part::<K, V>(b, c, k);
    put_sorted::<K, V>(b.skip(c), k, v);
    put_starts_near::<K, V>(b.skip(c), k, v);
    assert(b.skip(c)[0] == b[c]);
    assert forall|i: int| 0 <= i < h.index.len() implies h.has_block((#[trigger] h.index[i]).1)
        && sorted::<K, V>(h.block(h.index[i].1)) by {
        if i != place {
            assert(sorted::<K, V>(f.block(f.index[old_place::<K, V>(f, k, i)].1)));
        }
    }
    assert forall|i: int, j: int| 0 <= i < j < h.index.len() implies (#[trigger] h.index[i]).1 != (
    #[trigger] h.index[j]).1 by {
        let (a, o) = (old_place::<K, V>(f, k, i), old_place::<K, V>(f, k, j));
        if i == place {
            assert(f.index[o].1 != new);
        } else if j == place {
            assert(f.index[a].1 != new);
        } else {
            assert(f.index[a].1 != f.index[o].1);
        }
    }
    assert forall|i: int| 0 < i < h.index.len() implies starts_near::<K, V>(
        h.block((#[trigger] h.index[i]).1),
        h.index[i].0->0,
    ) by {
        if i != place {
            let o = old_place::<K, V>(f, k, i);
            assert(starts_near::<K, V>(f.block(f.index[o].1), f.index[o].0->0));
            if o == p {
                split_point_range::<K, V>(b);
                assert(low.len() > 0 ==> low[0] == b[0]);
                assert(low.len() > 1 ==> low[1] == b[1]);
                assert(f.index[p].0 is Some);
            }
        }
    }
    if p + 1 < f.index.len() {
        upper_stays_below::<K, V>(f, k, v, c);
    }
    assert forall|i: int, j: int|
        0 <= i < h.index.len() - 1 && 0 <= j < h.block(
            h.index[i].1,
        ).len() implies #[trigger] before_next::<K, V>(h, i, j) by {
        if i == place {
            assert(h.index[i + 1] == f.index[p + 1]);
        } else if i + 1 == place {
            if i == p {
                assert(low[j] == b[j]);
                assert(key_precedes::<K>(b[j].0, b[c].0));
            } else {
                assert(before_next::<K, V>(f, i, j));
            }
        } else {
            let o = old_place::<K, V>(f, k, i);
            assert(h.index[i + 1] == f.index[old_place::<K, V>(f, k, i + 1)]);
            assert(before_next::<K, V>(f, o, j));
        }
    }
}

/// A write keeps a blockfile tidy, also where it is misplaced, and leaves what a read finds under
/// every other key. Under its own key it makes the value the one that is found, unless it is
/// misplaced: a read of the key then finds what it found before. A block that is copied is the first
/// one, or starts at its least key.
pub proof fn tidy_write_leaves_other_keys<K: ArrowWriteableKey, V: ArrowWriteableValue>(
    f: FileModel<K, V>,
    k: KeyModel<K>,
    v: V::V,
    fork_id: u128,
    split_id: u128,
)
    requires
        tidy::<K, V>(f),
        f.writable(k, v),
        ids_fresh::<K, V>(f, k, v, fork_id, split_id),
        !f.deltas.contains_key(f.target(k)) ==> route::<K>(f.index, k) == 0 || f.index[route::<K>(
            f.index,
            k,
        )].0 == Some(f.stored[f.target(k)][0].0),
    ensures
        tidy::<K, V>(f.set(k, v, fork_id, split_id)),
        forall|x: KeyModel<K>|
            x != k ==> #[trigger] f.set(k, v, fork_id, split_id).lookup(x) == f.lookup(x),
        f.set(k, v, fork_id, split_id).lookup(k) == (if misplaced::<K, V>(f, k, v) {
            f.lookup(k)
        } else {
            Some(v)
        }),
{
    let p = route::<K>(f.index, k);
    let t = f.target(k);
    let b = f.block(t);
    let n = put::<K, V>(b, k, v);
    let c = split_point::<K, V>(b);
    route_separates::<K>(f.index, k);
    assert(f.index[p].1 == t);
    assert(f.has_block(f.index[p].1) && sorted::<K, V>(f.block(f.index[p].1)));
    assert(in_range::<K>(f.index, p, k)) by {
        assert(reaches::<K>(f.index[p].0, k));
        if p + 1 < f.index.len() {
            assert(!reaches::<K>(f.index[p + 1].0, k));
        }
    }
    assert forall|j: int| 0 <= j < f.index.len() && j != p implies (#[trigger] f.index[j]).1
        != f.index[p].1 by {
        assert(j < p || p < j);
    }
    assert forall|id: u128| !f.has_block(id) implies #[trigger] is_unused::<K, V>(f, id) by {
        assert forall|j: int| 0 <= j < f.index.len() implies (#[trigger] f.index[j]).1 != id by {
            assert(f.has_block(f.index[j].1));
        }
    }
    tidy_keys_are_in_range::<K, V>(f, p);
    put_replaces_one_entry::<K, V>(b, k, v);
    limit_of_a_block::<K, V>(n);
    if f.splits(k, v) {
        split_point_range::<K, V>(b);
        if b.len() > 1 {
            split_is_balanced::<K, V>(b);
        }
        assert(is_unused::<K, V>(f, split_id));
    }
    if f.forks(k) {
        assert(is_unused::<K, V>(f, fork_id));
    }
    write_leaves_other_keys::<K, V>(f, k, v, fork_id, split_id, p, b, n, c);
    let g = if f.forks(k) {
        let g = f.fork(t, fork_id);
        copy_keeps_tidy::<K, V>(f, p, fork_id);
        copy_in_place::<K, V>(f, p, fork_id);
        same_starts::<K>(f.index, g.index, k);
        assert(g.target(k) == fork_id);
        g
    } else {
        f
    };
    if f.splits(k, v) {
        assert(is_unused::<K, V>(g, split_id)) by {
            assert forall|j: int| 0 <= j < g.index.len() implies (#[trigger] g.index[j]).1
                != split_id by {
                assert(f.index[j].1 != split_id);
            }
        }
        split_keeps_tidy::<K, V>(g, k, v, split_id);
    } else {
        add_keeps_tidy::<K, V>(g, k, v);
    }
}

/// The value of the last write under `x` that is not misplaced, where there is one.
pub open spec fn last_kept<K: ArrowWriteableKey, V: ArrowWriteableValue>(
    f: FileModel<K, V>,
    writes: Seq<Write<K, V>>,
    x: KeyModel<K>,
) -> Option<V::V>
    decreases writes.len(),
{
    if writes.len() == 0 {
        None
    } else {
        let w = writes.last();
        let g = after::<K, V>(f, writes.drop_last());
        if w.key == x && !misplaced::<K, V>(g, w.key, w.value) {
            Some(w.value)
        } else {
            last_kept::<K, V>(f, writes.drop_last(), x)
        }
    }
}

/// Over a run of writes to a new blockfile, in whatever order of the keys, a read gives the value
/// written last under its key by a write that is not misplaced, and nothing where there is none.
proof fn new_file_any_order<K: ArrowWriteableKey, V: ArrowWriteableValue>(
    block: u128,
    stored: StoreModel<K, V>,
    writes: Seq<Write<K, V>>,
)
    requires
        can_run::<K, V>(FileModel::<K, V>::initial(block, stored), writes),
    ensures
        ({
            let f = FileModel::<K, V>::initial(block, stored);
            let g = after::<K, V>(f, writes);
            &&& tidy::<K, V>(g)
            &&& forall|x: KeyModel<K>| #[trigger] g.lookup(x) == last_kept::<K, V>(f, writes, x)
        }),
    decreases writes.len(),
{
    let f = FileModel::<K, V>::initial(block, stored);
    initial_is_empty::<K, V>(block, stored);
    sound_is_tidy::<K, V>(f);
    if writes.len() > 0 {
        let rest = writes.drop_last();
        let g = after::<K, V>(f, rest);
        let w = writes.last();
        new_file_any_order::<K, V>(block, stored, rest);
        can_run_is_runnable::<K, V>(f, rest);
        new_file_run::<K, V>(block, stored, rest);
        assert(all_deltas::<K, V>(g));
        route_separates::<K>(g.index, w.key);
        assert(g.index[route::<K>(g.index, w.key)].1 == g.target(w.key));
        assert(names::<K>(g.index, g.target(w.key)));
        tidy_write_leaves_other_keys::<K, V>(g, w.key, w.value, w.fork_id, w.split_id);
        let h = after::<K, V>(f, writes);
        assert forall|x: KeyModel<K>| #[trigger] h.lookup(x) == last_kept::<K, V>(
            f,
            writes,
            x,
        ) by {
            assert(g.lookup(x) == last_kept::<K, V>(f, rest, x));
        }
    }
}

/// A new blockfile that is written in whatever order of the keys, committed and opened again gives
/// under each key the value written last under it by a write that is not misplaced, and nothing
/// where there is none.
pub proof fn new_file_reads_back_in_any_order<K: ArrowWriteableKey, V: ArrowWriteableValue>(
    block: u128,
    stored: StoreModel<K, V>,
    writes: Seq<Write<K, V>>,
    x: KeyModel<K>,
)
    requires
        can_run::<K, V>(FileModel::<K, V>::initial(block, stored), writes),
    ensures
        ({
            let f = FileModel::<K, V>::initial(block, stored);
            let g = after::<K, V>(f, writes);
            FileModel::<K, V>::opened(g.index, g.committed()).lookup(x) == last_kept::<K, V>(
                f,
                writes,
                x,
            )
        }),
{
    let g = after::<K, V>(FileModel::<K, V>::initial(block, stored), writes);
    new_file_any_order::<K, V>(block, stored, writes);
    commit_keeps_contents::<K, V>(g);
    assert(g.lookup(x) == last_kept::<K, V>(FileModel::<K, V>::initial(block, stored), writes, x));
}

/// Numbers that are written to a new blockfile under one prefix in increasing order are all found,
/// and no other key is.
pub proof fn increasing_numbers_are_found<V: ArrowWriteableValue>(
    block: u128,
    stored: StoreModel<u32, V>,
    prefix: Seq<char>,
    writes: Seq<Write<u32, V>>,
    x: KeyModel<u32>,
)
    requires
        can_run::<u32, V>(FileModel::<u32, V>::initial(block, stored), writes),
        forall|i: int| 0 <= i < writes.len() ==> (#[trigger] writes[i]).key.0 == prefix,
        forall|i: int, j: int|
            0 <= i < j < writes.len() ==> (#[trigger] writes[i]).key.1 < (
            #[trigger] writes[j]).key.1,
    ensures
        ({
            let f = after::<u32, V>(FileModel::<u32, V>::initial(block, stored), writes);
            let g = FileModel::<u32, V>::opened(f.index, f.committed());
            &&& forall|i: int|
                0 <= i < writes.len() ==> g.lookup((#[trigger] writes[i]).key) == Some(
                    writes[i].value,
                )
            &&& (forall|i: int| 0 <= i < writes.len() ==> (#[trigger] writes[i]).key != x)
                ==> g.lookup(x) is None
        }),
{
    let f = FileModel::<u32, V>::initial(block, stored);
    initial_is_empty::<u32, V>(block, stored);
    assert(increasing::<u32, V>(writes)) by {
        assert forall|i: int, j: int| 0 <= i < j < writes.len() implies key_precedes::<u32>(
            (#[trigger] writes[i]).key,
            (#[trigger] writes[j]).key,
        ) by {
            numbers_are_ordered_by_value(prefix, writes[i].key.1, writes[j].key.1);
            assert(writes[i].key == (prefix, writes[i].key.1));
            assert(writes[j].key == (prefix, writes[j].key.1));
        }
    }
    increasing_writes_are_not_misplaced::<u32, V>(f, writes);
    assert forall|i: int| 0 <= i < writes.len() implies FileModel::<u32, V>::opened(
        after::<u32, V>(f, writes).index,
        after::<u32, V>(f, writes).committed(),
    ).lookup((#[trigger] writes[i]).key) == Some(writes[i].value) by {
        new_file_reads_back::<u32, V>(block, stored, writes, writes[i].key);
        last_written_at::<u32, V>(writes, i);
    }
    new_file_reads_back::<u32, V>(block, stored, writes, x);
    if forall|i: int| 0 <= i < writes.len() ==> (#[trigger] writes[i]).key != x {
        never_written::<u32, V>(writes, x);
    }
}

/// A key that is written once has the value of that write.
proof fn last_written_at<K: ArrowWriteableKey, V: ArrowWriteableValue>(
    writes: Seq<Write<K, V>>,
    i: int,
)
    requires
        0 <= i < writes.len(),
        forall|j: int| i < j < writes.len() ==> (#[trigger] writes[j]).key != writes[i].key,
    ensures
        last_written::<K, V>(writes, writes[i].key) == Some(writes[i].value),
    decreases writes.len(),
{
    let n = writes.len() - 1;
    if i < n {
        let rest = writes.drop_last();
        assert(writes[n].key != writes[i].key);
        assert forall|j: int| i < j < rest.len() implies (#[trigger] rest[j]).key != rest[i].key by {
            assert(rest[j] == writes[j]);
        }
        last_written_at::<K, V>(rest, i);
    }
}

/// A key that is never written has no value.
proof fn never_written<K: ArrowWriteableKey, V: ArrowWriteableValue>(
    writes: Seq<Write<K, V>>,
    x: KeyModel<K>,
)
    requires
        forall|i: int| 0 <= i < writes.len() ==> (#[trigger] writes[i]).key != x,
    ensures
        last_written::<K, V>(writes, x) is None,
    decreases writes.len(),
{
    if writes.len() > 0 {
        let rest = writes.drop_last();
        assert(writes[writes.len() - 1].key != x);
        assert forall|i: int| 0 <= i < rest.len() implies (#[trigger] rest[i]).key != x by {
            assert(rest[i] == writes[i]);
        }
        never_written::<K, V>(rest, x);
    }
}

} // verus!
