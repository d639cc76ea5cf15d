//! Blocks: the sorted entries they hold, the room these take, stored blocks, and deltas.

use crate::blockfile::MAX_BLOCK_SIZE;
use crate::key::{group_key_order, key_precedes, ArrowWriteableKey, CompositeKey, KeyModel};
use crate::size::{
    block_size, fits, half_prefix_at, key_bytes, layout_saturates, layout_size, offsets_bound,
    prefix_bytes, saturate, split_is_balanced, split_point, split_point_range, sum, sum_insert,
    sum_step, value_bytes,
};
use crate::value::ArrowWriteableValue;
use vstd::prelude::*;

verus! {

/// An entry of a block: a key and its value.
pub struct Entry<K, V> {
    pub key: CompositeKey<K>,
    pub value: V,
}

/// What an entry stands for.
pub type EntryModel<K, V> = (KeyModel<K>, <V as View>::V);

impl<K: ArrowWriteableKey, V: ArrowWriteableValue> View for Entry<K, V> {
    type V = EntryModel<K, V>;

    open spec fn view(&self) -> EntryModel<K, V> {
        (self.key@, self.value@)
    }
}

/// The entries stand in strictly increasing order of their keys.
pub open spec fn sorted<K: ArrowWriteableKey, V: ArrowWriteableValue>(
    s: Seq<EntryModel<K, V>>,
) -> bool {
    forall|i: int, j: int| 0 <= i < j < s.len() ==> key_precedes::<K>(#[trigger] s[i].0, #[trigger] s[j].0)
}

/// Some entry has the key `k`.
pub open spec fn has_key<K: ArrowWriteableKey, V: ArrowWriteableValue>(
    s: Seq<EntryModel<K, V>>,
    k: KeyModel<K>,
) -> bool {
    exists|i: int| 0 <= i < s.len() && #[trigger] s[i].0 == k
}

/// The value under the key `k`, where there is one.
pub open spec fn find<K: ArrowWriteableKey, V: ArrowWriteableValue>(
    s: Seq<EntryModel<K, V>>,
    k: KeyModel<K>,
) -> Option<V::V> {
    if has_key::<K, V>(s, k) {
        let i = choose|i: int| 0 <= i < s.len() && #[trigger] s[i].0 == k;
        Some(s[i].1)
    } else {
        None
    }
}

/// How many leading entries have keys before `k`, in a sorted block.
pub open spec fn rank<K: ArrowWriteableKey, V: ArrowWriteableValue>(
    s: Seq<EntryModel<K, V>>,
    k: KeyModel<K>,
) -> int
    decreases s.len(),
{
    if s.len() == 0 {
        0
    } else if key_precedes::<K>(s.last().0, k) {
        s.len() as int
    } else {
        rank::<K, V>(s.drop_last(), k)
    }
}

/// The entries with `v` under `k`: in place of the value that `k` had, or as a new entry.
pub open spec fn put<K: ArrowWriteableKey, V: ArrowWriteableValue>(
    s: Seq<EntryModel<K, V>>,
    k: KeyModel<K>,
    v: V::V,
) -> Seq<EntryModel<K, V>> {
    let p = rank::<K, V>(s, k);
    if p < s.len() && s[p].0 == k {
        s.update(p, (k, v))
    } else {
        s.insert(p, (k, v))
    }
}

/// A position between the smaller and the not smaller keys is the rank.
pub proof fn rank_at<K: ArrowWriteableKey, V: ArrowWriteableValue>(
    s: Seq<EntryModel<K, V>>,
    k: KeyModel<K>,
    p: int,
)
    requires
        0 <= p <= s.len(),
        forall|i: int| 0 <= i < p ==> key_precedes::<K>(#[trigger] s[i].0, k),
        forall|i: int| p <= i < s.len() ==> !key_precedes::<K>(#[trigger] s[i].0, k),
    ensures
        rank::<K, V>(s, k) == p,
    decreases s.len(),
{
    if s.len() > 0 && p < s.len() {
        let t = s.drop_last();
        assert forall|i: int| 0 <= i < p implies key_precedes::<K>(#[trigger] t[i].0, k) by {
            assert(t[i] == s[i]);
        }
        assert forall|i: int| p <= i < t.len() implies !key_precedes::<K>(#[trigger] t[i].0, k) by {
            assert(t[i] == s[i]);
        }
        rank_at::<K, V>(t, k, p);
    }
}

/// In a sorted block the keys before the rank of `k` precede `k`, and the others do not.
pub proof fn rank_separates<K: ArrowWriteableKey, V: ArrowWriteableValue>(
    s: Seq<EntryModel<K, V>>,
    k: KeyModel<K>,
)
    requires
        sorted::<K, V>(s),
    ensures
        0 <= rank::<K, V>(s, k) <= s.len(),
        forall|i: int| 0 <= i < rank::<K, V>(s, k) ==> key_precedes::<K>(#[trigger] s[i].0, k),
        forall|i: int|
            rank::<K, V>(s, k) <= i < s.len() ==> !key_precedes::<K>(#[trigger] s[i].0, k),
    decreases s.len(),
{
    broadcast use group_key_order;

    if s.len() > 0 {
        let t = s.drop_last();
        if key_precedes::<K>(s.last().0, k) {
            assert forall|i: int| 0 <= i < s.len() implies key_precedes::<K>(#[trigger] s[i].0, k) by {
                if i < s.len() - 1 {
                    assert(key_precedes::<K>(s[i].0, s[s.len() - 1].0));
                }
            }
        } else {
            assert(sorted::<K, V>(t)) by {
                assert forall|i: int, j: int| 0 <= i < j < t.len() implies key_precedes::<K>(
                    #[trigger] t[i].0,
                    #[trigger] t[j].0,
                ) by {
                    assert(t[i] == s[i] && t[j] == s[j]);
                }
            }
            rank_separates::<K, V>(t, k);
            assert forall|i: int| 0 <= i < rank::<K, V>(s, k) implies key_precedes::<K>(
                #[trigger] s[i].0,
                k,
            ) by {
                assert(t[i] == s[i]);
            }
            assert forall|i: int| rank::<K, V>(s, k) <= i < s.len() implies !key_precedes::<K>(
                #[trigger] s[i].0,
                k,
            ) by {
                if i < t.len() {
                    assert(t[i] == s[i]);
                }
            }
        }
    }
}

/// In a sorted block the value found under a key is that of the entry with the key.
pub proof fn find_at<K: ArrowWriteableKey, V: ArrowWriteableValue>(
    s: Seq<EntryModel<K, V>>,
    i: int,
)
    requires
        sorted::<K, V>(s),
        0 <= i < s.len(),
    ensures
        find::<K, V>(s, s[i].0) == Some(s[i].1),
{
    broadcast use group_key_order;

    let k = s[i].0;
    assert(has_key::<K, V>(s, k));
    let j = choose|j: int| 0 <= j < s.len() && #[trigger] s[j].0 == k;
    assert(i == j) by {
        if i < j {
            assert(key_precedes::<K>(s[i].0, s[j].0));
        } else if j < i {
            assert(key_precedes::<K>(s[j].0, s[i].0));
        }
    }
}

/// In a sorted block a key is present exactly where it stands at its rank.
pub proof fn key_at_rank<K: ArrowWriteableKey, V: ArrowWriteableValue>(
    s: Seq<EntryModel<K, V>>,
    k: KeyModel<K>,
)
    requires
        sorted::<K, V>(s),
    ensures
        has_key::<K, V>(s, k) <==> (rank::<K, V>(s, k) < s.len() && s[rank::<K, V>(s, k)].0 == k),
{
    broadcast use group_key_order;

    let p = rank::<K, V>(s, k);
    rank_separates::<K, V>(s, k);
    if has_key::<K, V>(s, k) {
        let i = choose|i: int| 0 <= i < s.len() && #[trigger] s[i].0 == k;
        assert(i == p) by {
            if i < p {
                assert(key_precedes::<K>(s[i].0, k));
            } else if p < i {
                assert(key_precedes::<K>(s[p].0, s[i].0));
            }
        }
    }
}

/// Putting a value keeps the block sorted.
pub proof fn put_sorted<K: ArrowWriteableKey, V: ArrowWriteableValue>(
    s: Seq<EntryModel<K, V>>,
    k: KeyModel<K>,
    v: V::V,
)
    requires
        sorted::<K, V>(s),
    ensures
        sorted::<K, V>(put::<K, V>(s, k, v)),
        put::<K, V>(s, k, v).len() > 0,
{
    broadcast use group_key_order;

    let p = rank::<K, V>(s, k);
    let t = put::<K, V>(s, k, v);
    rank_separates::<K, V>(s, k);
    if p < s.len() && s[p].0 == k {
        assert forall|i: int, j: int| 0 <= i < j < t.len() implies key_precedes::<K>(
            #[trigger] t[i].0,
            #[trigger] t[j].0,
        ) by {
            assert(t[i].0 == s[i].0 && t[j].0 == s[j].0);
        }
    } else {
        assert forall|i: int, j: int| 0 <= i < j < t.len() implies key_precedes::<K>(
            #[trigger] t[i].0,
            #[trigger] t[j].0,
        ) by {
            let i2 = if i > p { i - 1 } else { i };
            let j2 = if j > p { j - 1 } else { j };
            if i != p {
                assert(t[i] == s[i2]);
            }
            if j != p {
                assert(t[j] == s[j2]);
            }
            if j == p {
                assert(key_precedes::<K>(s[i2].0, k));
            } else if i == p {
                assert(!key_precedes::<K>(s[j2].0, k));
                if s[j2].0 == k {
                    assert(p < j2);
                    assert(key_precedes::<K>(s[p].0, s[j2].0));
                }
            }
        }
    }
}

/// Putting a value under `k` makes it the value found there, and leaves the other keys alone.
pub proof fn put_find<K: ArrowWriteableKey, V: ArrowWriteableValue>(
    s: Seq<EntryModel<K, V>>,
    k: KeyModel<K>,
    v: V::V,
)
    requires
        sorted::<K, V>(s),
    ensures
        find::<K, V>(put::<K, V>(s, k, v), k) == Some(v),
        forall|x: KeyModel<K>|
            x != k ==> #[trigger] find::<K, V>(put::<K, V>(s, k, v), x) == find::<K, V>(s, x),
{
    let p = rank::<K, V>(s, k);
    let t = put::<K, V>(s, k, v);
    rank_separates::<K, V>(s, k);
    put_sorted::<K, V>(s, k, v);
    assert(t[p] == (k, v));
    find_at::<K, V>(t, p);
    assert forall|x: KeyModel<K>| x != k implies #[trigger] find::<K, V>(t, x) == find::<K, V>(
        s,
        x,
    ) by {
        let fresh = !(p < s.len() && s[p].0 == k);
        if has_key::<K, V>(s, x) {
            let i = choose|i: int| 0 <= i < s.len() && #[trigger] s[i].0 == x;
            find_at::<K, V>(s, i);
            let j = if fresh && i >= p { i + 1 } else { i };
            assert(t[j] == s[i]);
            find_at::<K, V>(t, j);
        } else if has_key::<K, V>(t, x) {
            let j = choose|j: int| 0 <= j < t.len() && #[trigger] t[j].0 == x;
            let i = if fresh && j > p { j - 1 } else { j };
            assert(t[j] == s[i]);
            assert(has_key::<K, V>(s, x));
        }
    }
}

/// A run of a sorted block is sorted.
pub proof fn subrange_sorted<K: ArrowWriteableKey, V: ArrowWriteableValue>(
    s: Seq<EntryModel<K, V>>,
    i: int,
    j: int,
)
    requires
        sorted::<K, V>(s),
        0 <= i <= j <= s.len(),
    ensures
        sorted::<K, V>(s.subrange(i, j)),
{
    let t = s.subrange(i, j);
    assert forall|a: int, b: int| 0 <= a < b < t.len() implies key_precedes::<K>(
        #[trigger] t[a].0,
        #[trigger] t[b].0,
    ) by {
        assert(t[a] == s[i + a] && t[b] == s[i + b]);
    }
}

/// In a sorted block a value is found under a key where the block has an entry of the two.
pub proof fn find_is_membership<K: ArrowWriteableKey, V: ArrowWriteableValue>(
    s: Seq<EntryModel<K, V>>,
    k: KeyModel<K>,
)
    requires
        sorted::<K, V>(s),
    ensures
        forall|v: V::V| #[trigger] s.contains((k, v)) <==> find::<K, V>(s, k) == Some(v),
{
    assert forall|v: V::V| #[trigger] s.contains((k, v)) <==> find::<K, V>(s, k) == Some(v) by {
        if s.contains((k, v)) {
            let i = choose|i: int| 0 <= i < s.len() && s[i] == (k, v);
            find_at::<K, V>(s, i);
        }
        if find::<K, V>(s, k) == Some(v) {
            let i = choose|i: int| 0 <= i < s.len() && #[trigger] s[i].0 == k;
            find_at::<K, V>(s, i);
            assert(s[i] == (k, v));
        }
    }
}

/// A sorted block into which a value is put under a key is sorted and has the entry of the two, no
/// other entry under that key, and under the other keys the entries that it had.
pub proof fn put_replaces_one_entry<K: ArrowWriteableKey, V: ArrowWriteableValue>(
    s: Seq<EntryModel<K, V>>,
    k: KeyModel<K>,
    v: V::V,
)
    requires
        sorted::<K, V>(s),
    ensures
        sorted::<K, V>(put::<K, V>(s, k, v)),
        forall|x: KeyModel<K>, u: V::V| #[trigger]
            put::<K, V>(s, k, v).contains((x, u)) <==> if x == k {
                u == v
            } else {
                s.contains((x, u))
            },
{
    let t = put::<K, V>(s, k, v);
    put_sorted::<K, V>(s, k, v);
    put_find::<K, V>(s, k, v);
    assert forall|x: KeyModel<K>, u: V::V| #[trigger] t.contains((x, u)) <==> if x == k {
        u == v
    } else {
        s.contains((x, u))
    } by {
        find_is_membership::<K, V>(t, x);
        find_is_membership::<K, V>(s, x);
    }
}

/// A sorted block is told by its entries.
pub proof fn sorted_entries_are_unique<K: ArrowWriteableKey, V: ArrowWriteableValue>(
    a: Seq<EntryModel<K, V>>,
    b: Seq<EntryModel<K, V>>,
)
    requires
        sorted::<K, V>(a),
        sorted::<K, V>(b),
        forall|x: KeyModel<K>, u: V::V| #[trigger] a.contains((x, u)) <==> b.contains((x, u)),
    ensures
        a == b,
    decreases a.len(),
{
    broadcast use group_key_order;

    if a.len() == 0 {
        if b.len() > 0 {
            assert(b.contains((b[0].0, b[0].1)));
            assert(a.contains((b[0].0, b[0].1)));
        }
        assert(a =~= b);
    } else {
        let (m, n) = (a.len() - 1, b.len() - 1);
        assert(a[m] == (a[m].0, a[m].1));
        assert(a.contains((a[m].0, a[m].1)));
        let j = choose|j: int| 0 <= j < b.len() && b[j] == a[m];
        assert(b[n] == (b[n].0, b[n].1));
        assert(b.contains((b[n].0, b[n].1)));
        assert(a.contains((b[n].0, b[n].1)));
        let i = choose|i: int| 0 <= i < a.len() && a[i] == b[n];
        if j < n {
            assert(key_precedes::<K>(b[j].0, b[n].0));
            if i < m {
                assert(key_precedes::<K>(a[i].0, a[m].0));
            }
        }
        assert(a[m] == b[n]);
        let (c, d) = (a.drop_last(), b.drop_last());
        assert forall|x: KeyModel<K>, u: V::V| #[trigger] c.contains((x, u)) <==> d.contains(
            (x, u),
        ) by {
            assert(a.contains((x, u)) <==> b.contains((x, u)));
            if c.contains((x, u)) {
                let p = choose|p: int| 0 <= p < c.len() && c[p] == (x, u);
                assert(a[p] == (x, u));
                assert(key_precedes::<K>(a[p].0, a[m].0));
                let q = choose|q: int| 0 <= q < b.len() && b[q] == (x, u);
                assert(d[q] == (x, u));
            }
            if d.contains((x, u)) {
                let q = choose|q: int| 0 <= q < d.len() && d[q] == (x, u);
                assert(b[q] == (x, u));
                assert(key_precedes::<K>(b[q].0, b[n].0));
                let p = choose|p: int| 0 <= p < a.len() && a[p] == (x, u);
                assert(c[p] == (x, u));
            }
        }
        sorted_entries_are_unique::<K, V>(c, d);
        assert(a =~= c.push(a[m]));
        assert(b =~= d.push(b[n]));
    }
}

/// The sequence without its item at `i`, where it has one.
pub open spec fn without<T>(s: Seq<T>, i: int) -> Seq<T> {
    if 0 <= i < s.len() {
        s.remove(i)
    } else {
        s
    }
}

/// The entries of a block, in order of their keys.
pub struct Entries<K, V> {
    pub items: Vec<Entry<K, V>>,
}

impl<K: ArrowWriteableKey, V: ArrowWriteableValue> View for Entries<K, V> {
    type V = Seq<EntryModel<K, V>>;

    open spec fn view(&self) -> Seq<EntryModel<K, V>> {
        self.items@.map_values(|e: Entry<K, V>| e@)
    }
}

impl<K: ArrowWriteableKey, V: ArrowWriteableValue> Entries<K, V> {
    /// No entries.
    pub fn new() -> (r: Self)
        ensures
            r@ == Seq::<EntryModel<K, V>>::empty(),
    {
        let r = Entries { items: Vec::new() };
        assert(r@ =~= Seq::<EntryModel<K, V>>::empty());
        r
    }

    /// Where `key` stands, or where it would.
    fn position(&self, key: &CompositeKey<K>) -> (r: usize)
        requires
            sorted::<K, V>(self@),
        ensures
            r == rank::<K, V>(self@, key@),
            r <= self.items@.len(),
    {
        let mut low: usize = 0;
        let mut high: usize = self.items.len();
        while low < high
            invariant
                low <= high <= self.items@.len(),
                sorted::<K, V>(self@),
                self@.len() == self.items@.len(),
                forall|i: int| 0 <= i < low ==> key_precedes::<K>(#[trigger] self@[i].0, key@),
                forall|i: int|
                    high <= i < self@.len() ==> !key_precedes::<K>(#[trigger] self@[i].0, key@),
            decreases high - low,
        {
            let middle: usize = low + (high - low) / 2;
            let ghost m = middle as int;
            assert(self@[m] == self.items@[m]@);
            if self.items[middle].key.before(key) {
                assert forall|i: int| 0 <= i < middle + 1 implies key_precedes::<K>(
                    #[trigger] self@[i].0,
                    key@,
                ) by {
                    broadcast use group_key_order;

                    if i < middle {
                        assert(key_precedes::<K>(self@[i].0, self@[m].0));
                    }
                }
                low = middle + 1;
            } else {
                assert forall|i: int| middle <= i < self@.len() implies !key_precedes::<K>(
                    #[trigger] self@[i].0,
                    key@,
                ) by {
                    broadcast use group_key_order;

                    if i > middle {
                        assert(key_precedes::<K>(self@[m].0, self@[i].0));
                    }
                }
                high = middle;
            }
        }
        proof {
            rank_at::<K, V>(self@, key@, low as int);
        }
        low
    }

    /// Whether the entry at `at` has the key `key`, for the position of `key`.
    fn key_is_at(&self, key: &CompositeKey<K>, at: usize) -> (r: bool)
        requires
            sorted::<K, V>(self@),
            at == rank::<K, V>(self@, key@),
        ensures
            r == (at < self@.len() && self@[at as int].0 == key@),
            r == has_key::<K, V>(self@, key@),
    {
        broadcast use group_key_order;

        proof {
            rank_separates::<K, V>(self@, key@);
            key_at_rank::<K, V>(self@, key@);
        }
        if at < self.items.len() {
            assert(self@[at as int] == self.items@[at as int]@);
            !key.before(&self.items[at].key)
        } else {
            false
        }
    }

    /// The value under `key`, where there is one.
    pub fn get(&self, key: &CompositeKey<K>) -> (r: Option<&V>)
        requires
            sorted::<K, V>(self@),
        ensures
            match r {
                Some(v) => find::<K, V>(self@, key@) == Some(v@),
                None => find::<K, V>(self@, key@) is None,
            },
            match r {
                Some(v) => self@.contains((key@, v@)),
                None => forall|u: V::V| !#[trigger] self@.contains((key@, u)),
            },
    {
        let at: usize = self.position(key);
        proof {
            find_is_membership::<K, V>(self@, key@);
        }
        if self.key_is_at(key, at) {
            proof {
                find_at::<K, V>(self@, at as int);
                assert(self@[at as int] == self.items@[at as int]@);
            }
            Some(&self.items[at].value)
        } else {
            None
        }
    }

    /// Puts `value` under `key`.
    pub fn put(&mut self, key: CompositeKey<K>, value: V)
        requires
            sorted::<K, V>(old(self)@),
        ensures
            final(self)@ == put::<K, V>(old(self)@, key@, value@),
            sorted::<K, V>(final(self)@),
            forall|x: KeyModel<K>, u: V::V| #[trigger]
                final(self)@.contains((x, u)) <==> if x == key@ {
                    u == value@
                } else {
                    old(self)@.contains((x, u))
                },
    {
        let at: usize = self.position(&key);
        proof {
            put_replaces_one_entry::<K, V>(self@, key@, value@);
            put_sorted::<K, V>(self@, key@, value@);
            rank_separates::<K, V>(self@, key@);
        }
        let ghost before = self@;
        let ghost entry = (key@, value@);
        if self.key_is_at(&key, at) {
            self.items[at] = Entry { key, value };
            assert(self@ =~= before.update(at as int, entry));
        } else {
            self.items.insert(at, Entry { key, value });
            assert(self@ =~= before.insert(at as int, entry));
        }
    }

    /// The bytes of the prefixes, of the keys and of the values of all entries but the one at
    /// `skip`, where there is one.
    fn totals(&self, skip: usize) -> (r: (usize, usize, usize))
        ensures
            r.0 == saturate(sum(without(self@, skip as int), prefix_bytes::<K, V>())),
            r.1 == saturate(sum(without(self@, skip as int), key_bytes::<K, V>())),
            r.2 == saturate(sum(without(self@, skip as int), value_bytes::<K, V>())),
    {
        let ghost rest = without(self@, skip as int);
        let mut prefixes: usize = 0;
        let mut keys: usize = 0;
        let mut values: usize = 0;
        let mut i: usize = 0;
        let ghost mut n: int = 0;
        assert(rest.take(0) =~= Seq::<EntryModel<K, V>>::empty());
        while i < self.items.len()
            invariant
                i <= self.items@.len(),
                rest == without(self@, skip as int),
                n == (if i > skip { i - 1 } else { i as int }),
                prefixes == saturate(sum(rest.take(n), prefix_bytes::<K, V>())),
                keys == saturate(sum(rest.take(n), key_bytes::<K, V>())),
                values == saturate(sum(rest.take(n), value_bytes::<K, V>())),
            decreases self.items@.len() - i,
        {
            if i != skip {
                let item: &Entry<K, V> = &self.items[i];
                proof {
                    assert(rest[n] == self.items@[i as int]@);
                    sum_step(rest, prefix_bytes::<K, V>(), n);
                    sum_step(rest, key_bytes::<K, V>(), n);
                    sum_step(rest, value_bytes::<K, V>(), n);
                    n = n + 1;
                }
                prefixes = prefixes.saturating_add(item.key.prefix.as_str().as_bytes().len());
                keys = keys.saturating_add(item.key.key.get_size());
                values = values.saturating_add(item.value.get_size());
            }
            i = i + 1;
        }
        assert(rest.take(n) =~= rest);
        (prefixes, keys, values)
    }

    /// Whether the block would still be within the limit with `value` under `key`.
    pub fn fits_with(&self, key: &CompositeKey<K>, value: &V) -> (r: bool)
        requires
            sorted::<K, V>(self@),
        ensures
            r == fits::<K, V>(put::<K, V>(self@, key@, value@)),
    {
        let at: usize = self.position(key);
        let ghost t = put::<K, V>(self@, key@, value@);
        proof {
            rank_separates::<K, V>(self@, key@);
            offsets_bound::<K, V>(t);
        }
        if self.items.len() >= MAX_BLOCK_SIZE {
            return false;
        }
        let replaces: bool = self.key_is_at(key, at);
        let count: usize = if replaces {
            self.items.len()
        } else {
            self.items.len() + 1
        };
        let (prefixes, keys, values): (usize, usize, usize) = self.totals(
            if replaces {
                at
            } else {
                self.items.len()
            },
        );
        let prefixes: usize = prefixes.saturating_add(key.prefix.as_str().as_bytes().len());
        let keys: usize = keys.saturating_add(key.key.get_size());
        let values: usize = values.saturating_add(value.get_size());
        proof {
            let e = (key@, value@);
            let rest = without(self@, if replaces { at as int } else { self@.len() as int });
            assert(t =~= rest.insert(at as int, e));
            sum_insert(rest, prefix_bytes::<K, V>(), at as int, e);
            sum_insert(rest, key_bytes::<K, V>(), at as int, e);
            sum_insert(rest, value_bytes::<K, V>(), at as int, e);
            layout_saturates::<K, V>(
                count as nat,
                sum(t, prefix_bytes::<K, V>()),
                sum(t, key_bytes::<K, V>()),
                sum(t, value_bytes::<K, V>()),
            );
        }
        layout_size::<K, V>(count, prefixes, keys, values) <= MAX_BLOCK_SIZE
    }

    /// Where the block splits in two.
    fn middle(&self) -> (r: usize)
        requires
            self@.len() > 0,
        ensures
            r == split_point::<K, V>(self@),
            r < self.items@.len(),
    {
        let ghost s = self@;
        let last: usize = self.items.len() - 1;
        let mut prefixes: usize = 0;
        let mut keys: usize = 0;
        let mut values: usize = 0;
        let mut i: usize = 0;
        assert(s.take(0) =~= Seq::<EntryModel<K, V>>::empty());
        while i < last
            invariant
                s == self@,
                i <= last,
                last + 1 == self.items@.len(),
                i == 0 || block_size::<K, V>(s.take(i as int)) <= MAX_BLOCK_SIZE / 2,
                prefixes == saturate(sum(s.take(i as int), prefix_bytes::<K, V>())),
                keys == saturate(sum(s.take(i as int), key_bytes::<K, V>())),
                values == saturate(sum(s.take(i as int), value_bytes::<K, V>())),
            decreases last - i,
        {
            let item: &Entry<K, V> = &self.items[i];
            prefixes = prefixes.saturating_add(item.key.prefix.as_str().as_bytes().len());
            keys = keys.saturating_add(item.key.key.get_size());
            values = values.saturating_add(item.value.get_size());
            proof {
                assert(s[i as int] == self.items@[i as int]@);
                sum_step(s, prefix_bytes::<K, V>(), i as int);
                sum_step(s, key_bytes::<K, V>(), i as int);
                sum_step(s, value_bytes::<K, V>(), i as int);
                let t = s.take(i + 1);
                layout_saturates::<K, V>(
                    t.len(),
                    sum(t, prefix_bytes::<K, V>()),
                    sum(t, key_bytes::<K, V>()),
                    sum(t, value_bytes::<K, V>()),
                );
            }
            if layout_size::<K, V>(i + 1, prefixes, keys, values) > MAX_BLOCK_SIZE / 2 {
                proof {
                    half_prefix_at::<K, V>(s, last as int, i as int);
                }
                return if i == 0 {
                    1
                } else {
                    i
                };
            }
            i = i + 1;
        }
        proof {
            half_prefix_at::<K, V>(s, last as int, last as int);
        }
        last
    }

    /// Keeps the entries before the split point and hands out the others.
    pub fn split(&mut self) -> (r: Self)
        requires
            old(self)@.len() > 0,
            sorted::<K, V>(old(self)@),
        ensures
            final(self)@ == old(self)@.take(split_point::<K, V>(old(self)@)),
            r@ == old(self)@.skip(split_point::<K, V>(old(self)@)),
            r@.len() > 0,
            sorted::<K, V>(final(self)@),
            sorted::<K, V>(r@),
            old(self)@ == final(self)@ + r@,
            old(self)@.len() > 1 ==> {
                &&& final(self)@.len() > 0
                &&& block_size::<K, V>(final(self)@) <= 8192 || final(self)@.len() == 1
                &&& block_size::<K, V>(final(self)@.push(r@[0])) > 8192 || r@.len() == 1
            },
    {
        let at: usize = self.middle();
        let ghost before = self@;
        let rest: Vec<Entry<K, V>> = self.items.split_off(at);
        let r = Entries { items: rest };
        proof {
            assert(self@ =~= before.take(at as int));
            assert(r@ =~= before.skip(at as int));
            subrange_sorted::<K, V>(before, 0, at as int);
            subrange_sorted::<K, V>(before, at as int, before.len() as int);
            assert(before =~= self@ + r@);
            if before.len() > 1 {
                split_is_balanced::<K, V>(before);
                assert(self@.push(r@[0]) =~= before.take(at + 1));
            }
        }
        r
    }

    /// Whether the entries stand in strictly increasing order of their keys.
    pub fn is_sorted(&self) -> (r: bool)
        ensures
            r == sorted::<K, V>(self@),
    {
        let ghost s = self@;
        let mut i: usize = 1;
        while i < self.items.len()
            invariant
                s == self@,
                s.len() == self.items@.len(),
                1 <= i,
                forall|a: int, b: int|
                    0 <= a < b < i && b < s.len() ==> key_precedes::<K>(
                        #[trigger] s[a].0,
                        #[trigger] s[b].0,
                    ),
            decreases self.items@.len() - i,
        {
            assert(s[i - 1] == self.items@[i - 1]@ && s[i as int] == self.items@[i as int]@);
            if !self.items[i - 1].key.before(&self.items[i].key) {
                assert(!key_precedes::<K>(s[i - 1].0, s[i as int].0));
                return false;
            }
            assert forall|a: int, b: int| 0 <= a < b < i + 1 && b < s.len() implies key_precedes::<
                K,
            >(#[trigger] s[a].0, #[trigger] s[b].0) by {
                broadcast use group_key_order;

                if b == i && a < i - 1 {
                    assert(key_precedes::<K>(s[a].0, s[i - 1].0));
                }
            }
            i = i + 1;
        }
        true
    }

    /// The same entries.
    pub fn duplicate(&self) -> (r: Self)
        ensures
            r@ == self@,
    {
        let mut items: Vec<Entry<K, V>> = Vec::new();
        let mut i: usize = 0;
        while i < self.items.len()
            invariant
                i <= self.items@.len(),
                items@.len() == i,
                forall|j: int| 0 <= j < i ==> (#[trigger] items@[j])@ == self.items@[j]@,
            decreases self.items@.len() - i,
        {
            let item: &Entry<K, V> = &self.items[i];
            items.push(Entry { key: item.key.duplicate(), value: item.value.duplicate() });
            i = i + 1;
        }
        let r = Entries { items };
        assert(r@ =~= self@);
        r
    }
}

/// A stored block.
pub struct Block<K, V> {
    pub id: u128,
    pub entries: Entries<K, V>,
}

impl<K: ArrowWriteableKey, V: ArrowWriteableValue> Block<K, V> {
    /// The block's entries are in order.
    pub open spec fn wf(self) -> bool {
        sorted::<K, V>(self.entries@)
    }

    /// The value under `key`, where the block has one.
    pub fn get(&self, prefix: &str, key: &K) -> (r: Option<&V>)
        requires
            self.wf(),
        ensures
            match r {
                Some(v) => find::<K, V>(self.entries@, (prefix@, key@)) == Some(v@),
                None => find::<K, V>(self.entries@, (prefix@, key@)) is None,
            },
            match r {
                Some(v) => self.entries@.contains(((prefix@, key@), v@)),
                None => forall|u: V::V| !#[trigger] self.entries@.contains(((prefix@, key@), u)),
            },
    {
        let search_key = CompositeKey::new(prefix.to_owned(), key.duplicate());
        self.entries.get(&search_key)
    }

    /// The same block.
    pub fn duplicate(&self) -> (r: Self)
        ensures
            r.id == self.id,
            r.entries@ == self.entries@,
    {
        Block { id: self.id, entries: self.entries.duplicate() }
    }
}

/// A block under construction, or a changed copy of a stored block.
pub struct BlockDelta<K, V> {
    pub id: u128,
    pub entries: Entries<K, V>,
}

impl<K: ArrowWriteableKey, V: ArrowWriteableValue> BlockDelta<K, V> {
    /// The delta's entries are in order.
    pub open spec fn wf(self) -> bool {
        sorted::<K, V>(self.entries@)
    }

    /// An empty delta.
    pub fn new(id: u128) -> (r: Self)
        ensures
            r.id == id,
            r.entries@ == Seq::<EntryModel<K, V>>::empty(),
            r.wf(),
    {
        BlockDelta { id, entries: Entries::new() }
    }

    /// The same delta.
    pub fn duplicate(&self) -> (r: Self)
        ensures
            r.id == self.id,
            r.entries@ == self.entries@,
    {
        BlockDelta { id: self.id, entries: self.entries.duplicate() }
    }

    /// The smallest key, where there is an entry.
    pub fn get_min_key(&self) -> (r: Option<CompositeKey<K>>)
        ensures
            match r {
                Some(k) => self.entries@.len() > 0 && k@ == self.entries@[0].0,
                None => self.entries@.len() == 0,
            },
    {
        if self.entries.items.len() > 0 {
            assert(self.entries@[0] == self.entries.items@[0]@);
            Some(self.entries.items[0].key.duplicate())
        } else {
            None
        }
    }

    /// Whether the value can be added under the key without pushing the block over the limit.
    pub fn can_add(&self, prefix: &str, key: &K, value: &V) -> (r: bool)
        requires
            self.wf(),
        ensures
            r == fits::<K, V>(put::<K, V>(self.entries@, (prefix@, key@), value@)),
    {
        let search_key = CompositeKey::new(prefix.to_owned(), key.duplicate());
        self.entries.fits_with(&search_key, value)
    }

    /// Adds the value under the key, in place of one that is there.
    pub fn add(&mut self, prefix: &str, key: K, value: V)
        requires
            old(self).wf(),
        ensures
            final(self).id == old(self).id,
            final(self).entries@ == put::<K, V>(old(self).entries@, (prefix@, key@), value@),
            final(self).wf(),
            forall|x: KeyModel<K>, u: V::V| #[trigger]
                final(self).entries@.contains((x, u)) <==> if x == (prefix@, key@) {
                    u == value@
                } else {
                    old(self).entries@.contains((x, u))
                },
    {
        self.entries.put(CompositeKey::new(prefix.to_owned(), key), value);
    }

    /// Moves the entries from the split point on to a new delta with the given id, and returns it
    /// with its smallest key.
    pub fn split(&mut self, id: u128) -> (r: (CompositeKey<K>, BlockDelta<K, V>))
        requires
            old(self).wf(),
            old(self).entries@.len() > 0,
        ensures
            final(self).id == old(self).id,
            final(self).entries@ == old(self).entries@.take(
                split_point::<K, V>(old(self).entries@),
            ),
            final(self).wf(),
            r.0@ == old(self).entries@[split_point::<K, V>(old(self).entries@)].0,
            r.1.id == id,
            r.1.entries@ == old(self).entries@.skip(split_point::<K, V>(old(self).entries@)),
            r.1.wf(),
            old(self).entries@ == final(self).entries@ + r.1.entries@,
            r.1.entries@.len() > 0,
            r.0@ == r.1.entries@[0].0,
            old(self).entries@.len() > 1 ==> {
                &&& final(self).entries@.len() > 0
                &&& block_size::<K, V>(final(self).entries@) <= 8192 || final(self).entries@.len()
                    == 1
                &&& block_size::<K, V>(final(self).entries@.push(r.1.entries@[0])) > 8192
                    || r.1.entries@.len() == 1
            },
    {
        proof {
            split_point_range::<K, V>(self.entries@);
        }
        let rest: Entries<K, V> = self.entries.split();
        assert(rest@[0] == rest.items@[0]@);
        let split_key: CompositeKey<K> = rest.items[0].key.duplicate();
        (split_key, BlockDelta { id, entries: rest })
    }
}

} // verus!
