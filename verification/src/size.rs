//! The room that entries take in a block, laid out as columns of prefixes, keys and values.

use crate::block::EntryModel;
use crate::blockfile::MAX_BLOCK_SIZE;
use crate::key::ArrowWriteableKey;
use crate::value::ArrowWriteableValue;
use vstd::prelude::*;
use vstd::utf8::encode_utf8;

verus! {

/// `n`, or the largest `usize` where `n` is larger.
pub open spec fn saturate(n: nat) -> usize {
    if n > usize::MAX {
        usize::MAX
    } else {
        n as usize
    }
}

/// `n` rounded up to a multiple of 64, the alignment of a buffer.
pub open spec fn pad(n: nat) -> nat {
    ((n + 63) / 64 * 64) as nat
}

/// The buffer of offsets into a column of `n` items of differing widths.
pub open spec fn offsets(n: nat) -> nat {
    pad(4 * (n + 1))
}

/// What `n` entries take whose prefixes, keys and values have so many bytes in all: a padded
/// buffer of data for each of the three columns, and a buffer of offsets for each column whose
/// items differ in width.
#[verifier::opaque]
pub open spec fn layout<K: ArrowWriteableKey, V: ArrowWriteableValue>(
    n: nat,
    prefixes: nat,
    keys: nat,
    values: nat,
) -> nat {
    pad(prefixes) + offsets(n) + pad(keys) + (if K::has_offsets() {
        offsets(n)
    } else {
        0
    }) + pad(values) + (if V::has_offsets() {
        offsets(n)
    } else {
        0
    })
}

/// A count that fits a `usize` is kept, and a larger one becomes the largest.
pub proof fn saturate_keeps_what_fits(n: nat)
    ensures
        n <= usize::MAX ==> saturate(n) == n,
        n > usize::MAX ==> saturate(n) == usize::MAX,
{
}

/// The columns of prefixes, keys and values take the bytes of their items, and those whose items
/// differ in width four bytes for each item and four more. Each buffer is rounded up to a multiple
/// of 64 bytes.
pub proof fn layout_rounds_its_buffers<K: ArrowWriteableKey, V: ArrowWriteableValue>(
    n: nat,
    prefixes: nat,
    keys: nat,
    values: nat,
)
    ensures
        ({
            let rounded = (4 * n + 4 + 63) / 64 * 64;
            layout::<K, V>(n, prefixes, keys, values) == (prefixes + 63) / 64 * 64 + (keys + 63)
                / 64 * 64 + (values + 63) / 64 * 64 + rounded + (if K::has_offsets() {
                rounded
            } else {
                0
            }) + (if V::has_offsets() {
                rounded
            } else {
                0
            })
        }),
{
    reveal(layout);
}

/// The sum of `f` over the items of `s`.
pub open spec fn sum<T>(s: Seq<T>, f: spec_fn(T) -> nat) -> nat
    decreases s.len(),
{
    if s.len() == 0 {
        0
    } else {
        sum(s.drop_last(), f) + f(s.last())
    }
}

/// The bytes of an entry in the data of the prefix column.
pub open spec fn prefix_bytes<K: ArrowWriteableKey, V: ArrowWriteableValue>() -> spec_fn(
    EntryModel<K, V>,
) -> nat {
    |e: EntryModel<K, V>| encode_utf8(e.0.0).len()
}

/// The bytes of an entry in the data of the key column.
pub open spec fn key_bytes<K: ArrowWriteableKey, V: ArrowWriteableValue>() -> spec_fn(
    EntryModel<K, V>,
) -> nat {
    |e: EntryModel<K, V>| K::data_bytes(e.0.1)
}

/// The bytes of an entry in the data of the value column.
pub open spec fn value_bytes<K: ArrowWriteableKey, V: ArrowWriteableValue>() -> spec_fn(
    EntryModel<K, V>,
) -> nat {
    |e: EntryModel<K, V>| V::data_bytes(e.1)
}

/// The size of a block with the entries `s`.
pub open spec fn block_size<K: ArrowWriteableKey, V: ArrowWriteableValue>(
    s: Seq<EntryModel<K, V>>,
) -> nat {
    layout::<K, V>(
        s.len(),
        sum(s, prefix_bytes::<K, V>()),
        sum(s, key_bytes::<K, V>()),
        sum(s, value_bytes::<K, V>()),
    )
}

/// A block with these entries is within the limit.
pub open spec fn fits<K: ArrowWriteableKey, V: ArrowWriteableValue>(
    s: Seq<EntryModel<K, V>>,
) -> bool {
    block_size::<K, V>(s) <= MAX_BLOCK_SIZE
}

/// The length of the longest prefix of the first `n` entries that takes at most half of the
/// limit.
pub open spec fn half_prefix<K: ArrowWriteableKey, V: ArrowWriteableValue>(
    s: Seq<EntryModel<K, V>>,
    n: int,
) -> int
    decreases n,
{
    if n <= 0 {
        0
    } else if block_size::<K, V>(s.take(n)) <= MAX_BLOCK_SIZE / 2 {
        n
    } else {
        half_prefix::<K, V>(s, n - 1)
    }
}

/// Where a block is split: after the longest proper prefix that takes at most half of the limit,
/// or after the first entry where even that takes more. The entry of a block with no other is not
/// left behind.
pub open spec fn split_point<K: ArrowWriteableKey, V: ArrowWriteableValue>(
    s: Seq<EntryModel<K, V>>,
) -> int {
    let half = half_prefix::<K, V>(s, s.len() - 1);
    if s.len() > 1 && half < 1 {
        1
    } else {
        half
    }
}

/// A larger count of bytes is padded to no less.
pub proof fn pad_monotone(a: nat, b: nat)
    requires
        a <= b,
    ensures
        a <= pad(a) <= pad(b),
{
}

/// More entries with more bytes take no less.
pub proof fn layout_monotone<K: ArrowWriteableKey, V: ArrowWriteableValue>(
    n: nat,
    p: nat,
    k: nat,
    v: nat,
    n2: nat,
    p2: nat,
    k2: nat,
    v2: nat,
)
    requires
        n <= n2,
        p <= p2,
        k <= k2,
        v <= v2,
    ensures
        layout::<K, V>(n, p, k, v) <= layout::<K, V>(n2, p2, k2, v2),
        p2 <= layout::<K, V>(n2, p2, k2, v2),
        k2 <= layout::<K, V>(n2, p2, k2, v2),
        v2 <= layout::<K, V>(n2, p2, k2, v2),
{
    reveal(layout);
    pad_monotone(p, p2);
    pad_monotone(k, k2);
    pad_monotone(v, v2);
    pad_monotone(4 * (n + 1), 4 * (n2 + 1));
}

/// A block takes at least four bytes for each entry.
pub proof fn offsets_bound<K: ArrowWriteableKey, V: ArrowWriteableValue>(s: Seq<EntryModel<K, V>>)
    ensures
        block_size::<K, V>(s) >= 4 * (s.len() + 1),
{
    reveal(layout);
}

/// The sum over a prefix grows with the prefix.
pub proof fn sum_take<T>(s: Seq<T>, f: spec_fn(T) -> nat, i: int, j: int)
    requires
        0 <= i <= j <= s.len(),
    ensures
        sum(s.take(i), f) <= sum(s.take(j), f),
    decreases j - i,
{
    if i < j {
        assert(s.take(j).drop_last() =~= s.take(j - 1));
        sum_take(s, f, i, j - 1);
    }
}

/// The sum over one more item.
pub proof fn sum_step<T>(s: Seq<T>, f: spec_fn(T) -> nat, i: int)
    requires
        0 <= i < s.len(),
    ensures
        sum(s.take(i + 1), f) == sum(s.take(i), f) + f(s[i]),
{
    assert(s.take(i + 1).drop_last() =~= s.take(i));
}

/// The sum after an item is inserted.
pub proof fn sum_insert<T>(s: Seq<T>, f: spec_fn(T) -> nat, p: int, x: T)
    requires
        0 <= p <= s.len(),
    ensures
        sum(s.insert(p, x), f) == sum(s, f) + f(x),
    decreases s.len(),
{
    let t = s.insert(p, x);
    if p == s.len() {
        assert(t.drop_last() =~= s);
    } else {
        assert(t.drop_last() =~= s.drop_last().insert(p, x));
        assert(t.last() == s.last());
        sum_insert(s.drop_last(), f, p, x);
    }
}

/// A prefix of a block takes no more than a longer prefix.
pub proof fn prefix_size<K: ArrowWriteableKey, V: ArrowWriteableValue>(
    s: Seq<EntryModel<K, V>>,
    i: int,
    j: int,
)
    requires
        0 <= i <= j <= s.len(),
    ensures
        block_size::<K, V>(s.take(i)) <= block_size::<K, V>(s.take(j)),
{
    sum_take(s, prefix_bytes::<K, V>(), i, j);
    sum_take(s, key_bytes::<K, V>(), i, j);
    sum_take(s, value_bytes::<K, V>(), i, j);
    let (a, b) = (s.take(i), s.take(j));
    layout_monotone::<K, V>(
        a.len(),
        sum(a, prefix_bytes::<K, V>()),
        sum(a, key_bytes::<K, V>()),
        sum(a, value_bytes::<K, V>()),
        b.len(),
        sum(b, prefix_bytes::<K, V>()),
        sum(b, key_bytes::<K, V>()),
        sum(b, value_bytes::<K, V>()),
    );
}

/// A prefix within half of the limit, at the end or followed by one that is not, is the longest.
pub proof fn half_prefix_at<K: ArrowWriteableKey, V: ArrowWriteableValue>(
    s: Seq<EntryModel<K, V>>,
    n: int,
    c: int,
)
    requires
        0 <= c <= n <= s.len(),
        c == 0 || block_size::<K, V>(s.take(c)) <= MAX_BLOCK_SIZE / 2,
        c == n || block_size::<K, V>(s.take(c + 1)) > MAX_BLOCK_SIZE / 2,
    ensures
        half_prefix::<K, V>(s, n) == c,
    decreases n,
{
    if c < n {
        prefix_size::<K, V>(s, c + 1, n);
        half_prefix_at::<K, V>(s, n - 1, c);
    }
}

/// The longest prefix within half of the limit is no longer than the entries it is taken from.
proof fn half_prefix_range<K: ArrowWriteableKey, V: ArrowWriteableValue>(
    s: Seq<EntryModel<K, V>>,
    n: int,
)
    requires
        0 <= n,
    ensures
        0 <= half_prefix::<K, V>(s, n) <= n,
    decreases n,
{
    if n > 0 {
        half_prefix_range::<K, V>(s, n - 1);
    }
}

/// The split point of a block has an entry after it, and one before it unless there is but one.
pub proof fn split_point_range<K: ArrowWriteableKey, V: ArrowWriteableValue>(
    s: Seq<EntryModel<K, V>>,
)
    requires
        s.len() > 0,
    ensures
        0 <= split_point::<K, V>(s) < s.len(),
        split_point::<K, V>(s) == 0 <==> s.len() == 1,
{
    half_prefix_range::<K, V>(s, s.len() - 1);
}

/// A block of two entries or more is split in balance. The lower part takes at most half of the
/// limit, or is a single entry. With one more entry it would take more than half, or would leave
/// none for the upper part.
pub proof fn split_is_balanced<K: ArrowWriteableKey, V: ArrowWriteableValue>(
    s: Seq<EntryModel<K, V>>,
)
    requires
        s.len() >= 2,
    ensures
        ({
            let c = split_point::<K, V>(s);
            &&& 1 <= c < s.len()
            &&& block_size::<K, V>(s.take(c)) <= 8192 || c == 1
            &&& block_size::<K, V>(s.take(c + 1)) > 8192 || c + 1 == s.len()
        }),
{
    half_prefix_range::<K, V>(s, s.len() - 1);
    half_prefix_bounds::<K, V>(s, s.len() - 1);
    if half_prefix::<K, V>(s, s.len() - 1) == 0 && s.len() > 2 {
        prefix_size::<K, V>(s, 1, 2);
    }
}

/// No other place splits a block of two entries or more in balance.
pub proof fn balanced_split_is_unique<K: ArrowWriteableKey, V: ArrowWriteableValue>(
    s: Seq<EntryModel<K, V>>,
    c: int,
)
    requires
        1 <= c < s.len(),
        block_size::<K, V>(s.take(c)) <= 8192 || c == 1,
        block_size::<K, V>(s.take(c + 1)) > 8192 || c + 1 == s.len(),
    ensures
        split_point::<K, V>(s) == c,
{
    let d = split_point::<K, V>(s);
    split_is_balanced::<K, V>(s);
    if c < d {
        prefix_size::<K, V>(s, c + 1, d);
    } else if d < c {
        prefix_size::<K, V>(s, d + 1, c);
    }
}

/// The longest prefix within half of the limit is within it, and one entry more is not.
proof fn half_prefix_bounds<K: ArrowWriteableKey, V: ArrowWriteableValue>(
    s: Seq<EntryModel<K, V>>,
    n: int,
)
    requires
        0 <= n <= s.len(),
    ensures
        ({
            let c = half_prefix::<K, V>(s, n);
            &&& c == 0 || block_size::<K, V>(s.take(c)) <= 8192
            &&& c == n || block_size::<K, V>(s.take(c + 1)) > 8192
        }),
    decreases n,
{
    if n > 0 {
        half_prefix_range::<K, V>(s, n - 1);
        half_prefix_bounds::<K, V>(s, n - 1);
    }
}

/// A block has a column of prefixes, one of keys and one of values. Each takes the bytes of its
/// items, and four bytes for each item and four more where its items differ in width, as those of
/// the prefixes always do. Each of these buffers is rounded up to a multiple of 64 bytes.
pub proof fn block_takes_its_columns<K: ArrowWriteableKey, V: ArrowWriteableValue>(
    s: Seq<EntryModel<K, V>>,
)
    ensures
        ({
            let prefixes = s.fold_left(
                0nat,
                |n: nat, e: EntryModel<K, V>| (n + encode_utf8(e.0.0).len()) as nat,
            );
            let keys = s.fold_left(
                0nat,
                |n: nat, e: EntryModel<K, V>| (n + K::data_bytes(e.0.1)) as nat,
            );
            let values = s.fold_left(
                0nat,
                |n: nat, e: EntryModel<K, V>| (n + V::data_bytes(e.1)) as nat,
            );
            let columns: int = 1 + (if K::has_offsets() {
                1int
            } else {
                0
            }) + (if V::has_offsets() {
                1int
            } else {
                0
            });
            block_size::<K, V>(s) == (prefixes + 63) / 64 * 64 + (keys + 63) / 64 * 64 + (values
                + 63) / 64 * 64 + columns * ((4 * s.len() + 4 + 63) / 64 * 64)
        }),
{
    reveal(layout);
    sum_is_fold(
        s,
        prefix_bytes::<K, V>(),
        |n: nat, e: EntryModel<K, V>| (n + encode_utf8(e.0.0).len()) as nat,
    );
    sum_is_fold(
        s,
        key_bytes::<K, V>(),
        |n: nat, e: EntryModel<K, V>| (n + K::data_bytes(e.0.1)) as nat,
    );
    sum_is_fold(
        s,
        value_bytes::<K, V>(),
        |n: nat, e: EntryModel<K, V>| (n + V::data_bytes(e.1)) as nat,
    );
    let o: int = (4 * s.len() + 4 + 63) / 64 * 64int;
    assert(offsets(s.len()) == o);
    assert(1 * o == o && 2 * o == o + o && 3 * o == o + o + o) by (nonlinear_arith);
}

/// A sum adds up what its function gives for each item.
proof fn sum_is_fold<T>(s: Seq<T>, f: spec_fn(T) -> nat, g: spec_fn(nat, T) -> nat)
    requires
        forall|n: nat, x: T| #[trigger] g(n, x) == n + f(x),
    ensures
        sum(s, f) == s.fold_left(0nat, g),
    decreases s.len(),
{
    if s.len() > 0 {
        sum_is_fold(s.drop_last(), f, g);
    }
}

/// A block is within the limit where it takes at most 16384 bytes.
pub proof fn limit_of_a_block<K: ArrowWriteableKey, V: ArrowWriteableValue>(
    s: Seq<EntryModel<K, V>>,
)
    ensures
        fits::<K, V>(s) <==> block_size::<K, V>(s) <= 16384,
{
}

/// Four times `n`, or the largest `usize` where that is larger.
pub fn times_four(n: usize) -> (r: usize)
    ensures
        r == saturate((4 * n) as nat),
        4 * n <= usize::MAX ==> r == 4 * n,
{
    let twice: usize = n.saturating_add(n);
    twice.saturating_add(twice)
}

/// A count of bytes after padding.
fn padded(n: usize) -> (r: usize)
    ensures
        r == saturate(pad(n as nat)),
{
    if n <= usize::MAX - 63 {
        (n + 63) / 64 * 64
    } else {
        assert(usize::MAX == 0xffff_ffff || usize::MAX == 0xffff_ffff_ffff_ffff);
        usize::MAX
    }
}

/// The size of `n` entries with the given counts of bytes.
pub fn layout_size<K: ArrowWriteableKey, V: ArrowWriteableValue>(
    n: usize,
    prefixes: usize,
    keys: usize,
    values: usize,
) -> (r: usize)
    ensures
        r == saturate(layout::<K, V>(n as nat, prefixes as nat, keys as nat, values as nat)),
{
    reveal(layout);
    let slots: usize = n.saturating_add(1);
    let buffer: usize = padded(times_four(slots));
    proof {
        if n == usize::MAX {
            pad_monotone(4 * (n as nat), 4 * (n as nat + 1));
        } else {
            pad_monotone(usize::MAX as nat, if 4 * (n as nat + 1) > usize::MAX {
                4 * (n as nat + 1)
            } else {
                usize::MAX as nat
            });
        }
        assert(buffer == saturate(offsets(n as nat)));
    }
    let mut total: usize = padded(prefixes).saturating_add(buffer);
    total = total.saturating_add(padded(keys));
    if K::variable_width() {
        total = total.saturating_add(buffer);
    }
    total = total.saturating_add(padded(values));
    if V::variable_width() {
        total = total.saturating_add(buffer);
    }
    total
}

/// Saturating the counts of bytes does not change the saturated size.
pub proof fn layout_saturates<K: ArrowWriteableKey, V: ArrowWriteableValue>(
    n: nat,
    p: nat,
    k: nat,
    v: nat,
)
    ensures
        saturate(
            layout::<K, V>(n, saturate(p) as nat, saturate(k) as nat, saturate(v) as nat),
        ) == saturate(layout::<K, V>(n, p, k, v)),
{
    let (p2, k2, v2) = (saturate(p) as nat, saturate(k) as nat, saturate(v) as nat);
    layout_monotone::<K, V>(n, p2, k2, v2, n, p, k, v);
    layout_monotone::<K, V>(n, p2, k2, v2, n, p2, k2, v2);
}

} // verus!
