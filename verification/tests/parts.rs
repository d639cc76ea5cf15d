//! The parts of a blockfile on their own: order, sizes, deltas and the sparse index.

use blockfile::block::{Block, BlockDelta, Entries};
use blockfile::key::{ArrowWriteableKey, CompositeKey, Float32Key};
use blockfile::order::text_before;
use blockfile::size::{layout_size, times_four};
use blockfile::sparse_index::{IndexEntry, SparseIndex};
use blockfile::value::ArrowWriteableValue;

fn key(k: u32) -> CompositeKey<u32> {
    CompositeKey::new("key".to_string(), k)
}

fn float(x: f32) -> Float32Key {
    Float32Key::from_bits(x.to_bits()).unwrap()
}

#[test]
fn texts_are_ordered_by_their_bytes() {
    let texts = ["", "0000", "00000", "0001", "a", "aa", "b", "z", "\u{e9}", "\u{1f600}"];
    for (i, a) in texts.iter().enumerate() {
        for (j, b) in texts.iter().enumerate() {
            assert_eq!(text_before(a, b), i < j);
            assert_eq!(text_before(a, b), a < b);
        }
    }
}

#[test]
fn floats_are_ordered_by_their_values() {
    let floats = [
        f32::NEG_INFINITY,
        f32::MIN,
        -1.5,
        -f32::MIN_POSITIVE,
        0.0,
        1e-40,
        1.0,
        2.5,
        f32::MAX,
        f32::INFINITY,
    ];
    for (i, a) in floats.iter().enumerate() {
        for (j, b) in floats.iter().enumerate() {
            assert_eq!(float(*a).before(&float(*b)), i < j);
        }
    }
    assert!(!float(-0.0).before(&float(0.0)));
    assert!(!float(0.0).before(&float(-0.0)));
    assert!(float(-1.0).before(&float(-0.0)));
    assert!(float(-0.0).before(&float(1.0)));
    assert!(Float32Key::from_bits(f32::NAN.to_bits()).is_none());
    assert!(Float32Key::from_bits((-f32::NAN).to_bits()).is_none());
}

#[test]
fn a_prefix_orders_before_the_key() {
    let a = CompositeKey::new("a".to_string(), 9u32);
    let b = CompositeKey::new("b".to_string(), 1u32);
    assert!(a.before(&b));
    assert!(!b.before(&a));
    assert!(key(1).before(&key(2)));
    assert!(!key(1).before(&key(1)));
}

#[test]
fn sizes_of_keys_and_values() {
    assert_eq!(ArrowWriteableKey::get_size(&"h\u{e9}".to_string()), 3);
    assert_eq!(ArrowWriteableKey::get_size(&7u32), 4);
    assert_eq!(float(1.0).get_size(), 4);
    assert_eq!(ArrowWriteableValue::get_size(&"abc".to_string()), 3);
    assert_eq!(ArrowWriteableValue::get_size(&7u32), 4);
    assert_eq!(vec![1i32, 2, 3].get_size(), 12);
    assert_eq!(vec![1u8, 2, 3].get_size(), 3);
    assert_eq!(times_four(5), 20);
    assert_eq!(times_four(usize::MAX / 2), usize::MAX);
}

#[test]
fn buffers_are_padded_to_64_bytes() {
    // Prefix data and offsets, key data, value data.
    assert_eq!(layout_size::<u32, u32>(1, 3, 4, 4), 4 * 64);
    // Text keys and values have offsets too.
    assert_eq!(layout_size::<String, String>(1, 3, 4, 4), 6 * 64);
    assert_eq!(layout_size::<String, Vec<i32>>(16, 64, 65, 0), 64 + 128 + 128 + 128 + 0 + 128);
    assert_eq!(layout_size::<u32, u32>(0, 0, 0, 0), 64);
    assert_eq!(layout_size::<u32, u32>(usize::MAX, 0, 0, 0), usize::MAX);
    assert_eq!(layout_size::<u32, u32>(0, usize::MAX, 0, 0), usize::MAX);
}

#[test]
fn a_delta_keeps_its_entries_in_order() {
    let mut delta: BlockDelta<u32, u32> = BlockDelta::new(1);
    assert!(delta.get_min_key().is_none());
    for k in [5, 1, 9, 3, 7, 5] {
        assert!(delta.can_add("key", &k, &k));
        delta.add("key", k, 10 * k);
    }
    let keys: Vec<u32> = delta.entries.items.iter().map(|e| e.key.key).collect();
    assert_eq!(keys, vec![1, 3, 5, 7, 9]);
    assert!(delta.entries.is_sorted());
    assert_eq!(delta.get_min_key().unwrap().key, 1);
    assert_eq!(delta.entries.get(&key(7)), Some(&70));
    assert_eq!(delta.entries.get(&key(8)), None);
    let block = Block { id: 1, entries: delta.entries.duplicate() };
    assert_eq!(block.get("key", &9), Some(&90));
    assert_eq!(block.get("other", &9), None);
    delta.entries.items.swap(0, 1);
    assert!(!delta.entries.is_sorted());
}

#[test]
fn a_split_leaves_at_most_half_behind() {
    let mut delta: BlockDelta<u32, u32> = BlockDelta::new(1);
    let mut i = 0;
    while delta.can_add("key", &i, &i) {
        delta.add("key", i, i);
        i += 1;
    }
    assert_eq!(i, 1088);
    let (split_key, upper) = delta.split(2);
    assert_eq!(upper.id, 2);
    assert_eq!(delta.id, 1);
    let n = delta.entries.items.len();
    assert_eq!(split_key.key, n as u32);
    assert_eq!(upper.get_min_key().unwrap().key, n as u32);
    assert_eq!(n + upper.entries.items.len(), 1088);
    assert!(layout_size::<u32, u32>(n, 3 * n, 4 * n, 4 * n) <= 8192);
    let n = n + 1;
    assert!(layout_size::<u32, u32>(n, 3 * n, 4 * n, 4 * n) > 8192);
}

#[test]
fn a_split_moves_at_least_one_entry() {
    let mut delta: BlockDelta<u32, u32> = BlockDelta::new(1);
    delta.add("key", 1, 1);
    delta.add("key", 2, 2);
    let (split_key, upper) = delta.split(2);
    assert_eq!(split_key.key, 2);
    assert_eq!(delta.entries.items.len(), 1);
    assert_eq!(upper.entries.items.len(), 1);
    let (split_key, upper) = delta.split(3);
    assert_eq!(split_key.key, 1);
    assert_eq!(delta.entries.items.len(), 0);
    assert_eq!(upper.entries.items.len(), 1);
}

#[test]
fn an_index_routes_to_the_last_block_that_starts_in_time() {
    let mut index: SparseIndex<u32> = SparseIndex::new(9);
    assert_eq!(index.len(), 0);
    assert!(index.is_valid());
    index.add_initial_block(100);
    index.add_block(key(20), 102);
    index.add_block(key(10), 101);
    assert_eq!(index.id, 9);
    assert_eq!(index.len(), 3);
    assert!(index.is_valid());
    for (k, block) in [(0, 100), (9, 100), (10, 101), (19, 101), (20, 102), (99, 102)] {
        assert_eq!(index.get_target_block_id(&key(k)), block);
    }
    index.add_block(key(10), 103);
    assert_eq!(index.len(), 3);
    assert_eq!(index.get_target_block_id(&key(10)), 103);
}

#[test]
fn an_index_replaces_a_block() {
    let mut index: SparseIndex<u32> = SparseIndex::new(9);
    index.add_initial_block(100);
    index.add_block(key(10), 101);
    index.add_block(key(20), 102);
    index.replace_block(100, 200, key(3));
    assert_eq!(index.get_target_block_id(&key(0)), 200);
    index.replace_block(101, 201, key(12));
    assert_eq!(index.get_target_block_id(&key(11)), 200);
    assert_eq!(index.get_target_block_id(&key(12)), 201);
    assert_eq!(index.len(), 3);
    assert!(index.is_valid());
    let forked = index.fork(10);
    assert_eq!(forked.id, 10);
    assert_eq!(forked.len(), 3);
    assert_eq!(forked.get_target_block_id(&key(25)), 102);
}

#[test]
fn an_index_out_of_order_is_not_valid() {
    let index = SparseIndex {
        id: 1,
        blocks: vec![IndexEntry { start: Some(key(1)), block: 1 }],
    };
    assert!(!index.is_valid());
    let index = SparseIndex {
        id: 1,
        blocks: vec![
            IndexEntry { start: None, block: 1 },
            IndexEntry { start: Some(key(2)), block: 2 },
            IndexEntry { start: Some(key(2)), block: 3 },
        ],
    };
    assert!(!index.is_valid());
    let index: SparseIndex<u32> = SparseIndex {
        id: 1,
        blocks: vec![IndexEntry { start: None, block: 1 }, IndexEntry { start: None, block: 2 }],
    };
    assert!(!index.is_valid());
}

#[test]
fn no_entries_are_in_order() {
    let entries: Entries<u32, u32> = Entries::new();
    assert!(entries.is_sorted());
    assert_eq!(entries.get(&key(1)), None);
}
