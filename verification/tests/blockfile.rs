//! Blockfiles that are written, committed, forked and read back.

use blockfile::block::BlockDelta;
use blockfile::blockfile::{ArrowBlockfileReader, ArrowBlockfileWriter, BlockfileError, WriteStatus};
use blockfile::flusher::ArrowBlockfileFlusher;
use blockfile::key::{ArrowWriteableKey, Float32Key};
use blockfile::provider::{BlockManager, SparseIndexManager};
use blockfile::value::ArrowWriteableValue;
use roaring::RoaringBitmap;
use std::collections::HashMap;

fn create<K: ArrowWriteableKey, V: ArrowWriteableValue>(id: u128) -> ArrowBlockfileWriter<K, V> {
    ArrowBlockfileWriter::new(id, BlockManager::new(), SparseIndexManager::new())
}

fn fork<K: ArrowWriteableKey, V: ArrowWriteableValue>(
    flusher: ArrowBlockfileFlusher<K, V>,
    from: u128,
    id: u128,
) -> ArrowBlockfileWriter<K, V> {
    let index = flusher.sparse_index_manager.get(&from).unwrap().fork(id);
    ArrowBlockfileWriter::from_sparse_index(
        id,
        flusher.block_manager,
        flusher.sparse_index_manager,
        index,
    )
}

fn open<K: ArrowWriteableKey, V: ArrowWriteableValue>(
    flusher: ArrowBlockfileFlusher<K, V>,
    id: u128,
) -> ArrowBlockfileReader<K, V> {
    let index = flusher.sparse_index_manager.get(&id).unwrap().fork(id);
    ArrowBlockfileReader::new(id, flusher.block_manager, index)
}

fn set<K: ArrowWriteableKey, V: ArrowWriteableValue>(
    writer: &mut ArrowBlockfileWriter<K, V>,
    prefix: &str,
    key: K,
    value: V,
) {
    assert_eq!(writer.write_status(prefix, &key, &value), WriteStatus::Ready);
    writer.set(prefix, key, value).unwrap();
}

fn get<'a, K: ArrowWriteableKey, V: ArrowWriteableValue>(
    reader: &'a mut ArrowBlockfileReader<K, V>,
    prefix: &str,
    key: K,
) -> &'a V {
    assert!(reader.lookup(prefix, &key).is_ok());
    reader.get(prefix, key).unwrap()
}

#[test]
fn test_blockfile() {
    let mut writer = create::<String, Vec<i32>>(1);
    let id = writer.id();

    let prefix_1 = "key";
    let key1 = "zzzz".to_string();
    let value1 = vec![1, 2, 3];
    set(&mut writer, prefix_1, key1.clone(), value1);

    let prefix_2 = "key";
    let key2 = "aaaa".to_string();
    let value2 = vec![4, 5, 6];
    set(&mut writer, prefix_2, key2.clone(), value2);

    let flusher = writer.commit().unwrap();
    let mut reader = open(flusher, id);

    let value = get(&mut reader, prefix_1, key1);
    assert_eq!(value, &[1, 2, 3]);

    let value = get(&mut reader, prefix_2, key2);
    assert_eq!(value, &[4, 5, 6]);
}

#[test]
fn test_splitting() {
    let mut writer = create::<String, Vec<i32>>(1);
    let id_1 = writer.id();

    let n = 1200;
    for i in 0..n {
        let key = format!("{:04}", i);
        let value = vec![i];
        set(&mut writer, "key", key, value);
    }
    let flusher = writer.commit().unwrap();

    let mut reader = open(flusher, id_1);
    for i in 0..n {
        let key = format!("{:04}", i);
        let value = get(&mut reader, "key", key);
        assert_eq!(value, &[i]);
    }

    // Sparse index should have 3 blocks
    assert_eq!(reader.sparse_index.len(), 3);
    assert!(reader.sparse_index.is_valid());

    // Add 5 new entries to the first block
    let index = reader.sparse_index.fork(2);
    let mut writer =
        ArrowBlockfileWriter::from_sparse_index(2, reader.block_manager, SparseIndexManager::new(), index);
    let id_2 = writer.id();
    for i in 0..5 {
        let key = format!("{:05}", i);
        let value = vec![i];
        set(&mut writer, "key", key, value);
    }
    let flusher = writer.commit().unwrap();

    let mut reader = open(flusher, id_2);
    for i in 0..5 {
        let key = format!("{:05}", i);
        println!("Getting key: {}", key);
        let value = get(&mut reader, "key", key);
        assert_eq!(value, &[i]);
    }

    // Sparse index should still have 3 blocks
    assert_eq!(reader.sparse_index.len(), 3);
    assert!(reader.sparse_index.is_valid());

    // Add 1200 more entries, causing splits
    let index = reader.sparse_index.fork(3);
    let mut writer =
        ArrowBlockfileWriter::from_sparse_index(3, reader.block_manager, SparseIndexManager::new(), index);
    let id_3 = writer.id();
    for i in n..n * 2 {
        let key = format!("{:04}", i);
        let value = vec![i];
        set(&mut writer, "key", key, value);
    }
    let flusher = writer.commit().unwrap();

    let mut reader = open(flusher, id_3);
    for i in n..n * 2 {
        let key = format!("{:04}", i);
        let value = get(&mut reader, "key", key);
        assert_eq!(value, &[i]);
    }

    // Sparse index should have 6 blocks
    assert_eq!(reader.sparse_index.len(), 6);
    assert!(reader.sparse_index.is_valid());

    // The entries written before the fork are still there
    for i in 0..n {
        let key = format!("{:04}", i);
        assert_eq!(get(&mut reader, "key", key), &[i]);
    }
}

#[test]
fn test_string_value() {
    let mut writer = create::<String, String>(1);
    let id = writer.id();

    let n = 2000;
    for i in 0..n {
        let key = format!("{:04}", i);
        let value = format!("{:04}", i);
        set(&mut writer, "key", key, value);
    }

    let flusher = writer.commit().unwrap();

    let mut reader = open(flusher, id);
    for i in 0..n {
        let key = format!("{:04}", i);
        let value = get(&mut reader, "key", key);
        assert_eq!(value, &format!("{:04}", i));
    }
}

#[test]
fn test_float_key() {
    let mut writer = create::<Float32Key, String>(1);
    let id = writer.id();

    let n = 2000;
    for i in 0..n {
        let key = Float32Key::from_bits((i as f32).to_bits()).unwrap();
        let value = format!("{:04}", i);
        set(&mut writer, "key", key, value);
    }

    let flusher = writer.commit().unwrap();

    let mut reader = open(flusher, id);
    for i in 0..n {
        let key = Float32Key::from_bits((i as f32).to_bits()).unwrap();
        let value = get(&mut reader, "key", key);
        assert_eq!(value, &format!("{:04}", i));
    }
}

fn bitmap_bytes(bitmap: &RoaringBitmap) -> Vec<u8> {
    let mut bytes = Vec::new();
    bitmap.serialize_into(&mut bytes).unwrap();
    bytes
}

#[test]
fn test_roaring_bitmap_value() {
    let mut writer = create::<String, Vec<u8>>(1);
    let id = writer.id();

    let n = 2000;
    for i in 0..n {
        let key = format!("{:04}", i);
        let value = RoaringBitmap::from_iter((0..i).map(|x| x as u32));
        set(&mut writer, "key", key, bitmap_bytes(&value));
    }
    let flusher = writer.commit().unwrap();

    let mut reader = open(flusher, id);
    for i in 0..n {
        let key = format!("{:04}", i);
        let bytes = get(&mut reader, "key", key);
        let value = RoaringBitmap::deserialize_from(&bytes[..]).unwrap();
        assert_eq!(value.len(), i as u64);
        assert_eq!(
            value.iter().collect::<Vec<u32>>(),
            (0..i).collect::<Vec<u32>>()
        );
    }
}

#[test]
fn test_uint_key_val() {
    let mut writer = create::<u32, u32>(1);
    let id = writer.id();

    let n = 2000;
    for i in 0..n {
        let key = i as u32;
        let value = i as u32;
        set(&mut writer, "key", key, value);
    }

    let flusher = writer.commit().unwrap();

    let mut reader = open(flusher, id);
    for i in 0..n {
        let key = i as u32;
        let value = get(&mut reader, "key", key);
        assert_eq!(*value, i as u32);
    }
}

#[derive(Debug, PartialEq)]
struct DataRecord {
    id: String,
    embedding: Vec<f32>,
    document: Option<String>,
    metadata: Option<HashMap<String, String>>,
}

fn push_text(bytes: &mut Vec<u8>, text: &str) {
    bytes.extend_from_slice(&(text.len() as u32).to_le_bytes());
    bytes.extend_from_slice(text.as_bytes());
}

fn take_number(bytes: &mut &[u8]) -> u32 {
    let (head, rest) = bytes.split_at(4);
    *bytes = rest;
    u32::from_le_bytes(head.try_into().unwrap())
}

fn take_text(bytes: &mut &[u8]) -> String {
    let len = take_number(bytes) as usize;
    let (head, rest) = bytes.split_at(len);
    *bytes = rest;
    String::from_utf8(head.to_vec()).unwrap()
}

fn record_bytes(record: &DataRecord) -> Vec<u8> {
    let mut bytes = Vec::new();
    push_text(&mut bytes, &record.id);
    bytes.extend_from_slice(&(record.embedding.len() as u32).to_le_bytes());
    for x in &record.embedding {
        bytes.extend_from_slice(&x.to_le_bytes());
    }
    bytes.push(record.document.is_some() as u8);
    if let Some(document) = &record.document {
        push_text(&mut bytes, document);
    }
    bytes.push(record.metadata.is_some() as u8);
    if let Some(metadata) = &record.metadata {
        bytes.extend_from_slice(&(metadata.len() as u32).to_le_bytes());
        for (key, value) in metadata {
            push_text(&mut bytes, key);
            push_text(&mut bytes, value);
        }
    }
    bytes
}

fn take_flag(bytes: &mut &[u8]) -> bool {
    let flag = bytes[0] == 1;
    *bytes = &bytes[1..];
    flag
}

fn record_of(mut bytes: &[u8]) -> DataRecord {
    let bytes = &mut bytes;
    let id = take_text(bytes);
    let n = take_number(bytes);
    let embedding = (0..n).map(|_| f32::from_bits(take_number(bytes))).collect();
    let document = if take_flag(bytes) { Some(take_text(bytes)) } else { None };
    let metadata = if take_flag(bytes) {
        let n = take_number(bytes);
        Some((0..n).map(|_| (take_text(bytes), take_text(bytes))).collect())
    } else {
        None
    };
    DataRecord { id, embedding, document, metadata }
}

#[test]
fn test_data_record_val() {
    let mut writer = create::<String, Vec<u8>>(1);
    let id = writer.id();

    let n = 2000;
    for i in 0..n {
        let key = format!("{:04}", i);
        let mut metdata = HashMap::new();
        metdata.insert("key".to_string(), "value".to_string());
        let value = DataRecord {
            id: key.clone(),
            embedding: vec![i as f32],
            document: None,
            metadata: Some(metdata),
        };
        set(&mut writer, "key", key, record_bytes(&value));
    }

    let flusher = writer.commit().unwrap();

    let mut reader = open(flusher, id);
    for i in 0..n {
        let key = format!("{:04}", i);
        let bytes = get(&mut reader, "key", key.clone());
        let value = record_of(&bytes[..]);
        assert_eq!(value.id, key);
        assert_eq!(value.embedding, &[i as f32]);
        assert_eq!(value.document, None);
        let metadata = value.metadata.unwrap();
        assert_eq!(metadata.len(), 1);
        assert_eq!(metadata.get("key").unwrap(), &"value".to_string());
    }
}

#[test]
fn a_later_write_replaces_an_earlier_one() {
    let mut writer = create::<u32, u32>(1);
    for i in 0..100 {
        set(&mut writer, "key", i, i);
    }
    for i in 0..100 {
        set(&mut writer, "key", i, 2 * i);
    }
    let mut reader = open(writer.commit().unwrap(), 1);
    for i in 0..100 {
        assert_eq!(*get(&mut reader, "key", i), 2 * i);
    }
}

#[test]
fn a_prefix_keeps_its_keys_apart() {
    let mut writer = create::<u32, u32>(1);
    set(&mut writer, "a", 1, 10);
    set(&mut writer, "b", 1, 20);
    set(&mut writer, "", 1, 30);
    let mut reader = open(writer.commit().unwrap(), 1);
    assert_eq!(*get(&mut reader, "a", 1), 10);
    assert_eq!(*get(&mut reader, "b", 1), 20);
    assert_eq!(*get(&mut reader, "", 1), 30);
    assert_eq!(reader.lookup("c", &1), Err(BlockfileError::KeyNotFound));
}

#[test]
fn a_new_blockfile_is_empty() {
    let writer = create::<u32, u32>(7);
    assert_eq!(writer.id(), 7);
    assert_eq!(writer.sparse_index.len(), 1);
    let flusher = writer.commit().unwrap();
    assert_eq!(flusher.id, 7);
    assert_eq!(flusher.delta_ids.len(), 1);
    let mut reader = open(flusher, 7);
    assert_eq!(reader.id(), 7);
    assert_eq!(reader.lookup("key", &0), Err(BlockfileError::KeyNotFound));
}

#[test]
fn a_write_before_the_split_key_is_not_found() {
    let mut writer = create::<u32, u32>(1);
    let mut i = 1;
    loop {
        set(&mut writer, "key", 10 * i, i);
        let full = writer.block_deltas.values().all(|d| !d.can_add("key", &5, &0));
        if full {
            break;
        }
        i += 1;
    }
    assert_eq!(writer.sparse_index.len(), 1);
    set(&mut writer, "key", 5, 55);
    assert_eq!(writer.sparse_index.len(), 2);
    let mut reader = open(writer.commit().unwrap(), 1);
    assert_eq!(reader.lookup("key", &5), Err(BlockfileError::KeyNotFound));
    for j in 1..=i {
        assert_eq!(*get(&mut reader, "key", 10 * j), j);
    }
}

#[test]
fn a_write_from_the_split_key_on_is_found() {
    let mut writer = create::<u32, u32>(1);
    let mut i = 1;
    while writer.block_deltas.values().all(|d| d.can_add("key", &5, &0)) {
        set(&mut writer, "key", 10 * i, i);
        i += 1;
    }
    let between = 10 * (i - 2) + 5;
    set(&mut writer, "key", between, 55);
    assert_eq!(writer.sparse_index.len(), 2);
    let mut reader = open(writer.commit().unwrap(), 1);
    assert_eq!(*get(&mut reader, "key", between), 55);
    for j in 1..i {
        assert_eq!(*get(&mut reader, "key", 10 * j), j);
    }
}

#[test]
fn a_fork_leaves_its_source_alone() {
    let mut writer = create::<u32, u32>(1);
    for i in 0..3000 {
        set(&mut writer, "key", i, i);
    }
    let flusher = writer.commit().unwrap();
    let mut writer = fork(flusher, 1, 2);
    assert_eq!(writer.block_deltas.len(), 0);
    for i in 0..3000 {
        set(&mut writer, "key", i, i + 1);
    }
    let flusher = writer.commit().unwrap();
    assert_eq!(flusher.id, 2);
    let source = flusher.sparse_index_manager.get(&1).unwrap().fork(1);
    let forked = flusher.sparse_index_manager.get(&2).unwrap().fork(2);
    let mut reader = ArrowBlockfileReader::new(1, flusher.block_manager, source);
    for i in 0..3000 {
        assert_eq!(*get(&mut reader, "key", i), i);
    }
    let mut reader = ArrowBlockfileReader::new(2, reader.block_manager, forked);
    for i in 0..3000 {
        assert_eq!(*get(&mut reader, "key", i), i + 1);
    }
}

#[test]
fn a_fork_copies_only_the_blocks_it_writes() {
    let mut writer = create::<u32, u32>(1);
    for i in 0..3000 {
        set(&mut writer, "key", i, i);
    }
    let blocks = writer.sparse_index.len();
    assert!(blocks > 2);
    let mut writer = fork(writer.commit().unwrap(), 1, 2);
    set(&mut writer, "key", 2999, 0);
    assert_eq!(writer.block_deltas.len(), 1);
    assert_eq!(writer.sparse_index.len(), blocks);
    let flusher = writer.commit().unwrap();
    assert_eq!(flusher.delta_ids.len(), 1);
    let mut reader = open(flusher, 2);
    assert_eq!(*get(&mut reader, "key", 2999), 0);
    assert_eq!(*get(&mut reader, "key", 0), 0);
    assert_eq!(*get(&mut reader, "key", 2998), 2998);
}

#[test]
fn two_large_entries_share_a_block() {
    let mut writer = create::<u32, Vec<u8>>(1);
    set(&mut writer, "key", 1, vec![1; 10000]);
    set(&mut writer, "key", 2, vec![2; 10000]);
    assert_eq!(writer.sparse_index.len(), 2);
    let mut reader = open(writer.commit().unwrap(), 1);
    assert_eq!(get(&mut reader, "key", 1), &vec![1; 10000]);
    assert_eq!(get(&mut reader, "key", 2), &vec![2; 10000]);
}

#[test]
fn given_ids_name_the_deltas() {
    let mut writer = ArrowBlockfileWriter::<u32, Vec<u8>>::with_initial_block(
        1,
        BlockManager::new(),
        SparseIndexManager::new(),
        BlockDelta::new(100),
    );
    writer.set_with_ids("key", 1, vec![1; 5000], 101, 102).unwrap();
    assert_eq!(writer.sparse_index.blocks[0].block, 100);
    writer.set_with_ids("key", 2, vec![2; 5000], 101, 102).unwrap();
    writer.set_with_ids("key", 3, vec![3; 5000], 101, 102).unwrap();
    assert_eq!(writer.sparse_index.len(), 1);
    writer.set_with_ids("key", 4, vec![4; 5000], 101, 102).unwrap();
    assert_eq!(writer.sparse_index.len(), 2);
    assert_eq!(writer.sparse_index.blocks[0].block, 100);
    assert_eq!(writer.sparse_index.blocks[1].block, 102);
    // The first entry takes less than half of the limit, and the first two take more.
    assert_eq!(writer.block_deltas[&100].entries.items.len(), 1);
    assert_eq!(writer.block_deltas[&102].entries.items.len(), 3);
    let mut writer = fork(writer.commit().unwrap(), 1, 2);
    writer.set_with_ids("key", 1, vec![0; 1], 103, 104).unwrap();
    assert_eq!(writer.sparse_index.blocks[0].block, 103);
    assert_eq!(writer.sparse_index.blocks[1].block, 102);
}

#[test]
fn fresh_ids_are_random_uuids() {
    let manager = BlockManager::<u32, u32>::new();
    let a = manager.create().id;
    let b = manager.create().id;
    assert_ne!(a, b);
    for id in [a, b] {
        assert_eq!((id >> 76) & 0xf, 4);
        assert_eq!((id >> 62) & 0x3, 2);
    }
}

#[test]
fn an_absent_block_is_reported() {
    let mut writer = create::<u32, u32>(1);
    set(&mut writer, "key", 1, 10);
    let flusher = writer.commit().unwrap();
    let block_id = flusher.sparse_index.blocks[0].block;
    let block = flusher.block_manager.get(&block_id).unwrap().duplicate();
    let index = flusher.sparse_index.fork(1);

    let mut reader = ArrowBlockfileReader::new(1, BlockManager::new(), index.fork(1));
    assert_eq!(reader.block_to_load("key", &1), Some(block_id));
    assert_eq!(reader.lookup("key", &1), Err(BlockfileError::BlockNotFound));
    assert!(reader.get_block(block_id).is_none());
    reader.supply_block(block.duplicate());
    assert_eq!(reader.block_to_load("key", &1), None);
    assert_eq!(*get(&mut reader, "key", 1), 10);
    assert_eq!(reader.loaded_blocks.len(), 1);
    assert_eq!(reader.get_block(block_id).unwrap().id, block_id);
    assert_eq!(reader.lookup("key", &2), Err(BlockfileError::KeyNotFound));

    let mut writer = ArrowBlockfileWriter::from_sparse_index(
        2,
        BlockManager::new(),
        SparseIndexManager::new(),
        index.fork(2),
    );
    assert_eq!(writer.write_status("key", &1, &0), WriteStatus::NeedsBlock(block_id));
    writer.supply_block(block);
    set(&mut writer, "key", 1, 11);
    let mut reader = open(writer.commit().unwrap(), 2);
    assert_eq!(*get(&mut reader, "key", 1), 11);
}

#[test]
fn an_empty_stored_block_cannot_be_forked() {
    let writer = create::<u32, u32>(1);
    let block_id = writer.sparse_index.blocks[0].block;
    let writer = fork(writer.commit().unwrap(), 1, 2);
    assert_eq!(writer.write_status("key", &1, &0), WriteStatus::EmptyBlock(block_id));
}

#[test]
fn an_entry_larger_than_a_block_is_refused() {
    let writer = create::<String, Vec<u8>>(1);
    let key = "a".to_string();
    assert_eq!(writer.write_status("key", &key, &vec![0; 16064]), WriteStatus::Ready);
    assert_eq!(writer.write_status("key", &key, &vec![0; 16065]), WriteStatus::TooLarge);
}

#[test]
fn a_block_stays_within_its_limit_in_place() {
    let mut writer = create::<u32, u32>(1);
    let mut i = 0;
    while writer.sparse_index.len() == 1 {
        set(&mut writer, "key", i, i);
        i += 1;
    }
    // 1088 entries take 64 * (51 + 69 + 68 + 68) = 16384 bytes, and one more splits the block.
    assert_eq!(i, 1088 + 1);
}

#[test]
fn large_entries_spread_over_blocks() {
    let mut writer = create::<u32, Vec<u8>>(1);
    for k in 1..=6 {
        set(&mut writer, "key", k, vec![k as u8; 10000]);
    }
    assert_eq!(writer.sparse_index.len(), 6);
    for delta in writer.block_deltas.values() {
        assert!(delta.entries.items.len() <= 2);
    }
    let mut reader = open(writer.commit().unwrap(), 1);
    for k in 1..=6 {
        assert_eq!(get(&mut reader, "key", k), &vec![k as u8; 10000]);
    }
}

#[test]
fn a_loaded_block_stays_loaded() {
    let mut writer = create::<u32, u32>(1);
    for i in 0..3000 {
        set(&mut writer, "key", i, i);
    }
    let mut reader = open(writer.commit().unwrap(), 1);
    assert_eq!(reader.loaded_blocks.len(), 0);
    assert_eq!(*get(&mut reader, "key", 0), 0);
    assert_eq!(reader.loaded_blocks.len(), 1);
    let first = reader.sparse_index.blocks[0].block;
    assert!(reader.loaded_blocks.contains_key(&first));
    assert_eq!(*get(&mut reader, "key", 2999), 2999);
    assert_eq!(reader.loaded_blocks.len(), 2);
    assert_eq!(*get(&mut reader, "key", 1), 1);
    assert_eq!(reader.lookup("key", &5000), Err(BlockfileError::KeyNotFound));
    assert_eq!(reader.loaded_blocks.len(), 2);
    assert!(reader.loaded_blocks.contains_key(&first));
}

#[test]
fn a_block_is_copied_at_the_first_write_to_it() {
    let mut writer = create::<u32, u32>(1);
    for i in 0..3000 {
        set(&mut writer, "key", i, i);
    }
    let mut writer = fork(writer.commit().unwrap(), 1, 2);
    let source = writer.sparse_index.blocks[0].block;
    set(&mut writer, "key", 0, 1);
    let copy = writer.sparse_index.blocks[0].block;
    assert_ne!(copy, source);
    assert!(writer.sparse_index.blocks.iter().all(|e| e.block != source));
    set(&mut writer, "key", 1, 2);
    assert_eq!(writer.sparse_index.blocks[0].block, copy);
    assert_eq!(writer.block_deltas.len(), 1);
}

#[test]
fn a_new_file_commits_exactly_its_blocks() {
    let mut writer = create::<u32, u32>(1);
    for i in 0..3000 {
        set(&mut writer, "key", i, i);
    }
    let flusher = writer.commit().unwrap();
    assert_eq!(flusher.delta_ids.len(), flusher.sparse_index.len());
    for entry in &flusher.sparse_index.blocks {
        assert!(flusher.delta_ids.contains(&entry.block));
    }
}

#[test]
fn a_split_at_the_start_leaves_an_empty_delta_outside_the_index() {
    let mut writer = create::<u32, Vec<u8>>(1);
    set(&mut writer, "key", 10, vec![10; 10]);
    for k in [20, 30, 40] {
        set(&mut writer, "key", k, vec![k as u8; 16000]);
    }
    // The blocks hold the keys 10, then 20, then 30 and 40.
    assert_eq!(writer.sparse_index.len(), 3);
    assert_eq!(writer.block_deltas.len(), 3);
    let second = writer.sparse_index.blocks[1].block;
    set(&mut writer, "key", 25, vec![25; 16000]);
    assert_eq!(writer.sparse_index.len(), 3);
    assert_ne!(writer.sparse_index.blocks[1].block, second);
    assert_eq!(writer.block_deltas.len(), 4);
    assert_eq!(writer.block_deltas[&second].entries.items.len(), 0);
    let mut reader = open(writer.commit().unwrap(), 1);
    assert_eq!(get(&mut reader, "key", 10), &vec![10; 10]);
    for k in [20u32, 25, 30, 40] {
        assert_eq!(get(&mut reader, "key", k), &vec![k as u8; 16000]);
    }
}

#[test]
fn writes_after_a_misplaced_one_are_found_and_keep_the_index_whole() {
    let mut writer = create::<u32, u32>(1);
    let mut i = 1;
    while writer.block_deltas.values().all(|d| d.can_add("key", &5, &0)) {
        set(&mut writer, "key", 10 * i, i);
        i += 1;
    }
    set(&mut writer, "key", 5, 55);
    assert_eq!(writer.sparse_index.len(), 2);
    set(&mut writer, "key", 6, 66);
    for j in i..i + 3000 {
        set(&mut writer, "key", 10 * j, j);
    }
    assert!(writer.sparse_index.len() > 2);
    assert!(writer.sparse_index.is_valid());
    for id in writer.block_deltas.keys() {
        assert!(writer.sparse_index.blocks.iter().any(|e| e.block == *id));
    }
    let mut reader = open(writer.commit().unwrap(), 1);
    assert_eq!(reader.lookup("key", &5), Err(BlockfileError::KeyNotFound));
    assert_eq!(*get(&mut reader, "key", 6), 66);
    for j in 1..i + 3000 {
        assert_eq!(*get(&mut reader, "key", 10 * j), j);
    }
}

#[test]
fn a_copy_under_the_id_of_its_source_is_not_copied_again() {
    let mut writer = ArrowBlockfileWriter::<u32, u32>::with_initial_block(
        1,
        BlockManager::new(),
        SparseIndexManager::new(),
        BlockDelta::new(100),
    );
    writer.set_with_ids("key", 1, 10, 101, 102).unwrap();
    let mut writer = fork(writer.commit().unwrap(), 1, 2);
    writer.set_with_ids("key", 2, 20, 100, 102).unwrap();
    assert_eq!(writer.sparse_index.blocks[0].block, 100);
    assert_eq!(writer.block_deltas[&100].entries.items.len(), 2);
    writer.set_with_ids("key", 3, 30, 103, 104).unwrap();
    assert_eq!(writer.sparse_index.len(), 1);
    assert_eq!(writer.sparse_index.blocks[0].block, 100);
    assert_eq!(writer.block_deltas[&100].entries.items.len(), 3);
}

#[test]
fn blocks_are_loaded_on_demand() {
    let mut writer = create::<u32, u32>(1);
    for i in 0..3000 {
        set(&mut writer, "key", i, i);
    }
    let flusher = writer.commit().unwrap();
    let index = flusher.sparse_index_manager.get(&1).unwrap().fork(2);
    let all = flusher.block_manager;
    let mut writer = ArrowBlockfileWriter::from_sparse_index(
        2,
        BlockManager::new(),
        SparseIndexManager::new(),
        index,
    );
    for i in [0u32, 2999, 1, 1500] {
        if let WriteStatus::NeedsBlock(id) = writer.write_status("key", &i, &(i + 7)) {
            writer.supply_block(all.get(&id).unwrap().duplicate());
        }
        set(&mut writer, "key", i, i + 7);
    }
    let flusher = writer.commit().unwrap();
    let mut reader = ArrowBlockfileReader::new(2, flusher.block_manager, flusher.sparse_index);
    for i in 0..3000u32 {
        if let Some(id) = reader.block_to_load("key", &i) {
            reader.supply_block(all.get(&id).unwrap().duplicate());
        }
        let written = [0, 2999, 1, 1500].contains(&i);
        assert_eq!(*get(&mut reader, "key", i), if written { i + 7 } else { i });
    }
}

#[test]
fn a_duplicate_goes_on_by_itself() {
    let mut writer = create::<u32, u32>(1);
    for i in 0..3000 {
        set(&mut writer, "key", i, i);
    }
    let mut writer = fork(writer.commit().unwrap(), 1, 2);
    set(&mut writer, "key", 0, 10);
    let copy = writer.duplicate();
    set(&mut writer, "key", 0, 20);
    assert_eq!(copy.id(), 2);
    let mut reader = open(copy.commit().unwrap(), 2);
    assert_eq!(*get(&mut reader, "key", 0), 10);
    assert_eq!(*get(&mut reader, "key", 2999), 2999);
    let flusher = writer.commit().unwrap();
    assert!(flusher.sparse_index_manager.get(&1).is_some());
    let mut reader = open(flusher, 2);
    assert_eq!(*get(&mut reader, "key", 0), 20);
}

#[test]
fn damaged_managers_are_told() {
    let mut writer = create::<u32, u32>(1);
    set(&mut writer, "key", 1, 1);
    set(&mut writer, "key", 2, 2);
    let mut flusher = writer.commit().unwrap();
    assert!(flusher.block_manager.is_wf());
    assert!(flusher.sparse_index_manager.is_wf());
    let id = flusher.sparse_index.blocks[0].block;
    flusher.block_manager.blocks.get_mut(&id).unwrap().entries.items.swap(0, 1);
    assert!(!flusher.block_manager.is_wf());
    flusher.sparse_index_manager.indexes.get_mut(&1).unwrap().blocks.clear();
    assert!(!flusher.sparse_index_manager.is_wf());
}
