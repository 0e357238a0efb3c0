use espikey::key::InternalKey;
use espikey::table::{unpack_block, Block, BlockBuilder, BlockHandle, Footer};
use espikey::{serialize_to_sstable, table_get, MemTable, Status, ValueItem};

#[test]
fn test_memtable() {
    let mut memtable = MemTable::default();
    memtable.set(b"key1", b"value1");
    memtable.set(b"key2", b"value2");
    memtable.set(b"key0", b"value");
    memtable.set(b"key0", b"value0");
    memtable.delete(b"key1");

    assert_eq!(memtable.get(b"key0"), Some(b"value0".as_slice()));
    assert_eq!(memtable.get(b"key1"), None);
    assert_eq!(memtable.entry_count(), 3);

    let kvs = memtable.iter();
    assert_eq!(
        kvs,
        vec![
            (b"key0".as_slice(), ValueItem::Value(b"value0".as_slice())),
            (b"key1".as_slice(), ValueItem::Deletion),
            (b"key2".as_slice(), ValueItem::Value(b"value2".as_slice())),
        ]
    );
}

fn read_stored(table: &[u8], handle: &BlockHandle) -> Vec<u8> {
    let start = handle.offset as usize;
    let end = start + handle.size as usize + 5;
    unpack_block(&table[start..end]).unwrap().to_vec()
}

#[test]
fn test_serialize_memtable() {
    let mut memtable = MemTable::default();
    memtable.set(b"key1", b"value1");
    memtable.set(b"key2", b"value2");
    memtable.set(b"key0", b"value0");
    memtable.delete(b"key1");

    let mut buf = Vec::new();
    assert!(serialize_to_sstable(&mut buf, memtable).is_ok());

    // footer -> index block -> data block
    let footer = Footer::decode_from(&buf[buf.len() - 48..]).unwrap();
    assert_eq!(&buf[buf.len() - 8..], &0xdb4775248b80fb57u64.to_le_bytes());
    let meta = read_stored(&buf, &footer.metaindex_handle);
    assert!(Block::new(&meta).unwrap().iter().next().is_none());
    let index = read_stored(&buf, &footer.index_handle);
    let mut index_iter = Block::new(&index).unwrap().iter();
    let (_, handle_bytes) = index_iter.next().unwrap();
    assert!(index_iter.next().is_none());
    let (handle, _) = BlockHandle::decode_from(handle_bytes).unwrap();
    let data = read_stored(&buf, &handle);
    let mut entries = Block::new(&data).unwrap().iter();
    let mut got = Vec::new();
    while let Some((key, value)) = entries.next() {
        let ikey = InternalKey::decode_from(&key);
        let item = match ikey.value_type_code() {
            Some(0) => ValueItem::Deletion,
            _ => ValueItem::Value(value.to_vec()),
        };
        got.push((ikey.user_key().unwrap().to_vec(), item));
    }
    assert_eq!(
        got,
        vec![
            (b"key0".to_vec(), ValueItem::Value(b"value0".to_vec())),
            (b"key1".to_vec(), ValueItem::Deletion),
            (b"key2".to_vec(), ValueItem::Value(b"value2".to_vec())),
        ]
    );

    assert_eq!(table_get(&buf, b"key0"), Ok(Some(ValueItem::Value(b"value0".to_vec()))));
    assert_eq!(table_get(&buf, b"key1"), Ok(Some(ValueItem::Deletion)));
    assert_eq!(table_get(&buf, b"key2"), Ok(Some(ValueItem::Value(b"value2".to_vec()))));
    assert_eq!(table_get(&buf, b"key3"), Ok(None));
    assert_eq!(table_get(&buf, b"key"), Ok(None));
}

#[test]
fn table_lookup_errors_and_empty_table() {
    let mut buf = Vec::new();
    assert!(serialize_to_sstable(&mut buf, MemTable::new()).is_ok());
    assert_eq!(table_get(&buf, b"a"), Ok(None));
    assert_eq!(table_get(&buf[..40], b"a"), Err(Status::Corruption));
    // past every key of the index, the data block is not read
    let mut bad = buf.clone();
    bad[0] ^= 0xff;
    assert_eq!(table_get(&bad, b"a"), Ok(None));

    let mut memtable = MemTable::new();
    memtable.set(b"a", b"1");
    let mut buf = Vec::new();
    assert!(serialize_to_sstable(&mut buf, memtable).is_ok());
    assert_eq!(table_get(&buf, b"b"), Ok(None));
    let mut bad = buf.clone();
    bad[0] ^= 0xff;
    assert_eq!(table_get(&bad, b"a"), Err(Status::Corruption));
}

#[test]
fn table_holds_many_keys() {
    let mut memtable = MemTable::new();
    for i in 0..300u32 {
        memtable.set(format!("k{:05}", i).as_bytes(), format!("v{}", i * 3).as_bytes());
    }
    memtable.delete(b"k00007");
    let mut buf = Vec::new();
    assert!(serialize_to_sstable(&mut buf, memtable).is_ok());
    for i in 0..300u32 {
        let got = table_get(&buf, format!("k{:05}", i).as_bytes()).unwrap();
        if i == 7 {
            assert_eq!(got, Some(ValueItem::Deletion));
        } else {
            assert_eq!(got, Some(ValueItem::Value(format!("v{}", i * 3).into_bytes())));
        }
    }
}

#[test]
fn test_block_builder() {
    let restart_interval = 2;
    let mut block_builder = BlockBuilder::new(restart_interval);
    block_builder.add(b"key1", b"value1");
    block_builder.add(b"key2", b"value2");
    block_builder.add(b"key0", b"value0");

    let block = block_builder.finish();
    let restart_offset = 1 /* varint32 bytes */ * 3 /* three field */ * restart_interval as u8
        + b"key1value1".len() as u8
        + b"2value2".len() as u8;

    assert_eq!(
        block,
        vec![
            0, 4, 6, b'k', b'e', b'y', b'1', b'v', b'a', b'l', b'u', b'e', b'1',
            3, 1, 6, b'2', b'v', b'a', b'l', b'u', b'e', b'2',
            0, 4, 6, b'k', b'e', b'y', b'0', b'v', b'a', b'l', b'u', b'e', b'0',
            0, 0, 0, 0, restart_offset, 0, 0, 0, 2, 0, 0, 0
        ]
    );
}

#[test]
fn overwrite_keeps_one_entry() {
    let mut memtable = MemTable::new();
    memtable.set(b"k", b"v1");
    memtable.set(b"k", b"v2");
    assert_eq!(memtable.get(b"k"), Some(b"v2".as_slice()));
    assert_eq!(memtable.entry_count(), 1);
    assert_eq!(memtable.get(b"missing"), None);
}

#[test]
fn memtable_iterates_in_byte_order() {
    let mut memtable = MemTable::new();
    for key in [&b"b"[..], b"", b"ab", b"a", b"\xff", b"a\x00"] {
        memtable.set(key, b"x");
    }
    let keys: Vec<&[u8]> = memtable.iter().into_iter().map(|(k, _)| k).collect();
    assert_eq!(keys, vec![&b""[..], b"a", b"a\x00", b"ab", b"b", b"\xff"]);
}

#[test]
fn block_round_trip_at_several_intervals() {
    let entries: Vec<(Vec<u8>, Vec<u8>)> = (0..40u32)
        .map(|i| (format!("key{:03}", i * 7).into_bytes(), format!("v{}", i).into_bytes()))
        .collect();
    for interval in [1usize, 2, 3, 16, 100] {
        let mut builder = BlockBuilder::new(interval);
        for (k, v) in &entries {
            builder.add(k, v);
        }
        let data = builder.finish();
        let block = Block::new(&data).unwrap();
        let mut iter = block.iter();
        let mut got = Vec::new();
        while let Some((k, v)) = iter.next() {
            got.push((k, v.to_vec()));
        }
        assert_eq!(got, entries);
    }
}

#[test]
fn empty_block_and_short_block() {
    let data = BlockBuilder::new(16).finish();
    assert_eq!(data, vec![0, 0, 0, 0, 1, 0, 0, 0]);
    let mut iter = Block::new(&data).unwrap().iter();
    assert!(iter.next().is_none());
    assert!(Block::new(&[1, 0, 0]).is_none());
    // more restarts counted than fit
    assert!(Block::new(&[0, 0, 0, 0, 9, 0, 0, 0]).is_none());
}

#[test]
fn lookup_tells_tombstone_from_absent() {
    let mut memtable = MemTable::new();
    memtable.set(b"a", b"1");
    memtable.delete(b"b");
    assert_eq!(memtable.lookup(b"a"), Some(ValueItem::Value(b"1".as_slice())));
    assert_eq!(memtable.lookup(b"b"), Some(ValueItem::Deletion));
    assert_eq!(memtable.lookup(b"c"), None);
}

#[test]
fn size_counts_key_value_and_trailer() {
    let mut memtable = MemTable::new();
    assert_eq!(memtable.total_bytes(), 0);
    memtable.set(b"k", b"vv");
    assert_eq!(memtable.total_bytes(), 1 + 2 + 8);
    memtable.set(b"k", b"vvvvv");
    assert_eq!(memtable.total_bytes(), 1 + 5 + 8);
    memtable.delete(b"k");
    assert_eq!(memtable.total_bytes(), 1 + 8);
    memtable.delete(b"gone");
    assert_eq!(memtable.total_bytes(), 1 + 8 + 4 + 8);
    assert_eq!(memtable.entry_count(), 2);
}
