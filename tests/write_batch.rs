use espikey::write_batch::{WriteBatch, TAG_DELETION, TAG_VALUE, WRITE_BATCH_HEADER_SIZE};
use espikey::{MemTable, Status, ValueType};

#[test]
fn test_write_batch() {
    let mut batch = WriteBatch::new();

    batch.put(b"key1", b"value1");
    batch.put(b"key2", b"value2");
    batch.delete(b"key1");
    batch.put(b"key3", b"value3");
    batch.delete(b"key0");
    batch.set_sequence(1);

    assert_eq!(batch.get_sequence(), 1);
    assert_eq!(batch.get_count(), 5);

    assert_eq!(
        batch.get_contents()[WRITE_BATCH_HEADER_SIZE..],
        vec![
            TAG_VALUE, 4, b'k', b'e', b'y', b'1', 6, b'v', b'a', b'l', b'u', b'e', b'1',
            TAG_VALUE, 4, b'k', b'e', b'y', b'2', 6, b'v', b'a', b'l', b'u', b'e', b'2',
            TAG_DELETION, 4, b'k', b'e', b'y', b'1',
            TAG_VALUE, 4, b'k', b'e', b'y', b'3', 6, b'v', b'a', b'l', b'u', b'e', b'3',
            TAG_DELETION, 4, b'k', b'e', b'y', b'0',
        ]
    );

    let mut batch = WriteBatch::new();
    let long_key = "a".repeat(127).into_bytes();
    let long_value = "b".repeat(128).into_bytes();
    let long_del_key = "c".repeat(128).into_bytes();
    batch.put(&long_key, &long_value);
    batch.delete(&long_del_key);
    let rep = batch.get_contents();

    let mut offset = 12;
    // type(put)
    assert_eq!(rep[offset], TAG_VALUE);
    offset += 1;

    // key
    assert_eq!(rep[offset], 0x7f);
    offset += 1;
    assert_eq!(rep[offset..offset + long_key.len()], long_key);
    offset += long_key.len();

    // value
    assert_eq!(rep[offset..offset + 2], vec![0x80, 0x01]);
    offset += 2;
    assert_eq!(rep[offset..offset + long_value.len()], long_value);
    offset += long_value.len();

    // type(delete)
    assert_eq!(rep[offset], TAG_DELETION);
    offset += 1;
    // key
    assert_eq!(rep[offset..offset + 2], vec![0x80, 0x01]);
    offset += 2;
    assert_eq!(rep[offset..], long_del_key);
    offset += long_del_key.len();

    assert_eq!(offset, rep.len());
}

#[test]
fn test_write_batch_iter() {
    let mut batch = WriteBatch::new();
    batch.put(b"key1", b"value1");
    batch.put(b"key2", b"value2");
    batch.delete(b"key1");
    batch.put(b"key3", b"value3");
    batch.delete(b"key0");

    let mut iter = batch.iter();
    assert_eq!(iter.next(), Some(Ok(ValueType::value(b"key1", b"value1"))));
    assert_eq!(iter.next(), Some(Ok(ValueType::value(b"key2", b"value2"))));
    assert_eq!(iter.next(), Some(Ok(ValueType::deletion(b"key1"))));
    assert_eq!(iter.next(), Some(Ok(ValueType::value(b"key3", b"value3"))));
    assert_eq!(iter.next(), Some(Ok(ValueType::deletion(b"key0"))));
    assert_eq!(iter.next(), None);
}

#[test]
fn batch_record_layout() {
    let mut batch = WriteBatch::new();
    batch.put(b"a", b"1");
    batch.put(b"b", b"2");
    batch.delete(b"c");
    batch.set_sequence(10);
    assert_eq!(
        batch.get_contents(),
        &[
            10, 0, 0, 0, 0, 0, 0, 0, 3, 0, 0, 0, 1, 1, b'a', 1, b'1', 1, 1, b'b', 1, b'2', 0, 1,
            b'c'
        ][..]
    );
}

#[test]
fn empty_batch_and_clear() {
    let mut batch = WriteBatch::new();
    assert_eq!(batch.get_contents(), &[0u8; 12][..]);
    batch.put(b"k", b"v");
    batch.set_sequence(7);
    batch.clear();
    assert_eq!(batch.get_contents(), &[0u8; 12][..]);
    assert_eq!(batch.get_count(), 0);
    batch.set_count(9);
    assert_eq!(batch.get_count(), 9);
}

#[test]
fn batch_from_short_bytes_is_corrupt() {
    assert_eq!(WriteBatch::from(vec![0; 11]).err(), Some(Status::Corruption));
    assert!(WriteBatch::from(vec![0; 12]).is_ok());
}

#[test]
fn count_mismatch_is_corruption_and_applies_nothing() {
    // two operations counted, one present
    let mut bytes = vec![0u8; 12];
    bytes[8] = 2;
    bytes.extend_from_slice(&[1, 1, b'a', 1, b'1']);
    let batch = WriteBatch::from(bytes).unwrap();
    let mut iter = batch.iter();
    assert_eq!(iter.next(), Some(Ok(ValueType::value(b"a", b"1"))));
    assert_eq!(iter.next(), Some(Err(Status::Corruption)));
    assert_eq!(iter.next(), None);
    let mut mem = MemTable::new();
    assert_eq!(batch.apply_to(&mut mem), Err(Status::Corruption));
    assert_eq!(mem.entry_count(), 0);

    // no operation counted, one present
    let mut bytes = vec![0u8; 12];
    bytes.extend_from_slice(&[0, 1, b'a']);
    let batch = WriteBatch::from(bytes).unwrap();
    let mut iter = batch.iter();
    assert_eq!(iter.next(), Some(Err(Status::Corruption)));

    // an unknown tag
    let mut bytes = vec![0u8; 12];
    bytes[8] = 1;
    bytes.extend_from_slice(&[7, 1, b'a']);
    let batch = WriteBatch::from(bytes).unwrap();
    assert_eq!(batch.apply_to(&mut mem), Err(Status::Corruption));
}

#[test]
fn apply_to_replays_in_order() {
    let mut batch = WriteBatch::new();
    batch.put(b"a", b"1");
    batch.put(b"b", b"2");
    batch.delete(b"a");
    batch.put(b"b", b"3");
    let mut mem = MemTable::new();
    assert_eq!(batch.apply_to(&mut mem), Ok(()));
    assert_eq!(mem.get(b"a"), None);
    assert_eq!(mem.get(b"b"), Some(b"3".as_slice()));
    assert_eq!(mem.entry_count(), 2);
}
