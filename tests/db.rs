use espikey::key::InternalKey;
use espikey::log::Reader;
use espikey::version_edit::{FileMetaData, VersionEdit};
use espikey::write_batch::WriteBatch;
use espikey::{MemTable, Status, ValueItem, DB};

fn put(db: &mut DB, log: &mut Vec<u8>, key: &[u8], value: &[u8]) {
    let w = db.put(key, value, true);
    assert!(w.sync);
    log.extend_from_slice(&w.record);
    db.commit().unwrap();
}

fn delete(db: &mut DB, log: &mut Vec<u8>, key: &[u8]) {
    let w = db.delete(key, false);
    log.extend_from_slice(&w.record);
    db.commit().unwrap();
}

fn replay(log: Vec<u8>) -> (MemTable, u64) {
    let mut reader = Reader::new(log);
    let mut mem = MemTable::new();
    let mut last = 0;
    while let Some(record) = reader.read().unwrap() {
        let batch = WriteBatch::from(record).unwrap();
        batch.apply_to(&mut mem).unwrap();
        last = batch.get_sequence() + batch.get_count() as u64 - 1;
    }
    (mem, last)
}

#[test]
fn single_put_then_get() {
    let mut db = DB::new();
    let mut log = Vec::new();
    put(&mut db, &mut log, b"key1", b"value1");
    assert_eq!(db.get(b"key1"), Ok(b"value1".to_vec()));
    assert_eq!(db.get(b"missing"), Err(Status::NotFound));
}

#[test]
fn delete_hides_older_put_also_after_replay() {
    let mut db = DB::new();
    let mut log = Vec::new();
    put(&mut db, &mut log, b"k", b"v1");
    delete(&mut db, &mut log, b"k");
    assert_eq!(db.get(b"k"), Err(Status::NotFound));
    let (mem, last) = replay(log);
    assert_eq!(mem.get(b"k"), None);
    assert_eq!(last, 2);
}

#[test]
fn overwrite_returns_newest() {
    let mut db = DB::new();
    let mut log = Vec::new();
    put(&mut db, &mut log, b"k", b"v1");
    put(&mut db, &mut log, b"k", b"v2");
    assert_eq!(db.get(b"k"), Ok(b"v2".to_vec()));
    let (mem, _) = replay(log);
    assert_eq!(mem.entry_count(), 1);
}

#[test]
fn each_write_is_one_record_with_its_sequence() {
    let mut db = DB::new();
    let mut log = Vec::new();
    put(&mut db, &mut log, b"a", b"1");
    put(&mut db, &mut log, b"b", b"2");
    let mut reader = Reader::new(log);
    let first = WriteBatch::from(reader.read().unwrap().unwrap()).unwrap();
    let second = WriteBatch::from(reader.read().unwrap().unwrap()).unwrap();
    assert_eq!((first.get_sequence(), first.get_count()), (1, 1));
    assert_eq!((second.get_sequence(), second.get_count()), (2, 1));
    assert_eq!(reader.read(), Ok(None));
}

#[test]
fn uncommitted_write_is_not_visible() {
    let mut db = DB::new();
    let w = db.put(b"k", b"v", false);
    assert!(!w.record.is_empty());
    assert_eq!(db.get(b"k"), Err(Status::NotFound));
    db.commit().unwrap();
    assert_eq!(db.get(b"k"), Ok(b"v".to_vec()));
}

#[test]
fn batch_survives_the_log() {
    let mut batch = WriteBatch::new();
    batch.put(b"a", b"1");
    batch.put(b"b", b"2");
    batch.delete(b"c");
    batch.set_sequence(10);
    let mut writer = espikey::log::Writer::new();
    let mut log = Vec::new();
    writer.append(batch.get_contents(), &mut log);
    let (mem, last) = replay(log);
    assert_eq!(last, 12);
    assert_eq!(mem.get(b"a"), Some(b"1".as_slice()));
    assert_eq!(mem.get(b"b"), Some(b"2".as_slice()));
    assert_eq!(
        mem.iter(),
        vec![
            (b"a".as_slice(), ValueItem::Value(b"1".as_slice())),
            (b"b".as_slice(), ValueItem::Value(b"2".as_slice())),
            (b"c".as_slice(), ValueItem::Deletion),
        ]
    );
}

fn put_varint(buf: &mut Vec<u8>, v: u64) {
    espikey::coding::put_varint64(buf, v);
}

fn put_lp(buf: &mut Vec<u8>, s: &[u8]) {
    espikey::coding::put_length_prefixed_slice(buf, s);
}

#[test]
fn version_edit_decodes_every_tag() {
    let small = InternalKey::new(b"a", 5, 1);
    let large = InternalKey::new(b"z", 9, 0);
    let mut src = Vec::new();
    put_varint(&mut src, 1);
    put_lp(&mut src, b"leveldb.BytewiseComparator");
    for (tag, v) in [(2u64, 7u64), (3, 8), (4, 300), (9, 6)] {
        put_varint(&mut src, tag);
        put_varint(&mut src, v);
    }
    put_varint(&mut src, 5);
    put_varint(&mut src, 2);
    put_lp(&mut src, small.get_contents());
    for _ in 0..2 {
        put_varint(&mut src, 6);
        put_varint(&mut src, 1);
        put_varint(&mut src, 44);
    }
    put_varint(&mut src, 7);
    put_varint(&mut src, 3);
    put_varint(&mut src, 45);
    put_varint(&mut src, 1 << 20);
    put_lp(&mut src, small.get_contents());
    put_lp(&mut src, large.get_contents());

    let edit = VersionEdit::decode_from(&src).unwrap();
    assert_eq!(edit.comparator, Some(b"leveldb.BytewiseComparator".to_vec()));
    assert_eq!(edit.log_number, Some(7));
    assert_eq!(edit.next_file_number, Some(8));
    assert_eq!(edit.last_sequence, Some(300));
    assert_eq!(edit.prev_log_number, Some(6));
    assert_eq!(edit.compact_pointers.len(), 1);
    assert_eq!(edit.compact_pointers[0].0, 2);
    assert_eq!(edit.compact_pointers[0].1.get_contents(), small.get_contents());
    assert_eq!(edit.deleted_files, vec![(1, 44)]);
    assert_eq!(edit.new_files.len(), 1);
    let (level, file) = &edit.new_files[0];
    assert_eq!((*level, file.number, file.file_size), (3, 45, 1 << 20));
    assert_eq!(file.largest.user_key(), Some(&b"z"[..]));
    assert_eq!(file.largest.sequence(), Some(9));
    assert_eq!(file.largest.value_type_code(), Some(0));
    assert_eq!(file.smallest.sequence(), Some(5));
}

#[test]
fn version_edit_errors() {
    // unknown tag
    assert_eq!(VersionEdit::decode_from(&[8, 1]).err(), Some(Status::Corruption));
    // level out of range
    assert_eq!(VersionEdit::decode_from(&[6, 7, 1]).err(), Some(Status::Corruption));
    // truncated number
    assert_eq!(VersionEdit::decode_from(&[2, 0x80]).err(), Some(Status::Corruption));
    // the empty edit
    let edit = VersionEdit::decode_from(&[]).unwrap();
    assert_eq!(edit.log_number, None);
    assert!(edit.new_files.is_empty());
}

#[test]
fn internal_key_layout() {
    let key = InternalKey::new(b"user", 0x0102, 1);
    assert_eq!(key.get_contents(), &[b'u', b's', b'e', b'r', 1, 2, 1, 0, 0, 0, 0, 0][..]);
    assert_eq!(key.user_key(), Some(&b"user"[..]));
    let short = InternalKey::decode_from(b"abc");
    assert_eq!(short.user_key(), None);
    assert_eq!(short.sequence(), None);
}

#[test]
fn manifest_replays_edits() {
    let mut first = VersionEdit::new();
    first.comparator = Some(b"leveldb.BytewiseComparator".to_vec());
    first.next_file_number = Some(2);
    first.log_number = Some(1);
    let mut second = VersionEdit::new();
    second.last_sequence = Some(99);
    second.deleted_files.push((0, 4));
    second.compact_pointers.push((1, InternalKey::new(b"m", 3, 1)));
    second.new_files.push((
        1,
        FileMetaData {
            number: 5,
            file_size: 4096,
            smallest: InternalKey::new(b"a", 1, 1),
            largest: InternalKey::new(b"q", 40, 0),
        },
    ));

    let mut writer = espikey::log::Writer::new();
    let mut manifest = Vec::new();
    for edit in [&first, &second] {
        let mut record = Vec::new();
        edit.encode_to(&mut record);
        writer.append(&record, &mut manifest);
    }

    let mut reader = Reader::new(manifest);
    let a = VersionEdit::decode_from(&reader.read().unwrap().unwrap()).unwrap();
    let b = VersionEdit::decode_from(&reader.read().unwrap().unwrap()).unwrap();
    assert_eq!(reader.read(), Ok(None));

    assert_eq!(a.comparator, first.comparator);
    assert_eq!((a.log_number, a.next_file_number, a.last_sequence), (Some(1), Some(2), None));
    assert_eq!(b.last_sequence, Some(99));
    assert_eq!(b.deleted_files, vec![(0, 4)]);
    assert_eq!(b.compact_pointers[0].1.get_contents(), second.compact_pointers[0].1.get_contents());
    let (level, file) = &b.new_files[0];
    assert_eq!((*level, file.number, file.file_size), (1, 5, 4096));
    assert_eq!(file.smallest.get_contents(), second.new_files[0].1.smallest.get_contents());
    assert_eq!(file.largest.get_contents(), second.new_files[0].1.largest.get_contents());
}

#[test]
fn version_edit_encoding_layout() {
    let mut edit = VersionEdit::new();
    edit.log_number = Some(300);
    edit.deleted_files.push((2, 7));
    let mut out = Vec::new();
    edit.encode_to(&mut out);
    assert_eq!(out, vec![2, 0xac, 0x02, 6, 2, 7]);
}

#[test]
fn recover_replays_the_log() {
    let mut db = DB::new();
    let mut log = Vec::new();
    put(&mut db, &mut log, b"k", b"v1");
    put(&mut db, &mut log, b"other", b"x");
    delete(&mut db, &mut log, b"k");
    let reopened = DB::recover(log.clone()).unwrap().0;
    assert_eq!(reopened.get(b"k"), Err(Status::NotFound));
    assert_eq!(reopened.get(b"other"), Ok(b"x".to_vec()));
    assert_eq!(reopened.sequence(), 3);

    // a torn last record is dropped, the rest kept
    let mut torn = log.clone();
    torn.truncate(log.len() - 3);
    let (reopened, end) = DB::recover(torn).unwrap();
    assert!(end < log.len() - 3);
    assert_eq!(reopened.get(b"k"), Ok(b"v1".to_vec()));
    assert_eq!(reopened.sequence(), 2);

    // trailing zeros are tolerated, and the intact log ends before them
    let mut padded = log.clone();
    padded.extend_from_slice(&[0u8; 20]);
    assert_eq!(DB::recover(padded.clone()).unwrap().1, log.len());
    let mut padded = log.clone();
    padded.extend_from_slice(&[0u8; 20]);
    assert_eq!(DB::recover(padded).unwrap().0.sequence(), 3);

    // corruption in the only block is a corrupt tail: skipped, nothing follows
    let mut bad = log.clone();
    bad[8] ^= 0xff;
    assert_eq!(DB::recover(bad).unwrap().0.sequence(), 0);

    // corruption followed by a valid record in a later block is fatal
    let mut db = DB::new();
    let mut log = Vec::new();
    put(&mut db, &mut log, b"big", &vec![5u8; 40000]);
    put(&mut db, &mut log, b"after", b"y");
    assert_eq!(DB::recover(log.clone()).unwrap().0.get(b"after"), Ok(b"y".to_vec()));
    log[8] ^= 0xff;
    assert_eq!(DB::recover(log).err(), Some(Status::Corruption));
}
