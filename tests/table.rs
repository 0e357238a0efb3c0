use espikey::table::{unpack_block, BlockHandle, BlockIterator, Footer, TABLE_MAGIC_NUMBER};
use espikey::Status;

fn footer_bytes(h1: (u64, u64), h2: (u64, u64)) -> Vec<u8> {
    let mut buf = Vec::new();
    BlockHandle { offset: h1.0, size: h1.1 }.encode_to(&mut buf);
    BlockHandle { offset: h2.0, size: h2.1 }.encode_to(&mut buf);
    buf.resize(40, 0);
    buf.extend_from_slice(&TABLE_MAGIC_NUMBER.to_le_bytes());
    buf
}

#[test]
fn block_handle_round_trip() {
    let mut buf = Vec::new();
    BlockHandle { offset: 300, size: 5 }.encode_to(&mut buf);
    assert_eq!(buf, vec![0xac, 0x02, 5]);
    assert_eq!(
        BlockHandle::decode_from(&buf),
        Ok((BlockHandle { offset: 300, size: 5 }, 3))
    );
    assert_eq!(BlockHandle::decode_from(&[0x80]), Err(Status::Corruption));
}

#[test]
fn footer_decodes_both_handles() {
    let bytes = footer_bytes((1, 2), (1 << 40, 4096));
    assert_eq!(bytes.len(), 48);
    let footer = Footer::decode_from(&bytes).unwrap();
    assert_eq!(footer.metaindex_handle, BlockHandle { offset: 1, size: 2 });
    assert_eq!(footer.index_handle, BlockHandle { offset: 1 << 40, size: 4096 });
}

#[test]
fn footer_errors() {
    let mut bytes = footer_bytes((1, 2), (3, 4));
    assert_eq!(Footer::decode_from(&bytes[..47]).err(), Some(Status::Corruption));
    bytes[47] ^= 0xff;
    assert_eq!(Footer::decode_from(&bytes).err(), Some(Status::Corruption));
    let mut bad = vec![0xffu8; 40];
    bad.extend_from_slice(&TABLE_MAGIC_NUMBER.to_le_bytes());
    assert_eq!(Footer::decode_from(&bad).err(), Some(Status::Corruption));
}

fn stored(block: &[u8], code: u8) -> Vec<u8> {
    let mut raw = block.to_vec();
    raw.push(code);
    let crc = crc32c::crc32c(&raw);
    raw.extend_from_slice(&crc.to_le_bytes());
    raw
}

#[test]
fn stored_block_checks() {
    let block = b"some block bytes";
    assert_eq!(unpack_block(&stored(block, 0)), Ok(&block[..]));
    assert_eq!(unpack_block(&stored(block, 1)), Err(Status::NotSupported));
    assert_eq!(unpack_block(&stored(block, 2)), Err(Status::Corruption));
    let mut bad = stored(block, 0);
    bad[0] ^= 1;
    assert_eq!(unpack_block(&bad), Err(Status::Corruption));
    assert_eq!(unpack_block(&[0, 0, 0, 0]), Err(Status::Corruption));
}

#[test]
fn block_iterator_bounds_and_restarts() {
    // one entry "k" -> "v", restart array [0], count 1
    let data = vec![0, 1, 1, b'k', b'v', 0, 0, 0, 0, 1, 0, 0, 0];
    assert!(BlockIterator::new(&data, 5, 3).is_none());
    let mut iter = BlockIterator::new(&data, 5, 1).unwrap();
    assert_eq!(iter.get_restart_point(0), 0);
    assert_eq!(iter.next(), Some((b"k".to_vec(), &b"v"[..])));
    assert_eq!(iter.next(), None);
    // an entry that shares more than the previous key has
    let data = vec![2, 1, 1, b'k', b'v', 0, 0, 0, 0, 1, 0, 0, 0];
    let mut iter = BlockIterator::new(&data, 5, 1).unwrap();
    assert_eq!(iter.next(), None);
}
