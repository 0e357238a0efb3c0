use espikey::log::{Reader, Writer, BLOCK_SIZE, HEADER_SIZE};
use espikey::Status;

fn write_all(payloads: &[Vec<u8>]) -> Vec<u8> {
    let mut writer = Writer::new();
    let mut log = Vec::new();
    for p in payloads {
        writer.append(p, &mut log);
    }
    log
}

#[test]
fn test_writer() {
    let a = [1; 1000];
    let b = [2; 97270];
    let c = [3; 8000];
    let mut writer = Writer::new();
    let mut file = Vec::new();
    writer.append(&a, &mut file);
    writer.append(&b, &mut file);
    writer.append(&c, &mut file);

    let file_size = file.len() as u64;
    assert_eq!(file_size / BLOCK_SIZE as u64, 3);
}

#[test]
fn test_reader() {
    let mut writer = Writer::new();
    let mut file = Vec::new();
    writer.append(b"hello world", &mut file);

    let mut reader = Reader::new(file);
    assert_eq!(reader.read(), Ok(Some(b"hello world".to_vec())));
}

#[test]
fn test_wal() {
    let table = [1, HEADER_SIZE - 1, BLOCK_SIZE - 1, BLOCK_SIZE * 2 - 1];

    let mut writer = Writer::new();
    let mut file = Vec::new();
    for size in table {
        for d in [0, 1, 2] {
            let i = size + d;
            let value = i % 0xff;
            let message = vec![value as u8; i];
            writer.append(&message, &mut file);
        }
    }

    let mut reader = Reader::new(file);
    for size in table {
        for d in [0, 1, 2] {
            let i = size + d;
            let value = i % 0xff;
            let message = vec![value as u8; i];
            assert_eq!(reader.read(), Ok(Some(message)));
        }
    }
    assert_eq!(reader.read(), Ok(None));
}

#[test]
fn fragmentation_fills_three_blocks() {
    let log = write_all(&[vec![1; 1000], vec![2; 97270]]);
    // the third record starts after the six-byte tail of the third block is padded
    let mut writer = Writer::new();
    let mut file = Vec::new();
    writer.append(&[1; 1000], &mut file);
    writer.append(&[2; 97270], &mut file);
    assert_eq!(file, log);
    assert_eq!(file.len(), 3 * BLOCK_SIZE - 6);
    writer.append(&[3; 8000], &mut file);
    assert_eq!(&file[3 * BLOCK_SIZE - 6..3 * BLOCK_SIZE], &[0u8; 6]);
    assert_eq!(file.len(), 3 * BLOCK_SIZE + HEADER_SIZE + 8000);
}

#[test]
fn empty_and_edge_sized_payloads_round_trip() {
    let mut payloads = Vec::new();
    for size in [0usize, 1, HEADER_SIZE - 1, BLOCK_SIZE - HEADER_SIZE - 1, BLOCK_SIZE - HEADER_SIZE,
        BLOCK_SIZE - HEADER_SIZE + 1, BLOCK_SIZE - 1, BLOCK_SIZE, 2 * BLOCK_SIZE + 1] {
        payloads.push((0..size).map(|i| (i % 251) as u8).collect::<Vec<u8>>());
    }
    let log = write_all(&payloads);
    let mut reader = Reader::new(log);
    for p in &payloads {
        assert_eq!(reader.read(), Ok(Some(p.clone())));
    }
    assert_eq!(reader.read(), Ok(None));
    assert_eq!(reader.read(), Ok(None));
}

#[test]
fn zero_suffix_is_never_a_record() {
    let payloads = vec![b"first".to_vec(), vec![9; 40000]];
    let mut log = write_all(&payloads);
    log.extend_from_slice(&vec![0u8; 100]);
    let mut reader = Reader::new(log);
    assert_eq!(reader.read(), Ok(Some(payloads[0].clone())));
    assert_eq!(reader.read(), Ok(Some(payloads[1].clone())));
    assert_eq!(reader.read(), Err(Status::Corruption));
}

#[test]
fn truncated_last_record_is_dropped() {
    let payloads = vec![b"keep".to_vec(), vec![5; 50000]];
    let log = write_all(&payloads);
    for cut in [1usize, 10, 20000, 40000] {
        let mut reader = Reader::new(log[..log.len() - cut].to_vec());
        assert_eq!(reader.read(), Ok(Some(payloads[0].clone())));
        assert_eq!(reader.read(), Ok(None));
    }
}

#[test]
fn bad_checksum_is_corruption() {
    let mut log = write_all(&[b"hello world".to_vec()]);
    let last = log.len() - 1;
    log[last] ^= 1;
    let mut reader = Reader::new(log);
    assert_eq!(reader.read(), Err(Status::Corruption));
    assert_eq!(reader.read(), Ok(None));
}

#[test]
fn checksum_covers_type_and_payload() {
    let log = write_all(&[b"abc".to_vec()]);
    let stored = u32::from_le_bytes([log[0], log[1], log[2], log[3]]);
    assert_eq!(stored, crc32c::crc32c(&[1, b'a', b'b', b'c']));
    assert_ne!(stored, crc32c::crc32c(b"abc"));
    assert_eq!(&log[4..7], &[3, 0, 1]);
}

#[test]
fn fragments_out_of_order_are_corruption() {
    // a middle fragment with no first fragment before it
    let mut frag = Vec::new();
    let payload = b"xy";
    let crc = crc32c::crc32c(&[3, b'x', b'y']);
    frag.extend_from_slice(&crc.to_le_bytes());
    frag.extend_from_slice(&[2, 0, 3]);
    frag.extend_from_slice(payload);
    let mut reader = Reader::new(frag);
    assert_eq!(reader.read(), Err(Status::Corruption));
}

#[test]
fn exactly_filled_block_moves_to_the_next() {
    let mut writer = Writer::new();
    let mut file = Vec::new();
    writer.append(&vec![7u8; BLOCK_SIZE - HEADER_SIZE], &mut file);
    assert_eq!(file.len(), BLOCK_SIZE);
    writer.append(b"next", &mut file);
    assert_eq!(file.len(), BLOCK_SIZE + HEADER_SIZE + 4);
    assert_eq!(file[BLOCK_SIZE + 6], 1);
    let mut reader = Reader::new(file);
    assert_eq!(reader.read(), Ok(Some(vec![7u8; BLOCK_SIZE - HEADER_SIZE])));
    assert_eq!(reader.read(), Ok(Some(b"next".to_vec())));
    assert_eq!(reader.read(), Ok(None));
}

#[test]
fn fragment_checksum_is_castagnoli() {
    let mut writer = Writer::new();
    let mut file = Vec::new();
    writer.append(b"123456789", &mut file);
    let stored = u32::from_le_bytes([file[0], file[1], file[2], file[3]]);
    let mut covered = vec![1u8];
    covered.extend_from_slice(b"123456789");
    assert_eq!(stored, crc32c::crc32c(&covered));
    assert_ne!(stored, crc32fast::hash(&covered));
    assert_eq!(crc32c::crc32c(b"123456789"), 0xe306_9283);
}
