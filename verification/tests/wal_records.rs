use kv_graph::be::{push_u32_be, push_u64_be, read_u32_be, read_u64_be};
use kv_graph::wal::{decode_segment, Mutation, WalError, WalWriter};

fn mutation(bucket: u32, key: &[u8], value: &[u8]) -> Mutation {
    Mutation {
        bucket,
        key_len: key.len() as u32,
        val_len: value.len() as u32,
        key: key.to_vec(),
        value: value.to_vec(),
    }
}

fn expected_record(m: &Mutation) -> Vec<u8> {
    let mut buf = Vec::new();
    buf.extend_from_slice(&m.bucket.to_be_bytes());
    buf.extend_from_slice(&m.key_len.to_be_bytes());
    buf.extend_from_slice(&m.val_len.to_be_bytes());
    buf.extend_from_slice(&m.key);
    buf.extend_from_slice(&m.value);
    let mut hasher = crc32fast::Hasher::new();
    hasher.update(&buf);
    buf.extend_from_slice(&hasher.finalize().to_be_bytes());
    buf
}

#[test]
fn big_endian_integers_round_trip() {
    let mut buf = Vec::new();
    push_u32_be(&mut buf, 0x0102_0304);
    push_u64_be(&mut buf, 0x1122_3344_5566_7788);
    assert_eq!(buf, vec![1, 2, 3, 4, 0x11, 0x22, 0x33, 0x44, 0x55, 0x66, 0x77, 0x88]);
    assert_eq!(read_u32_be(&buf, 0), 0x0102_0304);
    assert_eq!(read_u64_be(&buf, 4), 0x1122_3344_5566_7788);
}

#[test]
fn record_layout_matches_header_payload_and_checksum() {
    let m = mutation(7, b"user123:watched", b"movie:10");
    let rec = m.encode();
    assert_eq!(rec, expected_record(&m));
    assert_eq!(rec.len(), 12 + 15 + 8 + 4);
    assert_eq!(&rec[0..4], &[0, 0, 0, 7]);
    assert_eq!(&rec[4..8], &[0, 0, 0, 15]);
    assert_eq!(&rec[8..12], &[0, 0, 0, 8]);
    assert_eq!(&rec[12..27], b"user123:watched");
    assert_eq!(&rec[27..35], b"movie:10");
    let crc = crc32fast::hash(&rec[..35]);
    assert_eq!(&rec[35..], &crc.to_be_bytes());
}

#[test]
fn checksum_of_a_known_input() {
    let m = mutation(0, b"", b"");
    let rec = m.encode();
    // CRC-32 of twelve zero bytes.
    assert_eq!(&rec[12..], &0x7BD5C66Fu32.to_be_bytes()[..]);
}

#[test]
fn segment_reads_back_what_was_written() {
    let ms = vec![mutation(1, b"a", b"x"), mutation(2, b"bb", b""), mutation(3, b"", b"zzz")];
    let mut seg = Vec::new();
    for m in &ms {
        seg.extend_from_slice(&m.encode());
    }
    let (back, consumed) = decode_segment(&seg).unwrap();
    assert_eq!(consumed, seg.len());
    assert_eq!(back.len(), 3);
    for (a, b) in back.iter().zip(ms.iter()) {
        assert_eq!(a.bucket, b.bucket);
        assert_eq!(a.key_len, b.key_len);
        assert_eq!(a.val_len, b.val_len);
        assert_eq!(a.key, b.key);
        assert_eq!(a.value, b.value);
    }
}

#[test]
fn partial_header_at_the_end_is_left_unconsumed() {
    let m = mutation(9, b"k", b"v");
    let mut seg = m.encode();
    let len = seg.len();
    seg.extend_from_slice(&[0, 0, 0, 1, 0]);
    let (back, consumed) = decode_segment(&seg).unwrap();
    assert_eq!(back.len(), 1);
    assert_eq!(consumed, len);
}

#[test]
fn empty_segment_reads_nothing() {
    let (back, consumed) = decode_segment(&[]).unwrap();
    assert!(back.is_empty());
    assert_eq!(consumed, 0);
    let (back, consumed) = decode_segment(&[1, 2, 3, 4, 5, 6, 7, 8, 9, 10, 11]).unwrap();
    assert!(back.is_empty());
    assert_eq!(consumed, 0);
}

#[test]
fn truncated_record_body_is_an_error() {
    let m = mutation(4, b"key", b"value");
    let rec = m.encode();
    let cut = &rec[..rec.len() - 1];
    assert_eq!(decode_segment(cut).unwrap_err(), WalError::UnexpectedEof);
    let cut = &rec[..12];
    assert_eq!(decode_segment(cut).unwrap_err(), WalError::UnexpectedEof);
}

#[test]
fn checksum_is_not_checked_when_reading() {
    let m = mutation(4, b"key", b"value");
    let mut rec = m.encode();
    let last = rec.len() - 1;
    rec[last] ^= 0xff;
    let (back, consumed) = decode_segment(&rec).unwrap();
    assert_eq!(back.len(), 1);
    assert_eq!(consumed, rec.len());
}

#[test]
fn writer_places_records_back_to_back() {
    let mut w = WalWriter::new(0);
    let a = mutation(1, b"a", b"1");
    let b = mutation(2, b"bb", b"22");
    let pa = w.write(&a);
    assert_eq!(pa.offset, 0);
    assert_eq!(pa.bytes, expected_record(&a));
    assert_eq!(w.write_offset(), pa.bytes.len());
    let pb = w.write(&b);
    assert_eq!(pb.offset, pa.bytes.len());
    assert_eq!(w.write_offset(), pa.bytes.len() + pb.bytes.len());
}

#[test]
fn writer_starts_at_its_lsn_and_wraps() {
    let mut w = WalWriter::new(100);
    let p = w.write(&mutation(0, b"", b""));
    assert_eq!(p.offset, 100);
    assert_eq!(w.write_offset(), 116);
    let mut w = WalWriter::new(usize::MAX - 5);
    let p = w.write(&mutation(0, b"", b""));
    assert_eq!(p.offset, usize::MAX - 5);
    assert_eq!(w.write_offset(), 10);
}

#[test]
fn reading_resumes_after_what_was_consumed() {
    let first = mutation(1, b"a", b"x");
    let second = mutation(2, b"b", b"y");
    let mut seg = first.encode();
    // The next record is still being written: only part of its header is there.
    let rec2 = second.encode();
    seg.extend_from_slice(&rec2[..6]);
    let (ms, consumed) = decode_segment(&seg).unwrap();
    assert_eq!(ms.len(), 1);
    assert_eq!(ms[0].key, b"a".to_vec());
    // The write completes; the next read starts where the last one stopped.
    seg.extend_from_slice(&rec2[6..]);
    let (ms, consumed2) = decode_segment(&seg[consumed..]).unwrap();
    assert_eq!(ms.len(), 1);
    assert_eq!(ms[0].key, b"b".to_vec());
    assert_eq!(ms[0].value, b"y".to_vec());
    assert_eq!(consumed + consumed2, seg.len());
}

/// CRC-32 computed bit by bit, as the library's specification states it.
fn bitwise_crc32(data: &[u8]) -> u32 {
    let mut c: u32 = 0xFFFF_FFFF;
    for &b in data {
        c ^= b as u32;
        for _ in 0..8 {
            c = if c & 1 == 1 { (c >> 1) ^ 0xEDB8_8320 } else { c >> 1 };
        }
    }
    c ^ 0xFFFF_FFFF
}

#[test]
fn record_checksum_is_bitwise_crc32_of_the_body() {
    assert_eq!(bitwise_crc32(b"123456789"), 0xCBF4_3926);
    for (bucket, key, value) in [(0u32, &b""[..], &b""[..]), (77, b"user:130:watched", b"movie:42"), (u32::MAX, b"\xff\x00", b"\x80")] {
        let m = mutation(bucket, key, value);
        let rec = m.encode();
        let body_len = rec.len() - 4;
        assert_eq!(&rec[body_len..], &bitwise_crc32(&rec[..body_len]).to_be_bytes());
    }
}
