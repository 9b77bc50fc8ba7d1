use kv_graph::checkpoint::CheckpointConfig;
use kv_graph::wal::WalError;

fn config() -> CheckpointConfig {
    CheckpointConfig {
        write_offset: 4096,
        read_offset: 17,
        writer_seg: b"./segments/wal.seg".to_vec(),
        reader_seg: b"./segments/old.seg".to_vec(),
    }
}

#[test]
fn persisted_image_layout() {
    let c = config();
    let img = c.persist();
    let mut expected = Vec::new();
    expected.extend_from_slice(&(4096u64).to_be_bytes());
    expected.extend_from_slice(&(17u64).to_be_bytes());
    expected.extend_from_slice(&(18u32).to_be_bytes());
    expected.extend_from_slice(b"./segments/wal.seg");
    expected.extend_from_slice(&(18u32).to_be_bytes());
    expected.extend_from_slice(b"./segments/old.seg");
    assert_eq!(img, expected);
}

#[test]
fn load_gives_back_the_persisted_checkpoint() {
    let c = config();
    let mut img = c.persist();
    img.extend_from_slice(b"trailing bytes are ignored");
    let back = CheckpointConfig::load(&img).unwrap();
    assert_eq!(back.write_offset, 4096);
    assert_eq!(back.read_offset, 17);
    assert_eq!(back.writer_seg, c.writer_seg);
    assert_eq!(back.reader_seg, c.reader_seg);
}

#[test]
fn load_of_a_cut_image_fails() {
    let img = config().persist();
    for cut in [0, 8, 19, 20, 30, 41, img.len() - 1] {
        assert_eq!(CheckpointConfig::load(&img[..cut]).unwrap_err(), WalError::UnexpectedEof);
    }
    assert!(CheckpointConfig::load(&img).is_ok());
}

#[test]
fn fresh_checkpoint_starts_at_zero_on_one_segment() {
    let c = CheckpointConfig::fresh(b"./segments/wal.seg".to_vec());
    assert_eq!(c.write_offset, 0);
    assert_eq!(c.read_offset, 0);
    assert_eq!(c.writer_seg, b"./segments/wal.seg".to_vec());
    assert_eq!(c.reader_seg, b"./segments/wal.seg".to_vec());
}

#[test]
fn advance_read_moves_only_the_read_offset() {
    let mut c = config();
    c.advance_read(100);
    assert_eq!(c.read_offset, 117);
    assert_eq!(c.write_offset, 4096);
    assert_eq!(c.writer_seg, b"./segments/wal.seg".to_vec());
}

#[test]
fn empty_paths_round_trip() {
    let c = CheckpointConfig { write_offset: 0, read_offset: 0, writer_seg: vec![], reader_seg: vec![] };
    let img = c.persist();
    assert_eq!(img.len(), 24);
    let back = CheckpointConfig::load(&img).unwrap();
    assert!(back.writer_seg.is_empty() && back.reader_seg.is_empty());
}
