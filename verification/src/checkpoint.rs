//! The checkpoint: how far the log has been written and how far it has been
//! flushed, with the segments the writer and the reader use.

use vstd::prelude::*;
use vstd::slice::slice_to_vec;

use crate::be::{
    lemma_u32_be_roundtrip, lemma_u64_be_roundtrip, push_bytes, push_u32_be, push_u64_be, read_u32_be,
    read_u64_be, u32_be, u32_of_be, u64_be, u64_of_be,
};
use crate::wal::WalError;

verus! {

/// Progress of the log. Segment paths are held as the bytes of their text.
#[derive(Debug)]
pub struct CheckpointConfig {
    pub write_offset: usize,
    pub read_offset: usize,
    pub writer_seg: Vec<u8>,
    pub reader_seg: Vec<u8>,
}

/// The mathematical content of a `CheckpointConfig`.
pub struct CheckpointView {
    pub write_offset: usize,
    pub read_offset: usize,
    pub writer_seg: Seq<u8>,
    pub reader_seg: Seq<u8>,
}

impl View for CheckpointConfig {
    type V = CheckpointView;

    open spec fn view(&self) -> CheckpointView {
        CheckpointView {
            write_offset: self.write_offset,
            read_offset: self.read_offset,
            writer_seg: self.writer_seg@,
            reader_seg: self.reader_seg@,
        }
    }
}

/// The persisted image of a checkpoint: both offsets as big-endian `u64`s,
/// then each segment path as a big-endian `u32` length (its low 32 bits)
/// followed by its bytes.
pub open spec fn checkpoint_bytes(c: CheckpointView) -> Seq<u8> {
    u64_be(c.write_offset as u64) + u64_be(c.read_offset as u64) + u32_be(
        c.writer_seg.len() as u32,
    ) + c.writer_seg + u32_be(c.reader_seg.len() as u32) + c.reader_seg
}

/// What loading a persisted image yields: `None` when the image ends before
/// the offsets, a length, or a path does; bytes after the reader's path are
/// ignored.
pub open spec fn parse_checkpoint(bytes: Seq<u8>) -> Option<CheckpointView> {
    if bytes.len() < 20 {
        None
    } else {
        let wl = u32_of_be(bytes.subrange(16, 20));
        if bytes.len() < 24 + wl {
            None
        } else {
            let rl = u32_of_be(bytes.subrange(20 + wl, 24 + wl));
            if bytes.len() < 24 + wl + rl {
                None
            } else {
                Some(
                    CheckpointView {
                        write_offset: u64_of_be(bytes.subrange(0, 8)) as usize,
                        read_offset: u64_of_be(bytes.subrange(8, 16)) as usize,
                        writer_seg: bytes.subrange(20, 20 + wl),
                        reader_seg: bytes.subrange(24 + wl, 24 + wl + rl),
                    },
                )
            }
        }
    }
}

/// The layout of a persisted image, field by field: the write offset and
/// then the read offset as big-endian `u64`s, then the writer's path and the
/// reader's path, each after its length as a big-endian `u32`.
pub open spec fn checkpoint_layout(r: Seq<u8>, c: CheckpointView) -> bool {
    let wl = c.writer_seg.len() as int;
    let rl = c.reader_seg.len() as int;
    &&& r.len() == 24 + wl + rl
    &&& r.subrange(0, 8) == u64_be(c.write_offset as u64)
    &&& r.subrange(8, 16) == u64_be(c.read_offset as u64)
    &&& r.subrange(16, 20) == u32_be(c.writer_seg.len() as u32)
    &&& r.subrange(20, 20 + wl) == c.writer_seg
    &&& r.subrange(20 + wl, 24 + wl) == u32_be(c.reader_seg.len() as u32)
    &&& r.subrange(24 + wl, 24 + wl + rl) == c.reader_seg
}

/// Every persisted image is laid out field by field as the checkpoint says.
pub proof fn lemma_checkpoint_layout(c: CheckpointView)
    ensures
        checkpoint_layout(checkpoint_bytes(c), c),
{
    let r = checkpoint_bytes(c);
    let wl = c.writer_seg.len() as int;
    let rl = c.reader_seg.len() as int;
    assert(r.subrange(0, 8) =~= u64_be(c.write_offset as u64));
    assert(r.subrange(8, 16) =~= u64_be(c.read_offset as u64));
    assert(r.subrange(16, 20) =~= u32_be(c.writer_seg.len() as u32));
    assert(r.subrange(20, 20 + wl) =~= c.writer_seg);
    assert(r.subrange(20 + wl, 24 + wl) =~= u32_be(c.reader_seg.len() as u32));
    assert(r.subrange(24 + wl, 24 + wl + rl) =~= c.reader_seg);
}

/// What loading yields, stated on the image: the offsets are the big-endian
/// `u64`s of its first sixteen bytes in order (write, then read), and each
/// path is the bytes after its big-endian `u32` length.
pub proof fn lemma_parse_checkpoint_fields(bytes: Seq<u8>)
    requires
        parse_checkpoint(bytes) is Some,
    ensures
        ({
            let c = parse_checkpoint(bytes).unwrap();
            let wl = u32_of_be(bytes.subrange(16, 20)) as int;
            let rl = u32_of_be(bytes.subrange(20 + wl, 24 + wl)) as int;
            &&& 24 + wl + rl <= bytes.len()
            &&& c.write_offset == u64_of_be(bytes.subrange(0, 8)) as usize
            &&& c.read_offset == u64_of_be(bytes.subrange(8, 16)) as usize
            &&& c.writer_seg == bytes.subrange(20, 20 + wl)
            &&& c.reader_seg == bytes.subrange(24 + wl, 24 + wl + rl)
        }),
{
}

impl CheckpointConfig {
    /// The checkpoint of a log that has not been written or read yet: both
    /// offsets are zero and both sides use `segment`.
    pub fn fresh(segment: Vec<u8>) -> (c: CheckpointConfig)
        ensures
            c.write_offset == 0,
            c.read_offset == 0,
            c.writer_seg@ == segment@,
            c.reader_seg@ == segment@,
    {
        let reader_seg = slice_to_vec(segment.as_slice());
        CheckpointConfig { write_offset: 0, read_offset: 0, writer_seg: segment, reader_seg }
    }

    /// The image that `persist` stores for this checkpoint.
    pub fn persist(&self) -> (r: Vec<u8>)
        ensures
            r@ == checkpoint_bytes(self@),
            checkpoint_layout(r@, self@),
    {
        proof {
            lemma_checkpoint_layout(self@);
        }
        let mut buf: Vec<u8> = Vec::new();
        push_u64_be(&mut buf, self.write_offset as u64);
        push_u64_be(&mut buf, self.read_offset as u64);
        #[verifier::truncate]
        let wl = self.writer_seg.len() as u32;
        push_u32_be(&mut buf, wl);
        push_bytes(&mut buf, self.writer_seg.as_slice());
        #[verifier::truncate]
        let rl = self.reader_seg.len() as u32;
        push_u32_be(&mut buf, rl);
        push_bytes(&mut buf, self.reader_seg.as_slice());
        assert(buf@ =~= checkpoint_bytes(self@));
        buf
    }

    /// Loads a checkpoint from a persisted image.
    pub fn load(bytes: &[u8]) -> (r: Result<CheckpointConfig, WalError>)
        ensures
            match r {
                Ok(c) => {
                    &&& parse_checkpoint(bytes@) == Some(c@)
                    &&& c.write_offset == u64_of_be(bytes@.subrange(0, 8)) as usize
                    &&& c.read_offset == u64_of_be(bytes@.subrange(8, 16)) as usize
                },
                Err(e) => e == WalError::UnexpectedEof && parse_checkpoint(bytes@) is None,
            },
    {
        let n = bytes.len();
        if n < 20 {
            return Err(WalError::UnexpectedEof);
        }
        let write_offset = read_u64_be(bytes, 0);
        let read_offset = read_u64_be(bytes, 8);
        let wl = read_u32_be(bytes, 16) as usize;
        if n - 20 < wl || n - 20 - wl < 4 {
            return Err(WalError::UnexpectedEof);
        }
        let writer_seg = slice_to_vec(&bytes[20..20 + wl]);
        let rl = read_u32_be(bytes, 20 + wl) as usize;
        if n - 24 - wl < rl {
            return Err(WalError::UnexpectedEof);
        }
        let reader_seg = slice_to_vec(&bytes[24 + wl..24 + wl + rl]);
        #[verifier::truncate]
        let write_offset = write_offset as usize;
        #[verifier::truncate]
        let read_offset = read_offset as usize;
        let c = CheckpointConfig { write_offset, read_offset, writer_seg, reader_seg };
        assert(c@ == parse_checkpoint(bytes@).unwrap());
        Ok(c)
    }

    /// Moves the read offset past `consumed` bytes that have been flushed.
    pub fn advance_read(&mut self, consumed: usize)
        requires
            old(self).read_offset + consumed <= usize::MAX,
        ensures
            final(self).read_offset == old(self).read_offset + consumed,
            final(self).write_offset == old(self).write_offset,
            final(self).writer_seg@ == old(self).writer_seg@,
            final(self).reader_seg@ == old(self).reader_seg@,
    {
        self.read_offset = self.read_offset + consumed;
    }
}

/// Loading what was persisted gives the checkpoint back, whatever follows
/// the image, as long as each segment path is shorter than 4 GiB.
pub proof fn lemma_load_of_persisted(c: CheckpointView, after: Seq<u8>)
    requires
        c.writer_seg.len() <= u32::MAX,
        c.reader_seg.len() <= u32::MAX,
    ensures
        parse_checkpoint(checkpoint_bytes(c) + after) == Some(c),
{
    let bytes = checkpoint_bytes(c) + after;
    let wl = c.writer_seg.len() as int;
    let rl = c.reader_seg.len() as int;
    lemma_u64_be_roundtrip(c.write_offset as u64);
    lemma_u64_be_roundtrip(c.read_offset as u64);
    lemma_u32_be_roundtrip(wl as u32);
    lemma_u32_be_roundtrip(rl as u32);
    assert(bytes.subrange(0, 8) =~= u64_be(c.write_offset as u64));
    assert(bytes.subrange(8, 16) =~= u64_be(c.read_offset as u64));
    assert(bytes.subrange(16, 20) =~= u32_be(wl as u32));
    assert(bytes.subrange(20, 20 + wl) =~= c.writer_seg);
    assert(bytes.subrange(20 + wl, 24 + wl) =~= u32_be(rl as u32));
    assert(bytes.subrange(24 + wl, 24 + wl + rl) =~= c.reader_seg);
}

} // verus!
