//! The write-ahead log: the record format of a mutation, the writer that
//! places records one after another, the reader that decodes a segment, and
//! the checkpoint that remembers how far each side has come.

use vstd::prelude::*;
use vstd::slice::slice_to_vec;

use crate::be::{lemma_u32_be_roundtrip, push_bytes, push_u32_be, read_u32_be, u32_be, u32_of_be};

verus! {

/// The reflected CRC-32 (IEEE) polynomial.
pub const CRC32_POLY: u32 = 0xEDB8_8320;

/// `n` steps of the bitwise CRC-32 register: each shifts the register right
/// by one and, when the bit shifted out was set, XORs in the polynomial.
pub open spec fn crc32_shift(c: u32, n: nat) -> u32
    decreases n,
{
    if n == 0 {
        c
    } else {
        let next = if c & 1 == 1 {
            (c >> 1u32) ^ CRC32_POLY
        } else {
            c >> 1u32
        };
        crc32_shift(next, (n - 1) as nat)
    }
}

/// The CRC-32 register after feeding it the bytes of `data`, one byte at a
/// time: the byte is XORed into the low bits, then the register is shifted
/// eight times.
pub open spec fn crc32_update(c: u32, data: Seq<u8>) -> u32
    decreases data.len(),
{
    if data.len() == 0 {
        c
    } else {
        crc32_update(crc32_shift(c ^ (data[0] as u32), 8), data.drop_first())
    }
}

/// CRC-32 (IEEE) of `data`: the register starts at all ones, and the final
/// value is XORed with all ones.
pub open spec fn crc32_spec(data: Seq<u8>) -> u32 {
    crc32_update(0xFFFF_FFFF, data) ^ 0xFFFF_FFFF
}

/// Calls `crc32fast::hash`, which computes the CRC-32 (IEEE) checksum of
/// `data`; the contract claims that it is `crc32_spec` of the bytes.
#[verifier::external_body]
fn crc32(data: &[u8]) -> (r: u32)
    ensures
        r == crc32_spec(data@),
{
    crc32fast::hash(data)
}

/// One write to the store: a key and a value routed to a bucket.
#[derive(Debug)]
pub struct Mutation {
    pub bucket: u32,
    pub key_len: u32,
    pub val_len: u32,
    pub key: Vec<u8>,
    pub value: Vec<u8>,
}

/// The mathematical content of a `Mutation`.
pub struct MutationView {
    pub bucket: u32,
    pub key_len: u32,
    pub val_len: u32,
    pub key: Seq<u8>,
    pub value: Seq<u8>,
}

impl View for Mutation {
    type V = MutationView;

    open spec fn view(&self) -> MutationView {
        MutationView {
            bucket: self.bucket,
            key_len: self.key_len,
            val_len: self.val_len,
            key: self.key@,
            value: self.value@,
        }
    }
}

impl MutationView {
    /// The length fields agree with the key and the value.
    pub open spec fn well_formed(self) -> bool {
        &&& self.key_len == self.key.len()
        &&& self.val_len == self.value.len()
    }
}

/// The views of a sequence of mutations.
pub open spec fn views(ms: Seq<Mutation>) -> Seq<MutationView> {
    ms.map_values(|m: Mutation| m@)
}

/// Header and payload of a record: bucket, key length and value length as
/// big-endian `u32`s, then the key bytes, then the value bytes.
pub open spec fn record_body(m: MutationView) -> Seq<u8> {
    u32_be(m.bucket) + u32_be(m.key_len) + u32_be(m.val_len) + m.key + m.value
}

/// A full log record: the body followed by the big-endian CRC-32 of the body.
#[verifier::opaque]
pub open spec fn encode_record(m: MutationView) -> Seq<u8> {
    record_body(m) + u32_be(crc32_spec(record_body(m)))
}

/// The records of `ms`, one after another.
pub open spec fn encode_log(ms: Seq<MutationView>) -> Seq<u8>
    decreases ms.len(),
{
    if ms.len() == 0 {
        Seq::empty()
    } else {
        encode_record(ms.first()) + encode_log(ms.drop_first())
    }
}

/// Size of the fixed header of a record.
pub const HEADER_LEN: usize = 12;

/// Bytes taken by the record whose header starts `bytes` (the header must be
/// complete).
pub open spec fn framed_len(bytes: Seq<u8>) -> int {
    16 + u32_of_be(bytes.subrange(4, 8)) + u32_of_be(bytes.subrange(8, 12))
}

/// The mutation described by the record at the start of `bytes`.
pub open spec fn decode_record(bytes: Seq<u8>) -> MutationView {
    let kl = u32_of_be(bytes.subrange(4, 8));
    let vl = u32_of_be(bytes.subrange(8, 12));
    MutationView {
        bucket: u32_of_be(bytes.subrange(0, 4)),
        key_len: kl,
        val_len: vl,
        key: bytes.subrange(12, 12 + kl),
        value: bytes.subrange(12 + kl, 12 + kl + vl),
    }
}

/// What reading a segment from a position yields: records are decoded one
/// after another until fewer than a header's bytes remain; those last bytes
/// are left unconsumed. A record whose header is complete but whose key,
/// value or checksum runs past the end makes the whole read fail (`None`).
/// The checksum is skipped, not checked. On success the result holds the
/// mutations and the number of bytes consumed.
pub open spec fn read_log(bytes: Seq<u8>) -> Option<(Seq<MutationView>, nat)>
    decreases bytes.len(),
{
    if bytes.len() < 12 {
        Some((Seq::empty(), 0))
    } else if bytes.len() < framed_len(bytes) {
        None
    } else {
        let n = framed_len(bytes);
        match read_log(bytes.skip(n)) {
            None => None,
            Some((rest, c)) => Some((seq![decode_record(bytes)] + rest, (n + c) as nat)),
        }
    }
}

/// Appending a record to a log appends its encoding.
pub proof fn lemma_encode_log_push(ms: Seq<MutationView>, m: MutationView)
    ensures
        encode_log(ms.push(m)) == encode_log(ms) + encode_record(m),
    decreases ms.len(),
{
    if ms.len() == 0 {
        assert(ms.push(m).drop_first() =~= Seq::<MutationView>::empty());
        assert(ms.push(m).first() == m);
        assert(encode_log(ms.push(m).drop_first()) == Seq::<u8>::empty());
        assert(encode_log(ms) == Seq::<u8>::empty());
        assert(encode_log(ms.push(m)) =~= encode_log(ms) + encode_record(m));
    } else {
        lemma_encode_log_push(ms.drop_first(), m);
        assert(ms.push(m).drop_first() =~= ms.drop_first().push(m));
        assert(encode_log(ms.push(m)) =~= encode_log(ms) + encode_record(m));
    }
}

/// The length of a record is its header, key, value and checksum.
pub proof fn lemma_record_len(m: MutationView)
    ensures
        encode_record(m).len() == 16 + m.key.len() + m.value.len(),
{
    reveal(encode_record);
}

/// The layout of a record, field by field: the bucket, the key length and
/// the value length as big-endian `u32`s, then the key bytes, then the value
/// bytes, and last the big-endian CRC-32 of everything before it.
pub open spec fn record_layout(r: Seq<u8>, m: MutationView) -> bool {
    let kl = m.key.len() as int;
    let vl = m.value.len() as int;
    &&& r.len() == 16 + kl + vl
    &&& r.subrange(0, 4) == u32_be(m.bucket)
    &&& r.subrange(4, 8) == u32_be(m.key_len)
    &&& r.subrange(8, 12) == u32_be(m.val_len)
    &&& r.subrange(12, 12 + kl) == m.key
    &&& r.subrange(12 + kl, 12 + kl + vl) == m.value
    &&& r.subrange(12 + kl + vl, 16 + kl + vl) == u32_be(crc32_spec(r.subrange(0, 12 + kl + vl)))
}

/// Every record is laid out as its header, key, value and checksum say,
/// for every mutation (well-formed or not).
pub proof fn lemma_record_layout(m: MutationView)
    ensures
        record_layout(encode_record(m), m),
{
    reveal(encode_record);
    let r = encode_record(m);
    let kl = m.key.len() as int;
    let vl = m.value.len() as int;
    assert(r.subrange(0, 4) =~= u32_be(m.bucket));
    assert(r.subrange(4, 8) =~= u32_be(m.key_len));
    assert(r.subrange(8, 12) =~= u32_be(m.val_len));
    assert(r.subrange(12, 12 + kl) =~= m.key);
    assert(r.subrange(12 + kl, 12 + kl + vl) =~= m.value);
    assert(r.subrange(0, 12 + kl + vl) =~= record_body(m));
    assert(r.subrange(12 + kl + vl, 16 + kl + vl) =~= u32_be(crc32_spec(record_body(m))));
}

/// What a read yields of the record at the front of a segment, stated on the
/// bytes: the first mutation's bucket, key length and value length are the
/// big-endian `u32`s of the first twelve bytes, its key and value are the
/// bytes that follow, the record (with its four checksum bytes) fits in the
/// segment, and the rest of the read is the read of what comes after it.
pub proof fn lemma_read_log_front(bytes: Seq<u8>)
    requires
        read_log(bytes) matches Some((ms, _)) && ms.len() > 0,
    ensures
        ({
            let (ms, c) = read_log(bytes).unwrap();
            let m = ms[0];
            let n = 16 + m.key_len + m.val_len;
            &&& bytes.len() >= 12
            &&& m.bucket == u32_of_be(bytes.subrange(0, 4))
            &&& m.key_len == u32_of_be(bytes.subrange(4, 8))
            &&& m.val_len == u32_of_be(bytes.subrange(8, 12))
            &&& n <= bytes.len()
            &&& m.key == bytes.subrange(12, 12 + m.key_len)
            &&& m.value == bytes.subrange(12 + m.key_len, 12 + m.key_len + m.val_len)
            &&& n <= c
            &&& read_log(bytes.skip(n)) == Some((ms.drop_first(), (c - n) as nat))
        }),
{
    let (ms, c) = read_log(bytes).unwrap();
    let n = framed_len(bytes);
    let (rest, c2) = read_log(bytes.skip(n)).unwrap();
    assert(ms.drop_first() =~= rest);
}

/// A read stops only near the end: it consumes no more than the segment, and
/// leaves fewer bytes than a header unread.
pub proof fn lemma_read_log_consumes(bytes: Seq<u8>)
    requires
        read_log(bytes) is Some,
    ensures
        read_log(bytes).unwrap().1 <= bytes.len(),
        bytes.len() - read_log(bytes).unwrap().1 < 12,
        bytes.len() < 12 ==> read_log(bytes) == Some((Seq::<MutationView>::empty(), 0nat)),
    decreases bytes.len(),
{
    if bytes.len() >= 12 {
        let n = framed_len(bytes);
        lemma_read_log_consumes(bytes.skip(n));
    }
}

/// The record of a well-formed mutation, followed by anything, decodes as
/// that mutation and frames exactly the record.
proof fn lemma_decode_record_prefix(m: MutationView, after: Seq<u8>)
    requires
        m.well_formed(),
    ensures
        ({
            let bytes = encode_record(m) + after;
            &&& bytes.len() >= 16
            &&& framed_len(bytes) == encode_record(m).len()
            &&& decode_record(bytes) == m
            &&& bytes.skip(encode_record(m).len() as int) == after
        }),
{
    reveal(encode_record);
    let body = record_body(m);
    let bytes = encode_record(m) + after;
    lemma_u32_be_roundtrip(m.bucket);
    lemma_u32_be_roundtrip(m.key_len);
    lemma_u32_be_roundtrip(m.val_len);
    assert(bytes.subrange(0, 4) =~= u32_be(m.bucket));
    assert(bytes.subrange(4, 8) =~= u32_be(m.key_len));
    assert(bytes.subrange(8, 12) =~= u32_be(m.val_len));
    assert(bytes.subrange(12, 12 + m.key_len) =~= m.key);
    assert(bytes.subrange(12 + m.key_len, 12 + m.key_len + m.val_len) =~= m.value);
    assert(bytes.skip(encode_record(m).len() as int) =~= after);
}

/// Reading a segment gives back what was written to it: the records of
/// well-formed mutations, followed by fewer bytes than a header (say the
/// start of a record still being written), read back as exactly those
/// mutations, with every byte of the records consumed and the rest left.
pub proof fn lemma_read_log_of_encoded(ms: Seq<MutationView>, tail: Seq<u8>)
    requires
        forall|i: int| 0 <= i < ms.len() ==> (#[trigger] ms[i]).well_formed(),
        tail.len() < 12,
    ensures
        read_log(encode_log(ms) + tail) == Some((ms, encode_log(ms).len())),
    decreases ms.len(),
{
    if ms.len() == 0 {
        assert(encode_log(ms) + tail =~= tail);
        assert(ms =~= Seq::<MutationView>::empty());
    } else {
        let m = ms.first();
        let rest = ms.drop_first();
        assert(m.well_formed());
        assert forall|i: int| 0 <= i < rest.len() implies (#[trigger] rest[i]).well_formed() by {
            assert(rest[i] == ms[i + 1]);
        }
        lemma_read_log_of_encoded(rest, tail);
        let after = encode_log(rest) + tail;
        let bytes = encode_log(ms) + tail;
        assert(bytes =~= encode_record(m) + after);
        lemma_decode_record_prefix(m, after);
        let n = framed_len(bytes);
        assert(read_log(bytes) == Some((seq![m] + rest, (n + encode_log(rest).len()) as nat)));
        assert(seq![m] + rest =~= ms);
    }
}

/// Reading resumes where it stopped: when a read of `a` consumes all of it,
/// reading `a` followed by `b` gives what `a` gave followed by what `b` gives
/// on its own. So a reader that moves its offset past what it consumed sees
/// the later records, and only those, on its next read.
pub proof fn lemma_read_log_resumes(a: Seq<u8>, b: Seq<u8>)
    requires
        read_log(a) matches Some((_, c)) && c == a.len(),
    ensures
        read_log(a + b) == resume(read_log(a).unwrap().0, a.len(), read_log(b)),
    decreases a.len(),
{
    if a.len() == 0 {
        assert(a + b =~= b);
        match read_log(b) {
            None => {},
            Some((rest, c)) => {
                assert(read_log(a).unwrap().0 + rest =~= rest);
            },
        }
    } else {
        let n = framed_len(a);
        let ab = a + b;
        assert(a.len() >= 12);
        assert(ab.subrange(0, 4) =~= a.subrange(0, 4));
        assert(ab.subrange(4, 8) =~= a.subrange(4, 8));
        assert(ab.subrange(8, 12) =~= a.subrange(8, 12));
        assert(framed_len(ab) == n);
        assert(n <= a.len());
        assert(ab.subrange(12, 12 + u32_of_be(a.subrange(4, 8))) =~= a.subrange(12, 12 + u32_of_be(a.subrange(4, 8))));
        assert(ab.subrange(12 + u32_of_be(a.subrange(4, 8)), n - 4) =~= a.subrange(12 + u32_of_be(a.subrange(4, 8)), n - 4));
        assert(decode_record(ab) == decode_record(a));
        assert(ab.skip(n) =~= a.skip(n) + b);
        lemma_read_log_resumes(a.skip(n), b);
        let ms_a = read_log(a).unwrap().0;
        let ms_rest = read_log(a.skip(n)).unwrap().0;
        assert(ms_a == seq![decode_record(a)] + ms_rest);
        match read_log(b) {
            None => {},
            Some((rest, c)) => {
                assert(seq![decode_record(a)] + (ms_rest + rest) =~= ms_a + rest);
            },
        }
    }
}

/// Errors of decoding a log segment.
#[derive(Debug, PartialEq, Eq, Structural)]
pub enum WalError {
    /// A record's header is complete but its body or checksum is cut off.
    UnexpectedEof,
}

/// `read_log` of a suffix, with `acc` already read and `pos` bytes already
/// consumed before it.
pub open spec fn resume(acc: Seq<MutationView>, pos: nat, r: Option<(Seq<MutationView>, nat)>) -> Option<(Seq<MutationView>, nat)> {
    match r {
        None => None,
        Some((rest, c)) => Some((acc + rest, pos + c)),
    }
}

/// One step of reading: a complete record at `pos` is taken off the front.
proof fn lemma_read_step(bytes: Seq<u8>, pos: nat, acc: Seq<MutationView>)
    requires
        pos <= bytes.len(),
        bytes.len() - pos >= 12,
        bytes.len() - pos >= framed_len(bytes.skip(pos as int)),
    ensures
        ({
            let b = bytes.skip(pos as int);
            let n = framed_len(b);
            &&& n >= 16
            &&& resume(acc, pos, read_log(b)) == resume(acc.push(decode_record(b)), (pos + n) as nat, read_log(bytes.skip(pos + n)))
        }),
{
    let b = bytes.skip(pos as int);
    let n = framed_len(b);
    assert(b.skip(n) =~= bytes.skip(pos + n));
    match read_log(bytes.skip(pos + n)) {
        None => {},
        Some((rest, c)) => {
            assert(acc + (seq![decode_record(b)] + rest) =~= acc.push(decode_record(b)) + rest);
        },
    }
}

/// Decodes the records of a log segment from its bytes `tail`, taken from the
/// read position to the end of the segment. Records are read until fewer
/// than a header's bytes remain; the result holds the mutations and the
/// number of bytes consumed, which excludes those last bytes. A record whose
/// header is complete but whose body or checksum is cut off gives
/// `UnexpectedEof`. Checksums are skipped without being checked.
pub fn decode_segment(tail: &[u8]) -> (r: Result<(Vec<Mutation>, usize), WalError>)
    ensures
        match r {
            Ok((ms, consumed)) => {
                &&& read_log(tail@) == Some((views(ms@), consumed as nat))
                &&& consumed <= tail@.len()
                &&& tail@.len() - consumed < 12
                &&& forall|i: int| 0 <= i < ms@.len() ==> (#[trigger] ms@[i])@.well_formed()
            },
            Err(e) => e == WalError::UnexpectedEof && read_log(tail@) is None,
        },
{
    let n = tail.len();
    let mut out: Vec<Mutation> = Vec::new();
    let mut pos: usize = 0;
    assert(tail@.skip(0) =~= tail@);
    proof {
        match read_log(tail@) {
            None => {},
            Some((rest, c)) => {
                assert(views(out@) + rest =~= rest);
            },
        }
    }
    loop
        invariant
            n == tail@.len(),
            pos <= n,
            read_log(tail@) == resume(views(out@), pos as nat, read_log(tail@.skip(pos as int))),
            forall|i: int| 0 <= i < out@.len() ==> (#[trigger] out@[i])@.well_formed(),
        decreases n - pos,
    {
        let ghost b = tail@.skip(pos as int);
        let remaining = n - pos;
        if remaining < HEADER_LEN {
            assert(read_log(b) == Some((Seq::<MutationView>::empty(), 0nat)));
            assert(views(out@) + Seq::<MutationView>::empty() =~= views(out@));
            return Ok((out, pos));
        }
        let bucket = read_u32_be(tail, pos);
        let key_len = read_u32_be(tail, pos + 4);
        let val_len = read_u32_be(tail, pos + 8);
        assert(tail@.subrange(pos as int, pos + 4) =~= b.subrange(0, 4));
        assert(tail@.subrange(pos + 4, pos + 8) =~= b.subrange(4, 8));
        assert(tail@.subrange(pos + 8, pos + 12) =~= b.subrange(8, 12));
        let need: u64 = 16 + key_len as u64 + val_len as u64;
        if (remaining as u64) < need {
            assert(read_log(b) is None);
            return Err(WalError::UnexpectedEof);
        }
        let key_start = pos + 12;
        let key_end = key_start + key_len as usize;
        let val_end = key_end + val_len as usize;
        let key = slice_to_vec(&tail[key_start..key_end]);
        let value = slice_to_vec(&tail[key_end..val_end]);
        assert(key@ =~= b.subrange(12, 12 + key_len));
        assert(value@ =~= b.subrange(12 + key_len, 12 + key_len + val_len));
        let m = Mutation { bucket, key_len, val_len, key, value };
        assert(m@ == decode_record(b));
        proof {
            lemma_read_step(tail@, pos as nat, views(out@));
        }
        let ghost old_out = out@;
        out.push(m);
        assert(views(out@) =~= views(old_out).push(m@));
        pos = val_end + 4;
    }
}

impl Mutation {
    /// The log record of this mutation: bucket, key length and value length
    /// as big-endian `u32`s, the key, the value, then the big-endian CRC-32 of
    /// everything before it.
    pub fn encode(&self) -> (r: Vec<u8>)
        ensures
            r@ == encode_record(self@),
            record_layout(r@, self@),
    {
        proof {
            lemma_record_layout(self@);
        }
        let mut buf: Vec<u8> = Vec::new();
        push_u32_be(&mut buf, self.bucket);
        push_u32_be(&mut buf, self.key_len);
        push_u32_be(&mut buf, self.val_len);
        push_bytes(&mut buf, self.key.as_slice());
        push_bytes(&mut buf, self.value.as_slice());
        assert(buf@ =~= record_body(self@));
        let checksum = crc32(buf.as_slice());
        push_u32_be(&mut buf, checksum);
        proof {
            reveal(encode_record);
        }
        buf
    }
}


/// The append side of the log: the offset in the segment at which the next
/// record goes.
pub struct WalWriter {
    write_offset: usize,
}

/// Where a record goes and what it holds.
pub struct WalAppend {
    /// Offset in the segment of the record's first byte.
    pub offset: usize,
    /// The record.
    pub bytes: Vec<u8>,
}

impl View for WalWriter {
    type V = usize;

    closed spec fn view(&self) -> usize {
        self.write_offset
    }
}

impl WalWriter {
    /// A writer whose next record goes at offset `lsn`.
    pub fn new(lsn: usize) -> (w: WalWriter)
        ensures
            w@ == lsn,
    {
        WalWriter { write_offset: lsn }
    }

    /// The offset at which the next record goes.
    pub fn write_offset(&self) -> (r: usize)
        ensures
            r == self@,
    {
        self.write_offset
    }

    /// Reserves room for the record of `mutation`: the record goes at the
    /// current offset, and the offset moves past it (wrapping around at the
    /// end of `usize`, as an atomic fetch-and-add does). The caller writes the
    /// returned bytes at the returned offset.
    pub fn write(&mut self, mutation: &Mutation) -> (a: WalAppend)
        ensures
            a.offset == old(self)@,
            a.bytes@ == encode_record(mutation@),
            record_layout(a.bytes@, mutation@),
            final(self)@ == old(self)@.wrapping_add(a.bytes@.len() as usize),
    {
        let bytes = mutation.encode();
        let offset = self.write_offset;
        self.write_offset = offset.wrapping_add(bytes.len());
        WalAppend { offset, bytes }
    }
}


/// The writer's offset after the records of `ms` were reserved one after
/// another, starting from `lsn`, each step as `WalWriter::write` takes it.
pub open spec fn offset_after(lsn: usize, ms: Seq<MutationView>) -> usize
    decreases ms.len(),
{
    if ms.len() == 0 {
        lsn
    } else {
        offset_after(lsn, ms.drop_last()).wrapping_add(encode_record(ms.last()).len() as usize)
    }
}

/// Records written one after another lie back to back: as long as the
/// offsets do not wrap around, the writer ends past all of them, each record
/// goes right after the ones before it, and so the segment from `lsn` on is
/// the log of the writes, which reading gives back.
pub proof fn lemma_writes_back_to_back(lsn: usize, ms: Seq<MutationView>)
    requires
        lsn + encode_log(ms).len() <= usize::MAX,
    ensures
        offset_after(lsn, ms) == lsn + encode_log(ms).len(),
        forall|i: int|
            0 <= i <= ms.len() ==> #[trigger] offset_after(lsn, ms.take(i)) == lsn + encode_log(
                ms.take(i),
            ).len(),
    decreases ms.len(),
{
    if ms.len() > 0 {
        let init = ms.drop_last();
        lemma_encode_log_push(init, ms.last());
        assert(init.push(ms.last()) =~= ms);
        lemma_writes_back_to_back(lsn, init);
        assert forall|i: int| 0 <= i <= ms.len() implies #[trigger] offset_after(lsn, ms.take(i))
            == lsn + encode_log(ms.take(i)).len() by {
            if i < ms.len() {
                assert(ms.take(i) =~= init.take(i));
            } else {
                assert(ms.take(i) =~= ms);
            }
        }
    } else {
        assert forall|i: int| 0 <= i <= ms.len() implies #[trigger] offset_after(lsn, ms.take(i))
            == lsn + encode_log(ms.take(i)).len() by {
            assert(ms.take(i) =~= ms);
        }
    }
}

} // verus!
