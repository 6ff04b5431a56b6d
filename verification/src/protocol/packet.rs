//! On-wire packet format.
//!
//! Wire layout (big-endian):
//! ```text
//! [4B magic][4B seq][2B flags][2B payload_len][payload...]
//! ```

use crate::buffer;
use bytes::{Buf, BufMut, BytesMut};
use vstd::prelude::*;

verus! {

/// Magic bytes: ASCII "DART".
pub const MAGIC: [u8; 4] = [0x44, 0x41, 0x52, 0x54];

/// Maximum payload per packet (MTU-safe; leaves room for UDP/IP headers).
pub const MAX_PAYLOAD: usize = 1200;

/// Header size: 4B magic + 4B seq + 2B flags + 2B payload_len.
pub const HEADER_SIZE: usize = 12;

/// Maximum packet size on the wire.
pub const MAX_PACKET_SIZE: usize = HEADER_SIZE + MAX_PAYLOAD;

/// The kinds of a packet, one bit each.
#[derive(Debug, Clone, Copy, PartialEq, Eq, Structural)]
pub struct PacketFlags {
    pub bits: u16,
}

impl PacketFlags {
    pub const DATA: u16 = 0x01;

    pub const NACK: u16 = 0x02;

    pub const FIN: u16 = 0x04;

    pub const ACK: u16 = 0x08;

    pub const FEC: u16 = 0x10;

    pub const SYN: u16 = 0x20;

    /// No bit is set beyond the six kinds.
    pub open spec fn known(bits: u16) -> bool {
        bits < 0x40
    }

    /// All bits of `flag` are set.
    pub open spec fn includes(self, flag: u16) -> bool {
        self.bits & flag == flag
    }

    /// The flags with these bits, `None` if one of them is unknown.
    pub fn from_bits(bits: u16) -> (r: Option<PacketFlags>)
        ensures
            r == (if Self::known(bits) {
                Some(PacketFlags { bits })
            } else {
                None
            }),
    {
        proof {
            assert(bits & !0x3f == 0 <==> bits < 0x40) by (bit_vector);
        }
        if bits & !0x3f == 0 {
            Some(PacketFlags { bits })
        } else {
            None
        }
    }

    /// The bits of the flags.
    pub fn bits(&self) -> (b: u16)
        ensures
            b == self.bits,
    {
        self.bits
    }

    /// Whether all bits of `flag` are set.
    pub fn contains(&self, flag: u16) -> (b: bool)
        ensures
            b == self.includes(flag),
    {
        self.bits & flag == flag
    }
}

/// On-wire packet header.
#[derive(Debug, Clone, Copy, PartialEq, Eq, Structural)]
pub struct Header {
    pub seq: u32,
    pub flags: PacketFlags,
    pub payload_len: u16,
}

/// A complete packet (header + payload).
#[derive(Debug)]
pub struct Packet {
    pub header: Header,
    pub payload: Vec<u8>,
}

impl Clone for Packet {
    fn clone(&self) -> (p: Self)
        ensures
            p.header == self.header,
            p.payload@ == self.payload@,
    {
        Packet { header: self.header, payload: buffer::copy_bytes(self.payload.as_slice()) }
    }
}

/// What bytes of a packet cannot be.
#[derive(Debug, PartialEq, Eq)]
pub enum PacketError {
    /// Shorter than a header.
    TooShort(usize),
    /// The magic bytes are other ones.
    BadMagic([u8; 4]),
    /// A flag is unknown.
    BadFlags(u16),
    /// The payload ends before its length.
    PayloadTruncated { expected: usize, got: usize },
}

/// The low 16 bits of a length: what the header has room for.
pub open spec fn len16(n: nat) -> u16 {
    (n % 0x1_0000) as u16
}

/// The bytes of a packet.
pub open spec fn wire(header: Header, payload: Seq<u8>) -> Seq<u8> {
    MAGIC@ + buffer::be32(header.seq) + buffer::be16(header.flags.bits) + buffer::be16(
        header.payload_len,
    ) + payload
}

/// The header in the first bytes of `data`.
pub open spec fn header_of(data: Seq<u8>) -> Header {
    Header {
        seq: buffer::be32_at(data, 4),
        flags: PacketFlags { bits: buffer::be16_at(data, 8) },
        payload_len: buffer::be16_at(data, 10),
    }
}

/// The payload that the header in the first bytes of `data` tells of.
pub open spec fn payload_of(data: Seq<u8>) -> Seq<u8> {
    data.subrange(HEADER_SIZE as int, HEADER_SIZE + header_of(data).payload_len)
}

/// What `data` is read as: the first of the errors that it shows, or else the packet.
pub open spec fn reads_as(data: Seq<u8>, r: Result<Packet, PacketError>) -> bool {
    let h = header_of(data);
    if data.len() < HEADER_SIZE {
        r == Err::<Packet, _>(PacketError::TooShort(data.len() as usize))
    } else if data.take(4) != MAGIC@ {
        r matches Err(PacketError::BadMagic(m)) && m@ == data.take(4)
    } else if !PacketFlags::known(h.flags.bits) {
        r == Err::<Packet, _>(PacketError::BadFlags(h.flags.bits))
    } else if data.len() < HEADER_SIZE + h.payload_len {
        r == Err::<Packet, _>(
            PacketError::PayloadTruncated {
                expected: h.payload_len as usize,
                got: (data.len() - HEADER_SIZE) as usize,
            },
        )
    } else {
        r matches Ok(p) && p.header == h && p.payload@ == data.subrange(
            HEADER_SIZE as int,
            HEADER_SIZE + h.payload_len,
        )
    }
}

/// `data` is read as a packet.
pub open spec fn readable(data: Seq<u8>) -> bool {
    &&& data.len() >= HEADER_SIZE
    &&& data.take(4) == MAGIC@
    &&& PacketFlags::known(header_of(data).flags.bits)
    &&& data.len() >= HEADER_SIZE + header_of(data).payload_len
}

/// The payload of a NACK: four bytes for each sequence number.
pub open spec fn seq_list(missing: Seq<u32>) -> Seq<u8>
    decreases missing.len(),
{
    if missing.len() == 0 {
        Seq::empty()
    } else {
        seq_list(missing.drop_last()) + buffer::be32(missing.last())
    }
}

/// The payload of a SYN: the file size in eight bytes, then the file name.
pub open spec fn syn_payload(total_size: u64, filename: Seq<char>) -> Seq<u8> {
    buffer::be64(total_size) + vstd::utf8::encode_utf8(filename)
}

// ---------------------------------------------------------------------------
// The byte buffers of the `bytes` crate
// ---------------------------------------------------------------------------

/// `bytes::BytesMut`, a growable byte buffer.
#[verifier::external_type_specification]
#[verifier::external_body]
pub struct ExBytesMut(bytes::BytesMut);

/// The bytes that a buffer holds.
pub uninterp spec fn buffered(b: bytes::BytesMut) -> Seq<u8>;

/// `BytesMut::with_capacity`: a buffer with nothing in it yet. A capacity over
/// `isize::MAX` panics.
#[verifier::external_body]
fn new_buffer(capacity: usize) -> (b: BytesMut)
    requires
        capacity <= isize::MAX,
    ensures
        buffered(b) == Seq::<u8>::empty(),
{
    BytesMut::with_capacity(capacity)
}

/// `BufMut::put_slice` on a `BytesMut`: appends the bytes. A buffer cannot grow over
/// `isize::MAX` bytes.
#[verifier::external_body]
fn put_slice(b: &mut BytesMut, bytes: &[u8])
    requires
        buffered(*old(b)).len() + bytes@.len() <= isize::MAX,
    ensures
        buffered(*final(b)) == buffered(*old(b)) + bytes@,
{
    b.put_slice(bytes);
}

/// `BufMut::put_u32` on a `BytesMut`: appends the four bytes of `n`, the highest first.
#[verifier::external_body]
fn put_u32(b: &mut BytesMut, n: u32)
    requires
        buffered(*old(b)).len() + 4 <= isize::MAX,
    ensures
        buffered(*final(b)) == buffered(*old(b)) + buffer::be32(n),
{
    b.put_u32(n);
}

/// `BufMut::put_u16` on a `BytesMut`: appends the two bytes of `n`, the high one first.
#[verifier::external_body]
fn put_u16(b: &mut BytesMut, n: u16)
    requires
        buffered(*old(b)).len() + 2 <= isize::MAX,
    ensures
        buffered(*final(b)) == buffered(*old(b)) + buffer::be16(n),
{
    b.put_u16(n);
}

/// `to_vec` on the slice that a `BytesMut` dereferences to: a copy of the bytes.
#[verifier::external_body]
fn buffer_to_vec(b: &BytesMut) -> (v: Vec<u8>)
    ensures
        v@ == buffered(*b),
{
    b.to_vec()
}

/// `Buf::advance` on a byte slice: the slice loses its first `n` bytes. It panics where
/// there are fewer.
#[verifier::external_body]
fn advance(b: &mut &[u8], n: usize)
    requires
        n <= old(b)@.len(),
    ensures
        final(b)@ == old(b)@.skip(n as int),
{
    b.advance(n);
}

/// `Buf::get_u32` on a byte slice: reads four bytes, the highest first, and goes past
/// them. It panics where there are fewer.
#[verifier::external_body]
fn get_u32(b: &mut &[u8]) -> (n: u32)
    requires
        old(b)@.len() >= 4,
    ensures
        n == buffer::be32_at(old(b)@, 0),
        final(b)@ == old(b)@.skip(4),
{
    b.get_u32()
}

/// `Buf::get_u16` on a byte slice: reads two bytes, the high one first, and goes past
/// them. It panics where there are fewer.
#[verifier::external_body]
fn get_u16(b: &mut &[u8]) -> (n: u16)
    requires
        old(b)@.len() >= 2,
    ensures
        n == buffer::be16_at(old(b)@, 0),
        final(b)@ == old(b)@.skip(2),
{
    b.get_u16()
}

// ---------------------------------------------------------------------------
// Packets
// ---------------------------------------------------------------------------

/// A length cut to the 16 bits that the header has for it.
fn len_to_u16(n: usize) -> (r: u16)
    ensures
        r == len16(n as nat),
{
    (n % 0x1_0000) as u16
}

impl Packet {
    /// The header tells the length of the payload, and no unknown flag is set.
    pub open spec fn wf(&self) -> bool {
        &&& self.header.payload_len == self.payload@.len()
        &&& PacketFlags::known(self.header.flags.bits)
    }

    fn with_flags(seq: u32, bits: u16, payload: Vec<u8>) -> (p: Self)
        ensures
            p.header == (Header {
                seq,
                flags: PacketFlags { bits },
                payload_len: len16(payload@.len()),
            }),
            p.payload@ == payload@,
    {
        let payload_len: u16 = len_to_u16(payload.len());
        Packet { header: Header { seq, flags: PacketFlags { bits }, payload_len }, payload }
    }

    pub fn data(seq: u32, payload: Vec<u8>) -> (p: Self)
        ensures
            p.header == (Header {
                seq,
                flags: PacketFlags { bits: PacketFlags::DATA },
                payload_len: len16(payload@.len()),
            }),
            p.payload@ == payload@,
            p.header.flags.bits == 0x01,
            payload@.len() <= 0xffff ==> p.header.payload_len == payload@.len(),
    {
        Self::with_flags(seq, PacketFlags::DATA, payload)
    }

    pub fn fin(seq: u32) -> (p: Self)
        ensures
            p.header == (Header {
                seq,
                flags: PacketFlags { bits: PacketFlags::FIN },
                payload_len: 0,
            }),
            p.payload@.len() == 0,
            p.header.flags.bits == 0x04,
    {
        Self::with_flags(seq, PacketFlags::FIN, Vec::new())
    }

    pub fn ack(seq: u32) -> (p: Self)
        ensures
            p.header == (Header {
                seq,
                flags: PacketFlags { bits: PacketFlags::ACK },
                payload_len: 0,
            }),
            p.payload@.len() == 0,
            p.header.flags.bits == 0x08,
    {
        Self::with_flags(seq, PacketFlags::ACK, Vec::new())
    }

    pub fn syn(total_size: u64, filename: &str) -> (p: Self)
        ensures
            p.header == (Header {
                seq: 0,
                flags: PacketFlags { bits: PacketFlags::SYN },
                payload_len: len16(syn_payload(total_size, filename@).len()),
            }),
            p.payload@ == syn_payload(total_size, filename@),
            p.header.flags.bits == 0x20,
            p.payload@.len() >= 8,
            p.payload@.skip(8) == vstd::utf8::encode_utf8(filename@),
            p.payload@.len() <= 0xffff ==> p.header.payload_len == p.payload@.len(),
    {
        let name: &[u8] = filename.as_bytes();
        let mut payload: Vec<u8> = Vec::new();
        buffer::push_be64(&mut payload, total_size);
        payload.extend_from_slice(name);
        proof {
            assert(payload@ =~= syn_payload(total_size, filename@));
            assert(payload@.skip(8) =~= vstd::utf8::encode_utf8(filename@));
        }
        Self::with_flags(0, PacketFlags::SYN, payload)
    }

    pub fn nack(missing: &[u32]) -> (p: Self)
        ensures
            p.header == (Header {
                seq: 0,
                flags: PacketFlags { bits: PacketFlags::NACK },
                payload_len: len16(seq_list(missing@).len()),
            }),
            p.payload@ == seq_list(missing@),
            p.header.flags.bits == 0x02,
            p.payload@.len() == 4 * missing@.len(),
            missing@.len() < 0x4000 ==> p.header.payload_len == 4 * missing@.len(),
    {
        let mut payload: Vec<u8> = Vec::new();
        let mut i: usize = 0;
        while i < missing.len()
            invariant
                i <= missing@.len(),
                payload@ == seq_list(missing@.take(i as int)),
            decreases missing@.len() - i,
        {
            buffer::push_be32(&mut payload, missing[i]);
            proof {
                assert(missing@.take(i + 1).drop_last() =~= missing@.take(i as int));
            }
            i = i + 1;
        }
        proof {
            assert(missing@.take(i as int) =~= missing@);
            lemma_seq_list(missing@);
        }
        Self::with_flags(0, PacketFlags::NACK, payload)
    }

    pub fn fec(seq: u32, parity: Vec<u8>) -> (p: Self)
        ensures
            p.header == (Header {
                seq,
                flags: PacketFlags { bits: PacketFlags::FEC },
                payload_len: len16(parity@.len()),
            }),
            p.payload@ == parity@,
            p.header.flags.bits == 0x10,
            parity@.len() <= 0xffff ==> p.header.payload_len == parity@.len(),
    {
        Self::with_flags(seq, PacketFlags::FEC, parity)
    }

    /// Encodes to wire bytes.
    pub fn encode(&self) -> (out: Vec<u8>)
        requires
            HEADER_SIZE + self.payload@.len() <= isize::MAX,
        ensures
            out@ == wire(self.header, self.payload@),
            out@.len() == 12 + self.payload@.len(),
            out@.skip(12) == self.payload@,
    {
        let mut buf: BytesMut = new_buffer(HEADER_SIZE + self.payload.len());
        put_slice(&mut buf, &MAGIC);
        put_u32(&mut buf, self.header.seq);
        put_u16(&mut buf, self.header.flags.bits());
        put_u16(&mut buf, self.header.payload_len);
        put_slice(&mut buf, self.payload.as_slice());
        let out: Vec<u8> = buffer_to_vec(&buf);
        proof {
            assert(out@ =~= wire(self.header, self.payload@));
            assert(out@.skip(12) =~= self.payload@);
        }
        out
    }

    /// Decodes from wire bytes. Bytes beyond the payload are left alone.
    pub fn decode(data: &[u8]) -> (r: Result<Self, PacketError>)
        ensures
            reads_as(data@, r),
            r is Ok <==> data@.len() >= 12 && data@[0] == 0x44 && data@[1] == 0x41 && data@[2]
                == 0x52 && data@[3] == 0x54 && data@[8] == 0 && data@[9] < 0x40 && data@.len() >= 12
                + data@[10] * 0x100 + data@[11],
            r matches Ok(p) ==> {
                &&& p.header.seq == data@[4] * 0x100_0000 + data@[5] * 0x1_0000 + data@[6] * 0x100
                    + data@[7]
                &&& p.header.flags.bits == data@[9]
                &&& p.header.payload_len == data@[10] * 0x100 + data@[11]
                &&& p.payload@.len() == p.header.payload_len
                &&& forall|i: int|
                    0 <= i < p.payload@.len() ==> #[trigger] p.payload@[i] == data@[12 + i]
            },
            r matches Err(PacketError::TooShort(n)) ==> n == data@.len() && n < 12,
            r matches Err(PacketError::BadFlags(b)) ==> b == data@[8] * 0x100 + data@[9] && b
                >= 0x40,
            r matches Err(PacketError::PayloadTruncated { expected, got }) ==> expected == data@[10]
                * 0x100 + data@[11] && got == data@.len() - 12 && got < expected,
    {
        if data.len() < HEADER_SIZE {
            return Err(PacketError::TooShort(data.len()));
        }
        let mut buf: &[u8] = data;
        let magic: [u8; 4] = [buf[0], buf[1], buf[2], buf[3]];
        advance(&mut buf, 4);
        assert(magic@ =~= data@.take(4));
        if magic[0] != MAGIC[0] || magic[1] != MAGIC[1] || magic[2] != MAGIC[2] || magic[3]
            != MAGIC[3] {
            assert(magic@ != MAGIC@);
            return Err(PacketError::BadMagic(magic));
        }
        assert(magic@ =~= MAGIC@);
        let seq: u32 = get_u32(&mut buf);
        let flags_raw: u16 = get_u16(&mut buf);
        let flags: PacketFlags = match PacketFlags::from_bits(flags_raw) {
            Some(f) => f,
            None => {
                return Err(PacketError::BadFlags(flags_raw));
            },
        };
        let payload_len: u16 = get_u16(&mut buf);
        let len: usize = payload_len as usize;
        if buf.len() < len {
            return Err(PacketError::PayloadTruncated { expected: len, got: buf.len() });
        }
        let payload: Vec<u8> = buffer::copy_bytes(&buf[0..len]);
        proof {
            assert(payload@ =~= data@.subrange(HEADER_SIZE as int, HEADER_SIZE + len));
        }
        Ok(Packet { header: Header { seq, flags, payload_len }, payload })
    }
}

/// The sequence numbers in the payload of a NACK: one for each full group of four
/// bytes.
pub open spec fn listed_seqs(payload: Seq<u8>) -> Seq<u32> {
    Seq::new(payload.len() / 4, |i: int| buffer::be32_at(payload, 4 * i))
}

/// Reads the sequence numbers in the payload of a NACK.
pub fn nack_seqs(payload: &[u8]) -> (seqs: Vec<u32>)
    ensures
        seqs@ == listed_seqs(payload@),
        seqs@.len() == payload@.len() / 4,
        forall|i: int|
            0 <= i < seqs@.len() ==> #[trigger] seqs@[i] == payload@[4 * i] * 0x100_0000
                + payload@[4 * i + 1] * 0x1_0000 + payload@[4 * i + 2] * 0x100 + payload@[4 * i
                + 3],
{
    let count: usize = payload.len() / 4;
    let mut seqs: Vec<u32> = Vec::new();
    let mut i: usize = 0;
    while i < count
        invariant
            i <= count,
            count == payload@.len() / 4,
            payload@.len() <= usize::MAX,
            seqs@ == listed_seqs(payload@).take(i as int),
        decreases count - i,
    {
        seqs.push(buffer::read_be32(payload, 4 * i));
        proof {
            assert(seqs@ =~= listed_seqs(payload@).take(i + 1));
        }
        i = i + 1;
    }
    proof {
        assert(listed_seqs(payload@).take(i as int) =~= listed_seqs(payload@));
    }
    seqs
}

// ---------------------------------------------------------------------------
// Laws
// ---------------------------------------------------------------------------

/// Decoding undoes encoding: the bytes of a packet whose header tells the truth are read
/// as that packet, also when other bytes follow.
pub proof fn lemma_decode_undoes_encode(p: Packet, rest: Seq<u8>, r: Result<Packet, PacketError>)
    requires
        p.wf(),
        reads_as(wire(p.header, p.payload@) + rest, r),
    ensures
        r matches Ok(q) && q.header == p.header && q.payload@ == p.payload@,
{
    let h = p.header;
    let data = wire(h, p.payload@) + rest;
    assert(data.take(4) =~= MAGIC@);
    assert(data.subrange(4, 8) =~= buffer::be32(h.seq));
    buffer::lemma_be32(h.seq, data, 4);
    assert(data.subrange(8, 10) =~= buffer::be16(h.flags.bits));
    buffer::lemma_be16(h.flags.bits, data, 8);
    assert(data.subrange(10, 12) =~= buffer::be16(h.payload_len));
    buffer::lemma_be16(h.payload_len, data, 10);
    assert(data.subrange(12, 12 + h.payload_len) =~= p.payload@);
}

/// The header and the payload of a packet are found in its bytes.
pub proof fn lemma_wire_parts(header: Header, payload: Seq<u8>)
    requires
        header.payload_len == payload.len(),
        PacketFlags::known(header.flags.bits),
    ensures
        readable(wire(header, payload)),
        header_of(wire(header, payload)) == header,
        payload_of(wire(header, payload)) == payload,
        wire(header, payload).len() == HEADER_SIZE + payload.len(),
{
    let data = wire(header, payload);
    assert(data.take(4) =~= MAGIC@);
    assert(data.subrange(4, 8) =~= buffer::be32(header.seq));
    buffer::lemma_be32(header.seq, data, 4);
    assert(data.subrange(8, 10) =~= buffer::be16(header.flags.bits));
    buffer::lemma_be16(header.flags.bits, data, 8);
    assert(data.subrange(10, 12) =~= buffer::be16(header.payload_len));
    buffer::lemma_be16(header.payload_len, data, 10);
    assert(data.subrange(12, 12 + header.payload_len) =~= payload);
}

/// Encoding undoes decoding: bytes that are read as a packet start with the bytes of
/// that packet, and its header tells the truth.
pub proof fn lemma_encode_undoes_decode(data: Seq<u8>, p: Packet)
    requires
        reads_as(data, Ok(p)),
    ensures
        p.wf(),
        wire(p.header, p.payload@) == data.take((HEADER_SIZE + p.payload@.len()) as int),
{
    let w = wire(p.header, p.payload@);
    buffer::lemma_be32_back(data, 4);
    buffer::lemma_be16_back(data, 8);
    buffer::lemma_be16_back(data, 10);
    let n = HEADER_SIZE + p.payload@.len();
    assert(data.take(n as int) =~= data.take(4) + data.subrange(4, 8) + data.subrange(8, 10)
        + data.subrange(10, 12) + data.subrange(12, n as int));
}

/// A NACK names four bytes for each sequence number.
pub proof fn lemma_seq_list(missing: Seq<u32>)
    ensures
        seq_list(missing).len() == 4 * missing.len(),
        forall|i: int|
            0 <= i < missing.len() ==> #[trigger] seq_list(missing).subrange(4 * i, 4 * i + 4)
                == buffer::be32(missing[i]),
    decreases missing.len(),
{
    if missing.len() > 0 {
        let rest = missing.drop_last();
        lemma_seq_list(rest);
        assert forall|i: int| 0 <= i < missing.len() implies #[trigger] seq_list(missing).subrange(
            4 * i,
            4 * i + 4,
        ) == buffer::be32(missing[i]) by {
            if i < rest.len() {
                assert(seq_list(rest).subrange(4 * i, 4 * i + 4) == buffer::be32(rest[i]));
                assert(seq_list(missing).subrange(4 * i, 4 * i + 4) =~= seq_list(rest).subrange(
                    4 * i,
                    4 * i + 4,
                ));
            } else {
                assert(seq_list(missing).subrange(4 * i, 4 * i + 4) =~= buffer::be32(
                    missing.last(),
                ));
            }
        }
    }
}

/// Reading the payload of a NACK gives the sequence numbers that were written.
pub proof fn lemma_nack_list_read_back(missing: Seq<u32>)
    ensures
        listed_seqs(seq_list(missing)) == missing,
{
    let payload = seq_list(missing);
    lemma_seq_list(missing);
    assert forall|i: int| 0 <= i < missing.len() implies listed_seqs(payload)[i] == missing[i] by {
        assert(payload.subrange(4 * i, 4 * i + 4) == buffer::be32(missing[i]));
        buffer::lemma_be32(missing[i], payload, 4 * i);
    }
    assert(listed_seqs(payload) =~= missing);
}

/// Every byte of a packet has its place: the four magic bytes, the sequence number, the
/// flags and the length of the payload, all with the highest byte first, and the payload
/// from the thirteenth byte on.
pub proof fn lemma_byte_places(header: Header, payload: Seq<u8>)
    ensures
        wire(header, payload).len() == 12 + payload.len(),
        wire(header, payload)[0] == 0x44,
        wire(header, payload)[1] == 0x41,
        wire(header, payload)[2] == 0x52,
        wire(header, payload)[3] == 0x54,
        wire(header, payload)[4] * 0x100_0000 + wire(header, payload)[5] * 0x1_0000 + wire(
            header,
            payload,
        )[6] * 0x100 + wire(header, payload)[7] == header.seq,
        wire(header, payload)[8] * 0x100 + wire(header, payload)[9] == header.flags.bits,
        wire(header, payload)[10] * 0x100 + wire(header, payload)[11] == header.payload_len,
        forall|i: int|
            0 <= i < payload.len() ==> #[trigger] wire(header, payload)[12 + i] == payload[i],
{
    let w = wire(header, payload);
    assert(w.subrange(0, 4) =~= MAGIC@);
    assert(w[0] == MAGIC@[0] && w[1] == MAGIC@[1] && w[2] == MAGIC@[2] && w[3] == MAGIC@[3]);
}

/// The payload of a NACK holds each number in four bytes, the highest first, one after the
/// other.
pub proof fn lemma_seq_places(missing: Seq<u32>, i: int)
    requires
        0 <= i < missing.len(),
    ensures
        seq_list(missing).len() == 4 * missing.len(),
        seq_list(missing)[4 * i] * 0x100_0000 + seq_list(missing)[4 * i + 1] * 0x1_0000 + seq_list(
            missing,
        )[4 * i + 2] * 0x100 + seq_list(missing)[4 * i + 3] == missing[i],
{
    lemma_seq_list(missing);
    let s = seq_list(missing).subrange(4 * i, 4 * i + 4);
    assert(s == buffer::be32(missing[i]));
    assert(s[0] == seq_list(missing)[4 * i] && s[1] == seq_list(missing)[4 * i + 1] && s[2]
        == seq_list(missing)[4 * i + 2] && s[3] == seq_list(missing)[4 * i + 3]);
}

} // verus!
