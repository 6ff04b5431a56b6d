//! Receiving a file over parallel TCP streams: what the headers of the chunks tell.

use crate::buffer;
use crate::transfer::tcp_sender;
use crate::transfer::tcp_sender::Chunk;
use std::time::Duration;
use vstd::prelude::*;

verus! {

/// Statistics returned after a TCP receive completes.
#[derive(Clone, Copy, Debug)]
pub struct TcpRecvStats {
    pub bytes_received: u64,
    pub duration: Duration,
    pub streams_used: usize,
}

/// The chunk that a header announces.
pub open spec fn announced(header: Seq<u8>) -> Chunk {
    Chunk {
        stream_id: buffer::be32_at(header, 0),
        offset: buffer::be64_at(header, 4),
        length: buffer::be64_at(header, 12),
    }
}

/// Where the furthest chunk ends; zero if there is none.
pub open spec fn furthest_end(chunks: Seq<Chunk>) -> int
    decreases chunks.len(),
{
    if chunks.len() == 0 {
        0
    } else {
        let end = chunks.last().offset + chunks.last().length;
        let rest = furthest_end(chunks.drop_last());
        if end > rest {
            end
        } else {
            rest
        }
    }
}

/// Reads the header of a chunk.
pub fn parse_chunk_header(header: &[u8; 20]) -> (c: Chunk)
    ensures
        c == announced(header@),
{
    let bytes: &[u8] = header;
    Chunk {
        stream_id: buffer::read_be32(bytes, 0),
        offset: buffer::read_be64(bytes, 4),
        length: buffer::read_be64(bytes, 12),
    }
}

/// The size of the file that the chunks are parts of, `None` if a chunk ends beyond what
/// 64 bits can tell.
pub fn total_size(chunks: &[Chunk]) -> (r: Option<u64>)
    ensures
        r is None <==> exists|i: int|
            0 <= i < chunks@.len() && (#[trigger] chunks@[i]).offset + chunks@[i].length > u64::MAX,
        r matches Some(n) ==> n == furthest_end(chunks@),
        r matches Some(n) ==> forall|i: int|
            0 <= i < chunks@.len() ==> (#[trigger] chunks@[i]).offset + chunks@[i].length <= n,
        r matches Some(n) ==> n == 0 || exists|i: int|
            0 <= i < chunks@.len() && (#[trigger] chunks@[i]).offset + chunks@[i].length == n,
{
    let mut size: u64 = 0;
    let mut i: usize = 0;
    while i < chunks.len()
        invariant
            i <= chunks@.len(),
            size == furthest_end(chunks@.take(i as int)),
            forall|j: int|
                0 <= j < i ==> (#[trigger] chunks@[j]).offset + chunks@[j].length <= size,
            size == 0 || exists|j: int|
                0 <= j < i && (#[trigger] chunks@[j]).offset + chunks@[j].length == size,
        decreases chunks@.len() - i,
    {
        let c: Chunk = chunks[i];
        assert(chunks@[i as int] == c);
        assert(chunks@.take(i + 1).drop_last() =~= chunks@.take(i as int));
        match c.offset.checked_add(c.length) {
            None => {
                return None;
            },
            Some(end) => {
                if end > size {
                    size = end;
                    assert(chunks@[i as int].offset + chunks@[i as int].length == size);
                }
            },
        }
        i = i + 1;
    }
    assert(chunks@.take(i as int) =~= chunks@);
    Some(size)
}

// ---------------------------------------------------------------------------
// Laws
// ---------------------------------------------------------------------------

/// The header of a chunk is read as that chunk.
pub proof fn lemma_header_read_back(c: Chunk)
    ensures
        tcp_sender::header_bytes(c).len() == tcp_sender::CHUNK_HEADER_SIZE,
        announced(tcp_sender::header_bytes(c)) == c,
{
    let b = tcp_sender::header_bytes(c);
    assert(b.subrange(0, 4) =~= buffer::be32(c.stream_id));
    buffer::lemma_be32(c.stream_id, b, 0);
    assert(b.subrange(4, 12) =~= buffer::be64(c.offset));
    buffer::lemma_be64(c.offset, b, 4);
    assert(b.subrange(12, 20) =~= buffer::be64(c.length));
    buffer::lemma_be64(c.length, b, 12);
}

proof fn lemma_furthest_end_of(total_size: u64, n: int, m: int)
    requires
        n > 0,
        0 <= m <= n,
    ensures
        0 <= furthest_end(tcp_sender::chunks_of(total_size, n).take(m)) <= total_size,
        m == n ==> furthest_end(tcp_sender::chunks_of(total_size, n).take(m)) == total_size,
    decreases m,
{
    let chunks = tcp_sender::chunks_of(total_size, n);
    if m > 0 {
        lemma_furthest_end_of(total_size, n, m - 1);
        tcp_sender::lemma_chunks_cover_file(total_size, n);
        tcp_sender::lemma_chunk_in_file(total_size, n, m - 1);
        assert(chunks.take(m).drop_last() =~= chunks.take(m - 1));
        assert(chunks.take(m).last() == chunks[m - 1]);
        if m == n {
            assert(chunks.last() == chunks[m - 1]);
        }
    }
}

/// The receiver learns the size of the file from the headers of its chunks.
pub proof fn lemma_size_from_chunks(total_size: u64, n: int)
    requires
        n > 0,
    ensures
        furthest_end(tcp_sender::chunks_of(total_size, n)) == total_size,
{
    lemma_furthest_end_of(total_size, n, n);
    assert(tcp_sender::chunks_of(total_size, n).take(n) =~= tcp_sender::chunks_of(total_size, n));
}

/// A header is read with the highest byte of each number first.
pub proof fn lemma_header_bytes_read(header: Seq<u8>)
    requires
        header.len() == 20,
    ensures
        announced(header).stream_id == header[0] * 0x100_0000 + header[1] * 0x1_0000 + header[2]
            * 0x100 + header[3],
        announced(header).offset == header[4] * 0x100_0000_0000_0000 + header[5]
            * 0x1_0000_0000_0000 + header[6] * 0x100_0000_0000 + header[7] * 0x1_0000_0000
            + header[8] * 0x100_0000 + header[9] * 0x1_0000 + header[10] * 0x100 + header[11],
        announced(header).length == header[12] * 0x100_0000_0000_0000 + header[13]
            * 0x1_0000_0000_0000 + header[14] * 0x100_0000_0000 + header[15] * 0x1_0000_0000
            + header[16] * 0x100_0000 + header[17] * 0x1_0000 + header[18] * 0x100 + header[19],
{
}

} // verus!
