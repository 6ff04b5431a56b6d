//! Sending a file over parallel TCP streams: how it is split into chunks, and the
//! header that goes ahead of each chunk.

use crate::buffer;
use std::time::Duration;
use vstd::prelude::*;

verus! {

/// Number of parallel TCP streams by default.
pub const DEFAULT_STREAMS: usize = 8;

/// Bytes in the header of a chunk: stream id, offset, length.
pub const CHUNK_HEADER_SIZE: usize = 20;

/// Bytes that are moved at once.
pub const COPY_BUFFER_SIZE: usize = 65_536;

/// Statistics returned after a TCP transfer completes.
#[derive(Clone, Copy, Debug)]
pub struct TcpTransferStats {
    pub bytes_sent: u64,
    pub duration: Duration,
    pub streams_used: usize,
}

/// The part of the file that one stream carries.
#[derive(Clone, Copy, Debug, PartialEq, Eq, Structural)]
pub struct Chunk {
    pub stream_id: u32,
    pub offset: u64,
    pub length: u64,
}

/// Chunk `i` of `n`: all have the same length but the last, which has the rest as well.
pub open spec fn chunk_of(total_size: u64, n: int, i: int) -> Chunk {
    let share = total_size as int / n;
    Chunk {
        stream_id: (i % 0x1_0000_0000) as u32,
        offset: (i * share) as u64,
        length: if i == n - 1 {
            (total_size - i * share) as u64
        } else {
            share as u64
        },
    }
}

/// All chunks of a file.
pub open spec fn chunks_of(total_size: u64, n: int) -> Seq<Chunk> {
    Seq::new(n as nat, |i: int| chunk_of(total_size, n, i))
}

/// The header of a chunk: stream id, offset and length, big-endian.
pub open spec fn header_bytes(c: Chunk) -> Seq<u8> {
    buffer::be32(c.stream_id) + buffer::be64(c.offset) + buffer::be64(c.length)
}

/// Chunk `i` lies within the file.
pub proof fn lemma_chunk_in_file(total_size: u64, n: int, i: int)
    requires
        n > 0,
        0 <= i < n,
    ensures
        0 <= i * (total_size as int / n) <= total_size,
        i * (total_size as int / n) + (total_size as int / n) <= total_size,
{
    let share = total_size as int / n;
    assert(0 <= share && 0 <= i * share && (i + 1) * share <= n * share && n * share <= total_size
        && (i + 1) * share == i * share + share) by (nonlinear_arith)
        requires
            n > 0,
            0 <= i < n,
            share == total_size as int / n,
    ;
}

/// Splits a file of `total_size` bytes into `n` chunks.
pub fn plan_chunks(total_size: u64, n: usize) -> (chunks: Vec<Chunk>)
    requires
        n > 0,
    ensures
        chunks@ == chunks_of(total_size, n as int),
        chunks@.len() == n,
        forall|i: int|
            0 <= i < n ==> (#[trigger] chunks@[i]).offset == i * (total_size as int / n as int),
        forall|i: int|
            0 <= i < n ==> (#[trigger] chunks@[i]).length == (if i < n - 1 {
                total_size as int / n as int
            } else {
                total_size - i * (total_size as int / n as int)
            }),
        n <= 0xffff_ffff ==> forall|i: int|
            0 <= i < n ==> (#[trigger] chunks@[i]).stream_id == i,
{
    let share: u64 = total_size / n as u64;
    let mut chunks: Vec<Chunk> = Vec::new();
    let mut i: usize = 0;
    while i < n
        invariant
            0 < n,
            i <= n,
            share == total_size as int / n as int,
            chunks@ == chunks_of(total_size, n as int).take(i as int),
        decreases n - i,
    {
        proof {
            lemma_chunk_in_file(total_size, n as int, i as int);
        }
        let offset: u64 = i as u64 * share;
        let length: u64 = if i == n - 1 {
            total_size - offset
        } else {
            share
        };
        let stream_id: u32 = (i as u64 % 0x1_0000_0000) as u32;
        chunks.push(Chunk { stream_id, offset, length });
        i = i + 1;
        proof {
            assert(chunks@ =~= chunks_of(total_size, n as int).take(i as int));
        }
    }
    proof {
        assert(chunks_of(total_size, n as int).take(i as int) =~= chunks_of(total_size, n as int));
        assert forall|i: int| 0 <= i < n implies (#[trigger] chunks@[i]).offset == i * (
        total_size as int / n as int) && chunks@[i].length == (if i < n - 1 {
            total_size as int / n as int
        } else {
            total_size - i * (total_size as int / n as int)
        }) by {
            lemma_chunk_in_file(total_size, n as int, i);
        }
    }
    chunks
}

/// The header that goes ahead of a chunk.
pub fn chunk_header(c: Chunk) -> (out: Vec<u8>)
    ensures
        out@ == header_bytes(c),
{
    let mut out: Vec<u8> = Vec::new();
    buffer::push_be32(&mut out, c.stream_id);
    buffer::push_be64(&mut out, c.offset);
    buffer::push_be64(&mut out, c.length);
    proof {
        assert(out@ =~= header_bytes(c));
    }
    out
}

/// How many bytes to move next when `remaining` are left of a chunk.
pub fn next_read(remaining: u64) -> (n: usize)
    ensures
        n == (if remaining < COPY_BUFFER_SIZE {
            remaining as int
        } else {
            COPY_BUFFER_SIZE as int
        }),
        remaining <= 65_536 ==> n == remaining,
        remaining > 65_536 ==> n == 65_536,
{
    if remaining < COPY_BUFFER_SIZE as u64 {
        remaining as usize
    } else {
        COPY_BUFFER_SIZE
    }
}

// ---------------------------------------------------------------------------
// Laws
// ---------------------------------------------------------------------------

/// The chunks make up the file: the first starts at its start, each ends where the next
/// begins, and the last ends at its end.
pub proof fn lemma_chunks_cover_file(total_size: u64, n: int)
    requires
        n > 0,
    ensures
        chunks_of(total_size, n)[0].offset == 0,
        forall|i: int|
            0 <= i < n - 1 ==> (#[trigger] chunks_of(total_size, n)[i]).offset + chunks_of(
                total_size,
                n,
            )[i].length == chunks_of(total_size, n)[i + 1].offset,
        chunks_of(total_size, n).last().offset + chunks_of(total_size, n).last().length
            == total_size,
{
    let share = total_size as int / n;
    let chunks = chunks_of(total_size, n);
    assert(0 * share == 0) by (nonlinear_arith);
    lemma_chunk_in_file(total_size, n, 0);
    lemma_chunk_in_file(total_size, n, n - 1);
    assert forall|i: int| 0 <= i < n - 1 implies (#[trigger] chunks[i]).offset + chunks[i].length
        == chunks[i + 1].offset by {
        lemma_chunk_in_file(total_size, n, i);
        lemma_chunk_in_file(total_size, n, i + 1);
        assert((i + 1) * share == i * share + share) by (nonlinear_arith);
    }
}

/// The streams share the file evenly: no two chunks but the last differ in length, and the
/// last is longer by less than one byte for each stream.
pub proof fn lemma_even_shares(total_size: u64, n: int, i: int, j: int)
    requires
        n > 0,
        0 <= i < n - 1,
        0 <= j < n,
    ensures
        chunks_of(total_size, n)[i].length <= chunks_of(total_size, n)[j].length,
        j < n - 1 ==> chunks_of(total_size, n)[i].length == chunks_of(total_size, n)[j].length,
        chunks_of(total_size, n).last().length < chunks_of(total_size, n)[i].length + n,
        n * chunks_of(total_size, n)[i].length <= total_size,
{
    let share = total_size as int / n;
    lemma_chunk_in_file(total_size, n, i);
    lemma_chunk_in_file(total_size, n, j);
    lemma_chunk_in_file(total_size, n, n - 1);
    vstd::arithmetic::div_mod::lemma_fundamental_div_mod(total_size as int, n);
    vstd::arithmetic::div_mod::lemma_mod_bound(total_size as int, n);
    assert((n - 1) * share == n * share - share) by (nonlinear_arith);
}

/// The header of a chunk holds its stream, its offset and its length one after the other,
/// each with the highest byte first.
pub proof fn lemma_header_places(c: Chunk)
    ensures
        header_bytes(c).len() == 20,
        header_bytes(c)[0] * 0x100_0000 + header_bytes(c)[1] * 0x1_0000 + header_bytes(c)[2] * 0x100
            + header_bytes(c)[3] == c.stream_id,
        header_bytes(c).subrange(4, 12) == buffer::be64(c.offset),
        header_bytes(c).subrange(12, 20) == buffer::be64(c.length),
{
    let b = header_bytes(c);
    assert(b.subrange(0, 4) =~= buffer::be32(c.stream_id));
    assert(b.subrange(4, 12) =~= buffer::be64(c.offset));
    assert(b.subrange(12, 20) =~= buffer::be64(c.length));
}

} // verus!
