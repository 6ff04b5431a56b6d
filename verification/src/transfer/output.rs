//! What a receiver writes: the file, and the record of what it has of it so far.

use crate::protocol::packet::MAX_PAYLOAD;
use crate::transfer::store;
use crate::transfer::store::PayloadStore;
use vstd::prelude::*;

verus! {

/// The payloads under the numbers from 1 to `n`, one after the other.
pub open spec fn joined(received: Map<u32, Seq<u8>>, n: nat) -> Seq<u8>
    decreases n,
{
    if n == 0 {
        Seq::empty()
    } else {
        let rest = joined(received, (n - 1) as nat);
        if n <= u32::MAX && received.contains_key(n as u32) {
            rest + received[n as u32]
        } else {
            rest
        }
    }
}

/// The first `size` bytes, if the size is known.
pub open spec fn clipped(bytes: Seq<u8>, size: Option<u64>) -> Seq<u8> {
    match size {
        Some(n) => if bytes.len() > n {
            bytes.take(n as int)
        } else {
            bytes
        },
        None => bytes,
    }
}

/// What is written of the payloads: all in the order of their numbers, but nothing past
/// the size of the file.
pub open spec fn file_bytes(received: Map<u32, Seq<u8>>, size: Option<u64>) -> Seq<u8> {
    clipped(joined(received, u32::MAX as nat), size)
}

/// How many bytes of the payload under a number are written.
#[derive(Clone, Copy, Debug, PartialEq, Eq, Structural)]
pub struct WriteStep {
    pub seq: u32,
    pub len: usize,
}

/// What a list of steps writes.
pub open spec fn written(received: Map<u32, Seq<u8>>, steps: Seq<WriteStep>) -> Seq<u8>
    decreases steps.len(),
{
    if steps.len() == 0 {
        Seq::empty()
    } else {
        written(received, steps.drop_last()) + received[steps.last().seq].take(
            steps.last().len as int,
        )
    }
}

/// Every step takes bytes that are there.
pub open spec fn steps_valid(received: Map<u32, Seq<u8>>, steps: Seq<WriteStep>) -> bool {
    forall|i: int|
        0 <= i < steps.len() ==> received.contains_key((#[trigger] steps[i]).seq)
            && steps[i].len <= received[steps[i].seq].len()
}

/// No payload is longer than a packet can carry.
pub open spec fn payloads_bounded(received: Map<u32, Seq<u8>>) -> bool {
    forall|s: u32| #[trigger] received.contains_key(s) ==> received[s].len() <= 65_535
}

proof fn lemma_joined_len(received: Map<u32, Seq<u8>>, n: nat)
    requires
        payloads_bounded(received),
        n <= u32::MAX,
    ensures
        joined(received, n).len() <= n * 65_535,
    decreases n,
{
    if n > 0 {
        lemma_joined_len(received, (n - 1) as nat);
    }
}

/// Numbers beyond the highest add nothing.
pub proof fn lemma_joined_beyond(received: Map<u32, Seq<u8>>, highest: u32, n: nat)
    requires
        highest <= n,
        forall|x: u32| #[trigger] received.contains_key(x) ==> x <= highest,
    ensures
        joined(received, n) == joined(received, highest as nat),
    decreases n,
{
    if n > highest {
        lemma_joined_beyond(received, highest, (n - 1) as nat);
    }
}

/// What was joined up to a number is the start of what is joined beyond it.
pub proof fn lemma_joined_prefix(received: Map<u32, Seq<u8>>, m: nat, n: nat)
    requires
        m <= n,
    ensures
        joined(received, m).len() <= joined(received, n).len(),
        joined(received, n).take(joined(received, m).len() as int) == joined(received, m),
    decreases n,
{
    let a = joined(received, m);
    let b = joined(received, n);
    if m < n {
        lemma_joined_prefix(received, m, (n - 1) as nat);
        let c = joined(received, (n - 1) as nat);
        assert(b.take(a.len() as int) =~= c.take(a.len() as int));
    } else {
        assert(b.take(a.len() as int) =~= a);
    }
}

/// The steps that write the file, and how many bytes they write.
pub fn write_steps(received: &PayloadStore, size: Option<u64>) -> (r: (Vec<WriteStep>, u64))
    requires
        payloads_bounded(received@),
    ensures
        steps_valid(received@, r.0@),
        written(received@, r.0@) == file_bytes(received@, size),
        r.1 == file_bytes(received@, size).len(),
        size matches Some(n) ==> r.1 <= n,
        forall|i: int, j: int| 0 <= i < j < r.0@.len() ==> r.0@[i].seq < r.0@[j].seq,
        forall|i: int| 0 <= i < r.0@.len() ==> (#[trigger] r.0@[i]).seq > 0,
{
    let highest: u32 = received.highest_seq();
    let ghost map = received@;
    let mut steps: Vec<WriteStep> = Vec::new();
    let mut total: u64 = 0;
    let mut n: u32 = 0;
    proof {
        lemma_joined_beyond(map, highest, u32::MAX as nat);
    }
    let ghost whole = joined(map, highest as nat);
    while n < highest
        invariant
            map == received@,
            payloads_bounded(map),
            n <= highest,
            whole == joined(map, highest as nat),
            whole == joined(map, u32::MAX as nat),
            steps_valid(map, steps@),
            written(map, steps@) == clipped(joined(map, n as nat), size),
            total == clipped(joined(map, n as nat), size).len(),
            forall|i: int, j: int| 0 <= i < j < steps@.len() ==> steps@[i].seq < steps@[j].seq,
            forall|i: int| 0 <= i < steps@.len() ==> 0 < (#[trigger] steps@[i]).seq <= n,
        decreases highest - n,
    {
        let seq: u32 = n + 1;
        let ghost before = steps@;
        let ghost prev = joined(map, n as nat);
        let ghost next = joined(map, seq as nat);
        proof {
            lemma_joined_len(map, n as nat);
            lemma_joined_len(map, seq as nat);
        }
        match received.get(seq) {
            Some(data) => {
                let len: usize = match size {
                    None => data.len(),
                    Some(limit) => {
                        if total >= limit {
                            proof {
                                lemma_joined_prefix(map, n as nat, highest as nat);
                                assert(clipped(whole, size) =~= clipped(prev, size));
                            }
                            return (steps, total);
                        }
                        let remaining: u64 = limit - total;
                        if data.len() as u64 <= remaining {
                            data.len()
                        } else {
                            remaining as usize
                        }
                    },
                };
                steps.push(WriteStep { seq, len });
                total = total + len as u64;
                proof {
                    assert(steps@.drop_last() =~= before);
                    assert(next == prev + data@);
                    assert(clipped(next, size) =~= clipped(prev, size) + data@.take(len as int));
                }
            },
            None => {},
        }
        n = seq;
    }
    (steps, total)
}

// ---------------------------------------------------------------------------
// The record of a partial file
// ---------------------------------------------------------------------------

/// A range of bytes of the file.
#[derive(Clone, Copy, Debug, PartialEq, Eq, Structural)]
pub struct ByteRange {
    pub start: u64,
    pub end: u64,
}

/// The record of what was received, kept beside a partial file.
#[derive(Debug)]
pub struct PartialSidecar {
    pub version: u32,
    pub ranges: Vec<ByteRange>,
}

/// Where the payload under a number lies in the file: each number before it stands for a
/// full payload.
pub open spec fn range_of(seq: u32, data: Seq<u8>) -> ByteRange {
    let start = if seq == 0 {
        0
    } else {
        (seq - 1) * MAX_PAYLOAD
    };
    ByteRange { start: start as u64, end: (start + data.len()) as u64 }
}

/// The ranges of the payloads under `seqs`, those that touch joined into one.
pub open spec fn merged_ranges(received: Map<u32, Seq<u8>>, seqs: Seq<u32>) -> Seq<ByteRange>
    decreases seqs.len(),
{
    if seqs.len() == 0 {
        Seq::empty()
    } else {
        let rest = merged_ranges(received, seqs.drop_last());
        let r = range_of(seqs.last(), received[seqs.last()]);
        if rest.len() > 0 && rest.last().end == r.start {
            rest.drop_last().push(ByteRange { start: rest.last().start, end: r.end })
        } else {
            rest.push(r)
        }
    }
}

/// The record of what was received: the ranges of all payloads in the order of their
/// numbers.
pub fn partial_sidecar(received: &PayloadStore) -> (r: PartialSidecar)
    requires
        payloads_bounded(received@),
    ensures
        r.version == 1,
        r.ranges@ == merged_ranges(received@, store::ascending(received@.dom())),
{
    let seqs: Vec<u32> = received.sorted_seqs();
    let ghost map = received@;
    let mut ranges: Vec<ByteRange> = Vec::new();
    let mut i: usize = 0;
    while i < seqs.len()
        invariant
            map == received@,
            payloads_bounded(map),
            i <= seqs@.len(),
            seqs@ == store::ascending(map.dom()),
            ranges@ == merged_ranges(map, seqs@.take(i as int)),
        decreases seqs@.len() - i,
    {
        let seq: u32 = seqs[i];
        proof {
            store::lemma_members_below(map.dom(), 0x1_0000_0000);
            assert(seqs@.contains(seq));
            assert(map.contains_key(seq));
            assert(seqs@.take(i + 1).drop_last() =~= seqs@.take(i as int));
        }
        if let Some(payload) = received.get(seq) {
            let before: u64 = if seq == 0 {
                0
            } else {
                (seq - 1) as u64
            };
            let start: u64 = before * MAX_PAYLOAD as u64;
            let end: u64 = start + payload.len() as u64;
            let ghost rest = ranges@;
            match ranges.pop() {
                None => {
                    ranges.push(ByteRange { start, end });
                    proof {
                        assert(ranges@ =~= rest.push(ByteRange { start, end }));
                    }
                },
                Some(last) => {
                    if last.end == start {
                        ranges.push(ByteRange { start: last.start, end });
                    } else {
                        ranges.push(last);
                        ranges.push(ByteRange { start, end });
                        proof {
                            assert(ranges@ =~= rest.push(ByteRange { start, end }));
                        }
                    }
                },
            }
        }
        i = i + 1;
    }
    proof {
        assert(seqs@.take(i as int) =~= seqs@);
    }
    PartialSidecar { version: 1, ranges }
}

/// The path of the record that is kept beside `output_path`.
pub fn sidecar_path(output_path: &str) -> (path: String)
    ensures
        path@ == output_path@ + ".chirp-partial"@,
{
    let path: String = output_path.to_owned();
    path.concat(".chirp-partial")
}

// ---------------------------------------------------------------------------
// Laws
// ---------------------------------------------------------------------------

/// Nothing is written past the end of the file, whatever padding was received.
pub proof fn lemma_nothing_past_end(received: Map<u32, Seq<u8>>, size: u64)
    ensures
        file_bytes(received, Some(size)).len() <= size,
        file_bytes(received, Some(size)).is_prefix_of(file_bytes(received, None)),
{
    let all = joined(received, u32::MAX as nat);
    let out = file_bytes(received, Some(size));
    assert(out =~= all.subrange(0, out.len() as int));
}

/// A byte lies in a range.
pub open spec fn within(r: ByteRange, byte: int) -> bool {
    r.start <= byte < r.end
}

/// A byte lies in one of the ranges.
pub open spec fn recorded(ranges: Seq<ByteRange>, byte: int) -> bool {
    exists|i: int| 0 <= i < ranges.len() && within(#[trigger] ranges[i], byte)
}

/// A byte lies where one of the payloads under `seqs` lies.
pub open spec fn held(received: Map<u32, Seq<u8>>, seqs: Seq<u32>, byte: int) -> bool {
    exists|i: int|
        0 <= i < seqs.len() && within(range_of(#[trigger] seqs[i], received[seqs[i]]), byte)
}

/// The ranges come in order, and no two of them touch.
pub open spec fn separate(ranges: Seq<ByteRange>) -> bool {
    forall|i: int, j: int| 0 <= i < j < ranges.len() ==> ranges[i].end < ranges[j].start
}

proof fn lemma_merged(received: Map<u32, Seq<u8>>, seqs: Seq<u32>)
    requires
        store::increasing(seqs),
        forall|i: int|
            0 <= i < seqs.len() ==> (#[trigger] seqs[i]) > 0 && received[seqs[i]].len()
                <= MAX_PAYLOAD,
    ensures
        separate(merged_ranges(received, seqs)),
        forall|i: int|
            0 <= i < merged_ranges(received, seqs).len() ==> (#[trigger] merged_ranges(
                received,
                seqs,
            )[i]).start <= merged_ranges(received, seqs)[i].end,
        seqs.len() > 0 ==> merged_ranges(received, seqs).len() > 0 && merged_ranges(
            received,
            seqs,
        ).last().end == range_of(seqs.last(), received[seqs.last()]).end,
        seqs.len() == 0 ==> merged_ranges(received, seqs).len() == 0,
        forall|byte: int| #[trigger]
            recorded(merged_ranges(received, seqs), byte) <==> held(received, seqs, byte),
    decreases seqs.len(),
{
    if seqs.len() > 0 {
        let before = seqs.drop_last();
        let seq = seqs.last();
        let rest = merged_ranges(received, before);
        let all = merged_ranges(received, seqs);
        let r = range_of(seq, received[seq]);
        lemma_merged(received, before);
        assert(seqs[seqs.len() - 1] == seq);
        if before.len() > 0 {
            assert(before.last() == seqs[seqs.len() - 2]);
            assert(rest.last().end <= r.start);
        }
        let n = rest.len() as int;
        let joins = n > 0 && rest.last().end == r.start;
        assert forall|i: int, j: int| 0 <= i < j < all.len() implies all[i].end < all[j].start by {
            if !joins && j == n && i < n - 1 {
                assert(rest[i].end < rest[n - 1].start);
            }
        }
        assert forall|byte: int| #[trigger] recorded(all, byte) <==> held(received, seqs, byte) by {
            if recorded(all, byte) {
                let i = choose|i: int| 0 <= i < all.len() && within(#[trigger] all[i], byte);
                if i == all.len() - 1 && within(r, byte) {
                    assert(within(range_of(seqs[seqs.len() - 1], received[seq]), byte));
                } else {
                    assert(within(rest[i], byte));
                    assert(recorded(rest, byte));
                    let k = choose|k: int|
                        0 <= k < before.len() && within(
                            range_of(#[trigger] before[k], received[before[k]]),
                            byte,
                        );
                    assert(seqs[k] == before[k]);
                }
            }
            if held(received, seqs, byte) {
                let k = choose|k: int|
                    0 <= k < seqs.len() && within(
                        range_of(#[trigger] seqs[k], received[seqs[k]]),
                        byte,
                    );
                if k == seqs.len() - 1 {
                    assert(within(all[all.len() - 1], byte));
                } else {
                    assert(before[k] == seqs[k]);
                    assert(held(received, before, byte));
                    assert(recorded(rest, byte));
                    let i = choose|i: int| 0 <= i < rest.len() && within(#[trigger] rest[i], byte);
                    assert(within(all[i], byte));
                }
            }
        }
    }
}

/// The record of a partial file holds the bytes of the payloads that came and no others, in
/// as few ranges as can be: they come in order, and no two of them touch.
pub proof fn lemma_sidecar_exact(received: Map<u32, Seq<u8>>)
    requires
        !received.contains_key(0),
        forall|s: u32| #[trigger] received.contains_key(s) ==> received[s].len() <= MAX_PAYLOAD,
    ensures
        separate(merged_ranges(received, store::ascending(received.dom()))),
        forall|byte: int| #[trigger]
            recorded(merged_ranges(received, store::ascending(received.dom())), byte) <==> exists|
                s: u32,
            | #[trigger]
                received.contains_key(s) && within(range_of(s, received[s]), byte),
{
    let seqs = store::ascending(received.dom());
    store::lemma_members_below(received.dom(), 0x1_0000_0000);
    assert forall|i: int| 0 <= i < seqs.len() implies (#[trigger] seqs[i]) > 0
        && received[seqs[i]].len() <= MAX_PAYLOAD by {
        assert(seqs.contains(seqs[i]));
    }
    lemma_merged(received, seqs);
    assert forall|byte: int| #[trigger]
        recorded(merged_ranges(received, seqs), byte) <==> exists|s: u32| #[trigger]
            received.contains_key(s) && within(range_of(s, received[s]), byte) by {
        if held(received, seqs, byte) {
            let k = choose|k: int|
                0 <= k < seqs.len() && within(range_of(#[trigger] seqs[k], received[seqs[k]]), byte);
            assert(seqs.contains(seqs[k]));
            assert(received.contains_key(seqs[k]));
        }
        if exists|s: u32| #[trigger]
            received.contains_key(s) && within(range_of(s, received[s]), byte) {
            let s = choose|s: u32| #[trigger]
                received.contains_key(s) && within(range_of(s, received[s]), byte);
            assert(received.dom().contains(s));
            assert(seqs.contains(s));
            let k = choose|k: int| 0 <= k < seqs.len() && seqs[k] == s;
            assert(within(range_of(seqs[k], received[seqs[k]]), byte));
        }
    }
}

/// As much is written as was received, cut off at the size of the file where it is known.
pub proof fn lemma_written_length(received: Map<u32, Seq<u8>>, size: u64)
    ensures
        file_bytes(received, None) == joined(received, 0xffff_ffff),
        joined(received, 0xffff_ffff).len() <= size ==> file_bytes(received, Some(size)) == joined(
            received,
            0xffff_ffff,
        ),
        joined(received, 0xffff_ffff).len() >= size ==> file_bytes(received, Some(size)).len()
            == size,
{
}

/// Full payloads stand one behind the other.
proof fn lemma_full_payloads(received: Map<u32, Seq<u8>>, n: nat, len: nat)
    requires
        n <= u32::MAX,
        forall|q: u32| 1 <= q <= n ==> #[trigger] received.contains_key(q) && received[q].len() == len,
    ensures
        joined(received, n).len() == n * len,
    decreases n,
{
    if n > 0 {
        lemma_full_payloads(received, (n - 1) as nat, len);
        assert(received.contains_key(n as u32));
        assert((n - 1) * len + len == n * len) by (nonlinear_arith);
    } else {
        assert(n * len == 0) by (nonlinear_arith)
            requires
                n == 0,
        ;
    }
}

/// Every byte that was received is written where it belongs: once all packets before it are
/// there, each with a payload of `len` bytes, byte `x` of the packet with number `s` is byte
/// `(s - 1) * len + x` of what is written.
pub proof fn lemma_byte_in_place(
    received: Map<u32, Seq<u8>>,
    size: Option<u64>,
    len: nat,
    s: u32,
    x: int,
)
    requires
        s >= 1,
        received.contains_key(s),
        0 <= x < received[s].len(),
        forall|q: u32| 1 <= q < s ==> #[trigger] received.contains_key(q) && received[q].len() == len,
        size matches Some(n) ==> (s - 1) * len + x < n,
    ensures
        (s - 1) * len + x < file_bytes(received, size).len(),
        file_bytes(received, size)[(s - 1) * len + x] == received[s][x],
{
    lemma_full_payloads(received, (s - 1) as nat, len);
    let at = (s - 1) * len + x;
    let part = joined(received, s as nat);
    assert(part == joined(received, (s - 1) as nat) + received[s]);
    assert(part[at] == received[s][x]);
    lemma_joined_prefix(received, s as nat, u32::MAX as nat);
    let all = joined(received, u32::MAX as nat);
    assert(all[at] == all.take(part.len() as int)[at]);
}

/// Where the record places a payload: the payload with number `s` begins `1200 * (s - 1)`
/// bytes into the file, which is where it lies when all before it are full, and it is as long
/// there as it is.
pub proof fn lemma_range_placed(s: u32, data: Seq<u8>)
    requires
        data.len() <= 65_535,
    ensures
        s >= 1 ==> range_of(s, data).start == 1200 * (s - 1),
        s == 0 ==> range_of(s, data).start == 0,
        range_of(s, data).end - range_of(s, data).start == data.len(),
{
}

} // verus!
