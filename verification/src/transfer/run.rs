//! A whole run of the sender: the packets that a file brings about, from the first chunk
//! to the FIN, and what the receiver makes of them.

use crate::buffer;
use crate::protocol::fec;
use crate::protocol::fec::FecMode;
use crate::protocol::packet;
use crate::protocol::packet::{Header, PacketFlags};
use crate::protocol::rlnc;
use crate::transfer::crypto;
use crate::transfer::crypto::CryptoError;
use crate::transfer::integrity;
use crate::transfer::integrity::Transfer;
use crate::transfer::layout;
use crate::transfer::output;
use crate::transfer::receiver;
use crate::transfer::receiver::ReceiverView;
use crate::transfer::send_loop::SendView;
use crate::transfer::sender;
use crate::transfer::sender::{DataPacket, SenderView};
use vstd::prelude::*;

verus! {

/// A chunk, the payload of its data packet, and the packets of redundancy that it brought
/// about.
pub struct Step {
    pub chunk: Seq<u8>,
    pub payload: Seq<u8>,
    pub wires: Seq<Vec<u8>>,
    pub now_us: u64,
}

/// How many chunks go together into packets of redundancy.
pub open spec fn group(v: SenderView) -> nat {
    if !v.fec_enabled {
        1
    } else {
        let n = if v.fec_mode == FecMode::Xor {
            v.block
        } else {
            v.generation_size
        };
        if n == 0 {
            1
        } else {
            n
        }
    }
}

/// How many packets of redundancy go with a group of chunks.
pub open spec fn per_group(v: SenderView) -> nat {
    if !v.fec_enabled {
        0
    } else if v.fec_mode == FecMode::Xor {
        1
    } else {
        sender::redundancy(group(v))
    }
}

/// The sequence number of chunk `i`.
pub open spec fn number(v: SenderView, i: int) -> int {
    i + i / (group(v) as int) * per_group(v) + 1
}

/// The state after a chunk was sent, as `Sending` leaves it.
pub open spec fn stepped(u: SenderView, s: Step) -> SenderView {
    u.numbered().kept(u.next_seq, sender::data_wire(u.next_seq, s.payload), s.now_us).protected(
        u.next_seq,
        s.payload,
    ).kept_all(u.numbered().next_seq, s.wires, s.now_us)
}

/// The state after a number of chunks.
pub open spec fn after(v: SenderView, steps: Seq<Step>) -> SenderView
    decreases steps.len(),
{
    if steps.len() == 0 {
        v.begun()
    } else {
        stepped(after(v, steps.drop_last()), steps.last())
    }
}

/// What is sent of a chunk is what the sender makes of it in this state.
pub open spec fn step_valid(u: SenderView, s: Step) -> bool {
    &&& u.can_number(1)
    &&& u.numbered().can_number(u.numbered().redundancy_due())
    &&& crypto::payload_for(u.key, s.chunk, s.payload)
    &&& crypto::decrypted(u.key, s.payload) == Ok::<Seq<u8>, CryptoError>(s.chunk)
    &&& u.numbered().protection(u.next_seq, s.payload, s.wires)
}

/// All of it is, from a sender that no transfer left in the middle of a block or a
/// generation.
pub open spec fn valid(v: SenderView, steps: Seq<Step>) -> bool
    decreases steps.len(),
{
    if steps.len() == 0 {
        v.idle()
    } else {
        valid(v, steps.drop_last()) && step_valid(after(v, steps.drop_last()), steps.last())
    }
}

/// The chunks that were sent.
pub open spec fn chunks(steps: Seq<Step>) -> Seq<Seq<u8>> {
    steps.map_values(|s: Step| s.chunk)
}

/// Chunks one after the other.
pub open spec fn concat(chunks: Seq<Seq<u8>>) -> Seq<u8>
    decreases chunks.len(),
{
    if chunks.len() == 0 {
        Seq::empty()
    } else {
        concat(chunks.drop_last()) + chunks.last()
    }
}

/// The payloads of `n` chunks from chunk `from` on.
pub open spec fn payloads(steps: Seq<Step>, from: int, n: nat) -> Seq<Seq<u8>> {
    Seq::new(n, |i: int| steps[from + i].payload)
}

/// The encoders hold the payloads of the last chunks, those that are no full group yet.
pub open spec fn on_track(v: SenderView, u: SenderView, steps: Seq<Step>) -> bool {
    let m = steps.len() as int;
    let p = (m % (group(v) as int)) as nat;
    let held = payloads(steps, m - p, p);
    &&& u.fec_enabled == v.fec_enabled
    &&& u.fec_mode == v.fec_mode
    &&& u.block == v.block
    &&& u.generation_size == v.generation_size
    &&& u.key == v.key
    &&& u.next_seq == number(v, m)
    &&& v.fec_enabled && v.fec_mode == FecMode::Xor ==> u.block_payloads == held
    &&& v.fec_enabled && v.fec_mode == FecMode::Rlnc ==> {
        &&& u.source_size == fec::longest(held)
        &&& u.source == Seq::new(p, |i: int| buffer::padded(held[i], u.source_size))
        &&& u.source_seqs == Seq::new(p, |i: int| number(v, m - p + i) as u32)
    }
}

// ---------------------------------------------------------------------------
// Numbers
// ---------------------------------------------------------------------------

/// From one chunk to the next.
proof fn lemma_number_step(v: SenderView, i: int)
    requires
        i >= 0,
    ensures
        ({
            let g = group(v) as int;
            let ends = i % g + 1 == g;
            &&& number(v, i + 1) == number(v, i) + 1 + (if ends {
                per_group(v) as int
            } else {
                0
            })
            &&& (i + 1) % g == (if ends {
                0
            } else {
                i % g + 1
            })
            &&& (i + 1) / g == i / g + (if ends {
                1int
            } else {
                0
            })
        }),
{
    let g = group(v) as int;
    let r = per_group(v) as int;
    let q = i / g;
    let x = i % g;
    vstd::arithmetic::div_mod::lemma_fundamental_div_mod(i, g);
    vstd::arithmetic::div_mod::lemma_mod_bound(i, g);
    assert(g * q == q * g) by (nonlinear_arith);
    assert(i + 1 == q * g + (x + 1));
    if x + 1 == g {
        assert((q + 1) * g == q * g + g) by (nonlinear_arith);
        vstd::arithmetic::div_mod::lemma_fundamental_div_mod_converse(i + 1, g, q + 1, 0);
        assert((q + 1) * r == q * r + r) by (nonlinear_arith);
    } else {
        vstd::arithmetic::div_mod::lemma_fundamental_div_mod_converse(i + 1, g, q, x + 1);
    }
}

/// Numbers grow.
proof fn lemma_number_grows(v: SenderView, i: int, j: int)
    requires
        0 <= i <= j,
    ensures
        1 <= number(v, i),
        number(v, i) + (j - i) <= number(v, j),
        i < j && i % (group(v) as int) + 1 == group(v) ==> number(v, i) + per_group(v) < number(
            v,
            j,
        ),
    decreases j - i,
{
    if i == j {
        let q = i / (group(v) as int);
        let r = per_group(v);
        vstd::arithmetic::div_mod::lemma_div_pos_is_pos(i, group(v) as int);
        assert(q * r >= 0) by (nonlinear_arith)
            requires
                q >= 0,
                r >= 0,
        ;
    } else {
        lemma_number_step(v, i);
        lemma_number_grows(v, i + 1, j);
    }
}

/// Chunks of one group have numbers one after the other, and groups start at regular
/// places.
proof fn lemma_number_group(v: SenderView, j: int, x: int)
    requires
        j >= 0,
        0 <= x < group(v),
    ensures
        number(v, j * group(v) + x) == number(v, j * group(v)) + x,
        number(v, j * group(v)) == j * (group(v) + per_group(v)) + 1,
        (j * group(v) + x) % (group(v) as int) == x,
        (j * group(v) + x) / (group(v) as int) == j,
        j * group(v) >= 0,
{
    let g = group(v) as int;
    let r = per_group(v) as int;
    assert(j * g == g * j) by (nonlinear_arith);
    assert(j * g >= 0) by (nonlinear_arith)
        requires
            j >= 0,
            g >= 0,
    ;
    vstd::arithmetic::div_mod::lemma_fundamental_div_mod_converse(j * g + x, g, j, x);
    vstd::arithmetic::div_mod::lemma_fundamental_div_mod_converse(j * g, g, j, 0);
    assert(j * (g + r) == j * g + j * r) by (nonlinear_arith);
}

/// A position in the file is one in its group.
proof fn lemma_position(v: SenderView, i: int)
    requires
        i >= 0,
    ensures
        i == i / (group(v) as int) * group(v) + i % (group(v) as int),
        0 <= i % (group(v) as int) < group(v),
        i / (group(v) as int) >= 0,
{
    let g = group(v) as int;
    vstd::arithmetic::div_mod::lemma_fundamental_div_mod(i, g);
    vstd::arithmetic::div_mod::lemma_div_pos_is_pos(i, g);
    assert(g * (i / g) == i / g * g) by (nonlinear_arith);
}

// ---------------------------------------------------------------------------
// The state of the sender
// ---------------------------------------------------------------------------

/// A run up to a chunk is a run.
proof fn lemma_valid_part(v: SenderView, steps: Seq<Step>, n: int)
    requires
        valid(v, steps),
        0 <= n <= steps.len(),
    ensures
        valid(v, steps.take(n)),
        n < steps.len() ==> step_valid(after(v, steps.take(n)), steps[n]),
    decreases steps.len(),
{
    if n == steps.len() {
        assert(steps.take(n) =~= steps);
    } else {
        let rest = steps.drop_last();
        assert(rest.take(n) =~= steps.take(n));
        if n == rest.len() {
            assert(steps.take(n) =~= rest);
        } else {
            lemma_valid_part(v, rest, n);
        }
        lemma_valid_part(v, rest, n);
    }
}

/// A payload that starts a generation or goes on with it.
proof fn lemma_source_fed(
    v: SenderView,
    u: SenderView,
    held: Seq<Seq<u8>>,
    seq: u32,
    payload: Seq<u8>,
)
    requires
        u.source_size == fec::longest(held),
        u.source == Seq::new(held.len(), |i: int| buffer::padded(held[i], u.source_size)),
    ensures
        ({
            let w = u.source_fed(seq, payload);
            let next = held.push(payload);
            &&& w.source_size == fec::longest(next)
            &&& w.source == Seq::new(next.len(), |i: int| buffer::padded(next[i], w.source_size))
        }),
{
    let w = u.source_fed(seq, payload);
    let next = held.push(payload);
    assert(next.drop_last() =~= held);
    fec::lemma_beyond_longest(held);
    assert(w.source_size == fec::longest(next));
    assert forall|i: int| 0 <= i < next.len() implies #[trigger] w.source[i] == buffer::padded(
        next[i],
        w.source_size,
    ) by {
        if i < held.len() {
            assert(held[i].len() <= fec::longest(held));
            assert(buffer::padded(buffer::padded(held[i], u.source_size), w.source_size)
                =~= buffer::padded(held[i], w.source_size));
        }
    }
    assert(w.source =~= Seq::new(next.len(), |i: int| buffer::padded(next[i], w.source_size)));
}

/// As many packets of redundancy come as are due.
proof fn lemma_wire_count(u: SenderView, seq: u32, payload: Seq<u8>, wires: Seq<Vec<u8>>)
    requires
        u.protection(seq, payload, wires),
    ensures
        wires.len() == u.redundancy_due(),
{
    assert(u.source_fed(seq, payload).source.len() == u.source.len() + 1);
}

/// The redundancy that a chunk brings about depends on its place in the group.
proof fn lemma_due(v: SenderView, u: SenderView, steps: Seq<Step>)
    requires
        on_track(v, u, steps),
    ensures
        u.numbered().redundancy_due() == (if steps.len() as int % (group(v) as int) + 1 == group(
            v,
        ) {
            per_group(v)
        } else {
            0
        }),
{
    lemma_position(v, steps.len() as int);
}

/// What is kept does not matter to what comes next.
proof fn lemma_stepped_shape(u: SenderView, s: Step)
    requires
        step_valid(u, s),
    ensures
        stepped(u, s) == (SenderView {
            sent: stepped(u, s).sent,
            ..u.numbered().protected(u.next_seq, s.payload)
        }),
{
    let seq = u.next_seq;
    let k = u.numbered().kept(seq, sender::data_wire(seq, s.payload), s.now_us);
    let w = k.protected(seq, s.payload);
    lemma_wire_count(u.numbered(), seq, s.payload, s.wires);
    sender::lemma_redundancy_kept(w, u.numbered().next_seq, s.wires, s.now_us);
    let a = k.source_fed(seq, s.payload);
    let b = u.numbered().source_fed(seq, s.payload);
    assert(a == (SenderView { sent: a.sent, ..b }));
    assert(w == (SenderView { sent: w.sent, ..u.numbered().protected(seq, s.payload) }));
}

proof fn lemma_track_xor(v: SenderView, u: SenderView, rest: Seq<Step>, s: Step)
    requires
        on_track(v, u, rest),
        step_valid(u, s),
        v.fec_enabled,
        v.fec_mode == FecMode::Xor,
    ensures
        on_track(v, stepped(u, s), rest.push(s)),
{
    let m = rest.len() as int;
    let steps = rest.push(s);
    lemma_stepped_shape(u, s);
    lemma_number_step(v, m);
    lemma_position(v, m);
    let z = stepped(u, s);
    let p = (m % (group(v) as int)) as nat;
    let held = payloads(rest, m - p, p);
    assert(held.push(s.payload) =~= payloads(steps, m - p, p + 1));
    if p + 1 == group(v) {
        assert(u.numbered().completes_block());
        assert(z.block_payloads =~= payloads(steps, m + 1, 0));
    } else {
        assert(!u.numbered().completes_block());
    }
}

proof fn lemma_track_rlnc(v: SenderView, u: SenderView, rest: Seq<Step>, s: Step)
    requires
        on_track(v, u, rest),
        step_valid(u, s),
        v.fec_enabled,
        v.fec_mode == FecMode::Rlnc,
    ensures
        on_track(v, stepped(u, s), rest.push(s)),
{
    let m = rest.len() as int;
    let steps = rest.push(s);
    lemma_stepped_shape(u, s);
    lemma_number_step(v, m);
    lemma_position(v, m);
    let z = stepped(u, s);
    let p = (m % (group(v) as int)) as nat;
    let held = payloads(rest, m - p, p);
    let next = held.push(s.payload);
    assert(next =~= payloads(steps, m - p, p + 1));
    let k = u.numbered();
    lemma_source_fed(v, k, held, u.next_seq, s.payload);
    let fed = k.source_fed(u.next_seq, s.payload);
    assert(fed.source_seqs =~= Seq::new((p + 1) as nat, |i: int| number(v, m - p + i) as u32));
    if p + 1 == group(v) {
        assert(fed.completes_generation());
        assert(payloads(steps, m + 1, 0) =~= Seq::<Seq<u8>>::empty());
        assert(z.source =~= Seq::new(0, |i: int| buffer::padded(payloads(steps, m + 1, 0)[i], 0)));
        assert(z.source_seqs =~= Seq::new(0, |i: int| number(v, m + 1 + i) as u32));
    } else {
        assert(!fed.completes_generation());
    }
}

/// Throughout the run the encoders are on track.
proof fn lemma_on_track(v: SenderView, steps: Seq<Step>)
    requires
        valid(v, steps),
    ensures
        on_track(v, after(v, steps), steps),
    decreases steps.len(),
{
    let m = steps.len() as int;
    if m == 0 {
        let u = after(v, steps);
        lemma_number_group(v, 0, 0);
        assert(0 * group(v) == 0) by (nonlinear_arith);
        assert(0 * (group(v) + per_group(v)) == 0) by (nonlinear_arith);
        assert(payloads(steps, 0, 0) =~= Seq::<Seq<u8>>::empty());
        assert(u.source =~= Seq::new(0, |i: int| buffer::padded(payloads(steps, 0, 0)[i], 0)));
        let p = (m % (group(v) as int)) as nat;
        assert(u.block_payloads =~= payloads(steps, m - p, p));
        assert(u.source_seqs =~= Seq::new(p, |i: int| number(v, m - p + i) as u32));
    } else {
        let rest = steps.drop_last();
        let s = steps.last();
        let u = after(v, rest);
        lemma_on_track(v, rest);
        assert(rest.push(s) =~= steps);
        if !v.fec_enabled {
            lemma_stepped_shape(u, s);
            lemma_number_step(v, m - 1);
        } else if v.fec_mode == FecMode::Xor {
            lemma_track_xor(v, u, rest, s);
        } else {
            lemma_track_rlnc(v, u, rest, s);
        }
    }
}

// ---------------------------------------------------------------------------
// The file that is sent
// ---------------------------------------------------------------------------

/// `q` is the number of one of the first `n` chunks.
pub open spec fn is_chunk(v: SenderView, n: nat, q: int) -> bool {
    exists|i: int| 0 <= i < n && #[trigger] number(v, i) == q
}

/// Which chunk has the number `q`.
pub open spec fn index(v: SenderView, n: nat, q: int) -> int {
    choose|i: int| 0 <= i < n && #[trigger] number(v, i) == q
}

/// `f` is the number of the first chunk of a group.
pub open spec fn is_first(v: SenderView, n: nat, f: int) -> bool {
    exists|j: int| 0 <= j && j * group(v) < n && #[trigger] number(v, j * group(v)) == f
}

/// Which group starts with the number `f`.
pub open spec fn group_index(v: SenderView, n: nat, f: int) -> int {
    choose|j: int| 0 <= j && j * group(v) < n && #[trigger] number(v, j * group(v)) == f
}

/// The size of group `j`.
pub open spec fn group_size(v: SenderView, n: nat, j: int) -> nat {
    if j * group(v) + group(v) <= n {
        group(v)
    } else {
        (n - j * group(v)) as nat
    }
}

/// The transfer that a run makes of a file.
pub open spec fn transfer_of(v: SenderView, steps: Seq<Step>) -> Transfer {
    let n = steps.len();
    Transfer {
        sent: Map::new(
            |q: u32| is_chunk(v, n, q as int),
            |q: u32| steps[index(v, n, q as int)].chunk,
        ),
        payloads: Map::new(
            |q: u32| is_chunk(v, n, q as int),
            |q: u32| steps[index(v, n, q as int)].payload,
        ),
        last: number(v, n - 1) as u32,
        groups: if v.fec_enabled {
            Map::new(
                |f: u32| is_first(v, n, f as int),
                |f: u32| group_size(v, n, group_index(v, n, f as int)),
            )
        } else {
            Map::empty()
        },
        slack: spare(v, steps),
    }
}

/// How much shorter the last chunk is than the one before it, if they go together into
/// packets of redundancy.
pub open spec fn spare(v: SenderView, steps: Seq<Step>) -> nat {
    let n = steps.len();
    let g = group(v) as int;
    if n >= 2 && (n - 1) / g == (n - 2) / g && steps[n - 1].chunk.len() < steps[n - 2].chunk.len() {
        (steps[n - 2].chunk.len() - steps[n - 1].chunk.len()) as nat
    } else {
        0
    }
}

/// Chunks that go together into packets of redundancy have one length, but the last chunk of
/// the file, which is no longer.
pub open spec fn even(v: SenderView, steps: Seq<Step>) -> bool {
    forall|i: int, j: int|
        0 <= i < steps.len() && 0 <= j < steps.len() - 1 && i / (group(v) as int) == j / (group(
            v,
        ) as int) ==> (#[trigger] steps[i]).chunk.len() <= (#[trigger] steps[j]).chunk.len()
}

/// No chunk is so short that the zeros behind a computed last chunk could be taken for it.
pub open spec fn roomy(v: SenderView, steps: Seq<Step>) -> bool {
    forall|i: int|
        0 <= i < steps.len() - 1 ==> (#[trigger] steps[i]).chunk.len() > spare(v, steps)
}

/// A chunk and its payload stand under their number.
proof fn lemma_chunk_at(v: SenderView, steps: Seq<Step>, i: int)
    requires
        0 <= i < steps.len(),
        number(v, steps.len() as int) <= u32::MAX,
    ensures
        1 <= number(v, i) < number(v, steps.len() as int),
        transfer_of(v, steps).sent.contains_key(number(v, i) as u32),
        transfer_of(v, steps).sent[number(v, i) as u32] == steps[i].chunk,
        transfer_of(v, steps).payloads[number(v, i) as u32] == steps[i].payload,
{
    let n = steps.len();
    lemma_number_grows(v, i, n as int);
    let q = number(v, i);
    assert(is_chunk(v, n, q));
    let j = index(v, n, q);
    assert(0 <= j < n && number(v, j) == q);
    if j < i {
        lemma_number_grows(v, j, i);
    } else {
        lemma_number_grows(v, i, j);
    }
}

/// The number of a packet of redundancy is not that of a chunk.
proof fn lemma_between(v: SenderView, n: nat, i: int, q: int)
    requires
        0 <= i < n,
        number(v, i) < q,
        q <= number(v, i) + per_group(v) && i % (group(v) as int) + 1 == group(v) || i == n - 1,
    ensures
        !is_chunk(v, n, q),
{
    if is_chunk(v, n, q) {
        let j = index(v, n, q);
        assert(0 <= j < n && number(v, j) == q);
        if j <= i {
            lemma_number_grows(v, j, i);
        } else {
            lemma_number_grows(v, i, j);
        }
    }
}

/// The payloads of a group stand under numbers one after the other.
proof fn lemma_block_at(v: SenderView, steps: Seq<Step>, j: int, n: nat)
    requires
        j >= 0,
        n <= group(v),
        j * group(v) + n <= steps.len(),
        number(v, steps.len() as int) <= u32::MAX,
    ensures
        transfer_of(v, steps).full(number(v, j * group(v)), n),
        transfer_of(v, steps).block(number(v, j * group(v)), n) == payloads(
            steps,
            j * group(v),
            n,
        ),
{
    let t = transfer_of(v, steps);
    let start = number(v, j * group(v));
    assert forall|x: int| 0 <= x < n implies t.sent.contains_key(#[trigger] ((start + x) as u32))
        && t.payloads[(start + x) as u32] == steps[j * group(v) + x].payload by {
        lemma_number_group(v, j, x);
        lemma_chunk_at(v, steps, j * group(v) + x);
    }
    assert(t.block(start, n) =~= payloads(steps, j * group(v), n));
}

/// Chunks follow one another in the file.
proof fn lemma_joined_chunks(v: SenderView, steps: Seq<Step>, n: nat)
    requires
        0 < n <= steps.len(),
        number(v, steps.len() as int) <= u32::MAX,
    ensures
        output::joined(transfer_of(v, steps).sent, number(v, n - 1) as nat)
            == concat(chunks(steps).take(n as int)),
    decreases n,
{
    let t = transfer_of(v, steps);
    let all = chunks(steps).take(n as int);
    lemma_chunk_at(v, steps, n - 1);
    let q = number(v, n - 1) as nat;
    assert(all.last() == steps[n - 1].chunk);
    assert(output::joined(t.sent, q) == output::joined(t.sent, (q - 1) as nat) + steps[n
        - 1].chunk);
    assert(concat(all) == concat(all.drop_last()) + all.last());
    if n == 1 {
        lemma_number_group(v, 0, 0);
        assert(0 * group(v) == 0) by (nonlinear_arith);
        assert(0 * (group(v) + per_group(v)) == 0) by (nonlinear_arith);
        assert(q == 1);
        assert(output::joined(t.sent, 0) == Seq::<u8>::empty());
        assert(all.drop_last() =~= Seq::<Seq<u8>>::empty());
    } else {
        lemma_joined_chunks(v, steps, (n - 1) as nat);
        assert(all.drop_last() =~= chunks(steps).take(n - 1));
        let before = number(v, n - 2) as nat;
        lemma_number_step(v, n - 2);
        lemma_number_grows(v, n - 2, n - 1);
        assert forall|x: u32| before < x <= q - 1 implies !t.sent.contains_key(x) by {
            if is_chunk(v, steps.len(), x as int) {
                let j = index(v, steps.len(), x as int);
                assert(0 <= j < steps.len() && number(v, j) == x);
                if j <= n - 2 {
                    lemma_number_grows(v, j, n - 2);
                } else {
                    lemma_number_grows(v, n - 1, j);
                }
            }
        }
        lemma_joined_gap(t.sent, before, (q - 1) as nat);
    }
}

proof fn lemma_joined_gap(m: Map<u32, Seq<u8>>, a: nat, b: nat)
    requires
        a <= b,
        forall|x: u32| a < x <= b ==> !m.contains_key(x),
    ensures
        output::joined(m, b) == output::joined(m, a),
    decreases b,
{
    if a < b {
        lemma_joined_gap(m, a, (b - 1) as nat);
    }
}

/// No chunk is empty, and none is longer than what leaves room in a datagram.
pub open spec fn fitting(v: SenderView, steps: Seq<Step>) -> bool {
    forall|i: int|
        0 <= i < steps.len() ==> 0 < (#[trigger] steps[i]).chunk.len() <= v.chunk_room()
}

/// A run of the sender is a transfer of its chunks.
pub proof fn lemma_run_is_transfer(v: SenderView, steps: Seq<Step>)
    requires
        valid(v, steps),
        steps.len() > 0,
        number(v, steps.len() as int) <= u32::MAX,
        fitting(v, steps),
    ensures
        transfer_of(v, steps).wf(v.key),
        transfer_of(v, steps).file() == concat(chunks(steps)),
{
    let t = transfer_of(v, steps);
    let n = steps.len();
    lemma_chunk_at(v, steps, n - 1);
    assert forall|q: u32| #[trigger] t.sent.contains_key(q) implies {
        &&& 1 <= q <= t.last
        &&& t.sent[q].len() > 0
        &&& crypto::contents(v.key, t.payloads[q]) == Some(t.sent[q])
    } by {
        assert(is_chunk(v, n, q as int));
        let i = index(v, n, q as int);
        assert(0 <= i < n && number(v, i) == q);
        lemma_number_grows(v, i, n - 1);
        lemma_valid_part(v, steps, i);
        lemma_on_track(v, steps.take(i));
        assert(steps[i].chunk.len() > 0);
    }
    assert(t.groups_full()) by {
        assert forall|f: u32| #[trigger] t.groups.contains_key(f) implies 0 < t.groups[f] && f
            + t.groups[f] <= u32::MAX && t.full(f as int, t.groups[f]) by {
            assert(is_first(v, n, f as int));
            let j = group_index(v, n, f as int);
            assert(0 <= j && j * group(v) < n && number(v, j * group(v)) == f);
            let k = group_size(v, n, j);
            lemma_block_at(v, steps, j, k);
            lemma_number_group(v, j, k - 1);
            lemma_number_grows(v, j * group(v) + (k - 1), n as int);
        }
    }
    lemma_joined_chunks(v, steps, n);
    assert(chunks(steps).take(n as int) =~= chunks(steps));
}

// ---------------------------------------------------------------------------
// The packets of the run are genuine
// ---------------------------------------------------------------------------

/// The receiver is set up as the sender is.
pub open spec fn matches(v: SenderView, s: ReceiverView) -> bool {
    &&& s.key == v.key
    &&& s.layout.fec_enabled == v.fec_enabled
    &&& s.fec_mode == v.fec_mode
    &&& v.fec_enabled && v.fec_mode == FecMode::Xor ==> s.layout.fec_block_size == v.block
}

/// What a run has to meet: there are sequence numbers for all of it, its chunks have room in
/// a datagram, and `tail` is the redundancy left at the end.
pub open spec fn whole_run(v: SenderView, steps: Seq<Step>, tail: Seq<Vec<u8>>) -> bool {
    let u = after(v, steps);
    &&& steps.len() > 0
    &&& valid(v, steps)
    &&& u.remainder(tail)
    &&& number(v, steps.len() as int) + u.redundancy_left() + group(v) < u32::MAX
    &&& v.reserve() < packet::MAX_PAYLOAD
    &&& fitting(v, steps)
}

/// The datagrams of a run: the data packets, the packets of redundancy, and the FIN.
pub open spec fn is_datagram(
    v: SenderView,
    steps: Seq<Step>,
    tail: Seq<Vec<u8>>,
    data: Seq<u8>,
) -> bool {
    ||| exists|i: int|
        0 <= i < steps.len() && data == #[trigger] sender::data_wire(
            number(v, i) as u32,
            steps[i].payload,
        )
    ||| exists|i: int, x: int|
        0 <= i < steps.len() && 0 <= x < steps[i].wires.len() && data == (
        #[trigger] steps[i].wires[x])@
    ||| exists|x: int| 0 <= x < tail.len() && data == (#[trigger] tail[x])@
    ||| data == fin_wire(after(v, steps).flushed().next_seq)
}

/// The bytes of a FIN.
pub open spec fn fin_wire(seq: u32) -> Seq<u8> {
    packet::wire(
        Header { seq, flags: PacketFlags { bits: PacketFlags::FIN }, payload_len: 0 },
        Seq::empty(),
    )
}

/// What the receiver takes a datagram for is genuine, it can be numbered, and it has room
/// where it is received.
pub open spec fn arrives_well(t: Transfer, s: ReceiverView, data: Seq<u8>) -> bool {
    &&& packet::readable(data)
    &&& data.len() <= packet::MAX_PACKET_SIZE
    &&& s.numbered(packet::header_of(data))
    &&& integrity::genuine(t, s, packet::header_of(data), packet::payload_of(data))
}

proof fn bits_flags()
    by (bit_vector)
    ensures
        0x01u16 & 0x01u16 == 0x01u16,
        0x10u16 & 0x01u16 != 0x01u16,
        0x10u16 & 0x10u16 == 0x10u16,
        0x04u16 & 0x01u16 != 0x01u16,
        0x04u16 & 0x10u16 != 0x10u16,
        0x04u16 & 0x04u16 == 0x04u16,
{
}

/// The numbers of a run stay within the range of block arithmetic.
proof fn lemma_in_range(v: SenderView, steps: Seq<Step>, tail: Seq<Vec<u8>>, s: ReceiverView, seq: u32)
    requires
        whole_run(v, steps, tail),
        matches(v, s),
        1 <= seq <= number(v, steps.len() as int) + after(v, steps).redundancy_left(),
        s.uses_xor(),
    ensures
        s.layout.in_range(seq),
        s.layout.block() == v.block,
{
    let l = s.layout;
    vstd::arithmetic::div_mod::lemma_small_mod(v.block, 0x1_0000_0000);
    layout::lemma_blocks(l, seq);
}

/// Payloads have room in a packet.
proof fn lemma_payload_fits(v: SenderView, steps: Seq<Step>, tail: Seq<Vec<u8>>, i: int)
    requires
        whole_run(v, steps, tail),
        0 <= i < steps.len(),
    ensures
        steps[i].payload.len() == steps[i].chunk.len() + crypto::overhead(v.key),
        steps[i].payload.len() <= v.chunk_room() + crypto::overhead(v.key),
        step_valid(after(v, steps.take(i)), steps[i]),
        on_track(v, after(v, steps.take(i)), steps.take(i)),
{
    lemma_valid_part(v, steps, i);
    lemma_on_track(v, steps.take(i));
    assert(steps[i].chunk.len() <= v.chunk_room());
}

proof fn lemma_longest_fits(
    v: SenderView,
    steps: Seq<Step>,
    tail: Seq<Vec<u8>>,
    from: int,
    n: nat,
)
    requires
        whole_run(v, steps, tail),
        0 <= from,
        from + n <= steps.len(),
    ensures
        fec::longest(payloads(steps, from, n)) <= v.chunk_room() + crypto::overhead(v.key),
    decreases n,
{
    if n > 0 {
        let list = payloads(steps, from, n);
        assert(list.drop_last() =~= payloads(steps, from, (n - 1) as nat));
        lemma_longest_fits(v, steps, tail, from, (n - 1) as nat);
        lemma_payload_fits(v, steps, tail, from + n - 1);
    }
}

/// The header of a data packet is found in its bytes.
proof fn lemma_data_header(v: SenderView, steps: Seq<Step>, tail: Seq<Vec<u8>>, i: int)
    requires
        whole_run(v, steps, tail),
        0 <= i < steps.len(),
    ensures
        packet::header_of(sender::data_wire(number(v, i) as u32, steps[i].payload)).seq
            == number(v, i) as u32,
        packet::header_of(sender::data_wire(number(v, i) as u32, steps[i].payload)).flags.bits
            == PacketFlags::DATA,
        packet::payload_of(sender::data_wire(number(v, i) as u32, steps[i].payload))
            == steps[i].payload,
        packet::readable(sender::data_wire(number(v, i) as u32, steps[i].payload)),
{
    let payload = steps[i].payload;
    lemma_payload_fits(v, steps, tail, i);
    packet::lemma_wire_parts(
        Header {
            seq: number(v, i) as u32,
            flags: PacketFlags { bits: PacketFlags::DATA },
            payload_len: packet::len16(payload.len()),
        },
        payload,
    );
}

/// A data packet arrives well.
proof fn lemma_data_arrives(
    v: SenderView,
    steps: Seq<Step>,
    tail: Seq<Vec<u8>>,
    s: ReceiverView,
    i: int,
)
    requires
        whole_run(v, steps, tail),
        matches(v, s),
        0 <= i < steps.len(),
    ensures
        arrives_well(
            transfer_of(v, steps),
            s,
            sender::data_wire(number(v, i) as u32, steps[i].payload),
        ),
{
    lemma_chunk_at(v, steps, i);
    lemma_payload_fits(v, steps, tail, i);
    bits_flags();
    lemma_data_header(v, steps, tail, i);
    if s.uses_xor() {
        lemma_in_range(v, steps, tail, s, number(v, i) as u32);
    }
}

/// The parity of a group, or of the start of one, arrives well.
proof fn lemma_parity_arrives(
    v: SenderView,
    steps: Seq<Step>,
    tail: Seq<Vec<u8>>,
    s: ReceiverView,
    j: int,
    n: nat,
)
    requires
        whole_run(v, steps, tail),
        matches(v, s),
        v.fec_enabled,
        v.fec_mode == FecMode::Xor,
        j >= 0,
        0 < n <= group(v),
        j * group(v) + n <= steps.len(),
        n == group_size(v, steps.len(), j),
        number(v, j * group(v)) + n <= number(v, steps.len() as int)
            + after(v, steps).redundancy_left(),
        !is_chunk(v, steps.len(), number(v, j * group(v)) + n),
    ensures
        arrives_well(
            transfer_of(v, steps),
            s,
            sender::fec_wire(
                (number(v, j * group(v)) + n) as u32,
                fec::parity_of(payloads(steps, j * group(v), n)),
            ),
        ),
{
    let t = transfer_of(v, steps);
    let g = group(v) as int;
    let start = number(v, j * group(v));
    let seq = (start + n) as u32;
    let payload = fec::parity_of(payloads(steps, j * group(v), n));
    lemma_number_group(v, j, 0);
    lemma_number_grows(v, j * group(v), steps.len() as int);
    lemma_longest_fits(v, steps, tail, j * group(v), n);
    lemma_block_at(v, steps, j, n);
    lemma_group_at(v, steps, j);
    lemma_in_range(v, steps, tail, s, seq);
    bits_flags();
    packet::lemma_wire_parts(
        Header {
            seq,
            flags: PacketFlags { bits: PacketFlags::FEC },
            payload_len: packet::len16(payload.len()),
        },
        payload,
    );
    let l = s.layout;
    if v.block > 0 {
        assert(l.stride() == g + 1);
        assert(j * (g + 1) == (g + 1) * j) by (nonlinear_arith);
        vstd::arithmetic::div_mod::lemma_fundamental_div_mod_converse(
            seq - 1,
            g + 1,
            j,
            n as int,
        );
        assert(l.start(seq) == start);
    }
    assert(!t.sent.contains_key(seq));
}

/// The size of a group is told by the number of its first chunk.
proof fn lemma_group_at(v: SenderView, steps: Seq<Step>, j: int)
    requires
        v.fec_enabled,
        j >= 0,
        j * group(v) < steps.len(),
        number(v, steps.len() as int) <= u32::MAX,
    ensures
        transfer_of(v, steps).groups.contains_key(number(v, j * group(v)) as u32),
        transfer_of(v, steps).groups[number(v, j * group(v)) as u32] == group_size(
            v,
            steps.len(),
            j,
        ),
{
    let n = steps.len();
    let f = number(v, j * group(v));
    lemma_number_group(v, j, 0);
    lemma_number_grows(v, j * group(v), n as int);
    assert(is_first(v, n, f));
    let k = group_index(v, n, f);
    assert(0 <= k && k * group(v) < n && number(v, k * group(v)) == f);
    lemma_number_group(v, k, 0);
    let w = (group(v) + per_group(v)) as int;
    assert(j == k) by (nonlinear_arith)
        requires
            j * w == k * w,
            w > 0,
    ;
}

/// What the encoder holds of a group is what the receiver solves for.
proof fn lemma_coded_source(
    v: SenderView,
    steps: Seq<Step>,
    tail: Seq<Vec<u8>>,
    u: SenderView,
    j: int,
    k: nat,
)
    requires
        whole_run(v, steps, tail),
        v.fec_enabled,
        v.fec_mode == FecMode::Rlnc,
        j >= 0,
        j * group(v) < steps.len(),
        k == group_size(v, steps.len(), j),
        u.source_size == fec::longest(payloads(steps, j * group(v), k)),
        u.source == Seq::new(
            k,
            |i: int| buffer::padded(payloads(steps, j * group(v), k)[i], u.source_size),
        ),
    ensures
        ({
            let t = transfer_of(v, steps);
            let first = number(v, j * group(v)) as u32;
            &&& first == number(v, j * group(v))
            &&& first >= 1
            &&& t.groups.contains_key(first)
            &&& t.groups[first] == k
            &&& t.source_size(first) == u.source_size
            &&& t.source(first) == u.source
            &&& u.source_size <= v.chunk_room() + crypto::overhead(v.key)
        }),
{
    let t = transfer_of(v, steps);
    let first = number(v, j * group(v)) as u32;
    lemma_number_group(v, j, 0);
    lemma_number_grows(v, j * group(v), steps.len() as int);
    lemma_longest_fits(v, steps, tail, j * group(v), k);
    lemma_block_at(v, steps, j, k);
    lemma_group_at(v, steps, j);
    let list = payloads(steps, j * group(v), k);
    assert(t.block(first as int, k) == list);
    assert(t.source_size(first) == u.source_size);
    assert forall|i: int| 0 <= i < k implies #[trigger] u.source[i] == t.source(first)[i] by {
        assert(t.block(first as int, k)[i] == list[i]);
    }
    assert(u.source =~= t.source(first));
}

/// The payload and the coefficients of a coded packet.
proof fn lemma_coded_parts(u: SenderView, x: int, wire: Seq<u8>) -> (r: (Seq<u8>, Seq<u8>))
    requires
        u.is_coded_wire(x, wire),
    ensures
        wire == sender::fec_wire((u.next_seq + x) as u32, r.0),
        r.1.len() == u.source.len(),
        r.0 == sender::coded_payload(u.source, u.source_size, u.generation_id(), r.1),
        r.0.len() == 4 + u.source.len() + u.source_size,
{
    let payload = choose|payload: Seq<u8>|
        {
            &&& sender::codes(
                u.source,
                u.source_size,
                u.generation_id(),
                (u.next_seq + x) as u32,
                payload,
            )
            &&& wire == #[trigger] sender::fec_wire((u.next_seq + x) as u32, payload)
        };
    let coeffs = choose|coeffs: Seq<u8>|
        {
            &&& coeffs.len() == u.source.len()
            &&& rlnc::some_nonzero(coeffs)
            &&& rlnc::from_draw((u.next_seq + x) as u32, u.source.len(), coeffs)
            &&& payload == #[trigger] sender::coded_payload(
                u.source,
                u.source_size,
                u.generation_id(),
                coeffs,
            )
        };
    assert(rlnc::coded(u.source, u.source_size, coeffs).len() == u.source_size);
    (payload, coeffs)
}

/// A coded packet is one of the generation that the receiver takes it for.
proof fn lemma_coded_packet(
    t: Transfer,
    u: SenderView,
    seq: u32,
    first: u32,
    payload: Seq<u8>,
    coeffs: Seq<u8>,
)
    requires
        t.groups.contains_key(first),
        t.groups[first] == u.source.len(),
        t.source_size(first) == u.source_size,
        t.source(first) == u.source,
        first <= seq < first + 0x1_0000,
        u.generation_id() == first,
        u.source.len() <= 0xffff,
        coeffs.len() == u.source.len(),
        payload == sender::coded_payload(u.source, u.source_size, u.generation_id(), coeffs),
    ensures
        integrity::coded_packet_of(t, seq, first, coeffs, payload),
{
    assert(packet::len16(coeffs.len()) == coeffs.len() as u16);
}

/// A coded packet of a group arrives well.
#[verifier::rlimit(30)]
#[verifier::spinoff_prover]
proof fn lemma_coded_arrives(
    v: SenderView,
    steps: Seq<Step>,
    tail: Seq<Vec<u8>>,
    s: ReceiverView,
    u: SenderView,
    j: int,
    k: nat,
    x: int,
    wire: Seq<u8>,
)
    requires
        whole_run(v, steps, tail),
        matches(v, s),
        v.fec_enabled,
        v.fec_mode == FecMode::Rlnc,
        j >= 0,
        j * group(v) < steps.len(),
        k == group_size(v, steps.len(), j),
        0 < k <= group(v),
        0 <= x < sender::redundancy(k),
        u.next_seq == number(v, j * group(v)) + k,
        u.next_seq + x <= u32::MAX,
        u.source_size == fec::longest(payloads(steps, j * group(v), k)),
        u.source == Seq::new(
            k,
            |i: int| buffer::padded(payloads(steps, j * group(v), k)[i], u.source_size),
        ),
        u.source_seqs.len() == k,
        u.source_seqs[0] == number(v, j * group(v)),
        u.is_coded_wire(x, wire),
        !is_chunk(v, steps.len(), u.next_seq + x),
    ensures
        arrives_well(transfer_of(v, steps), s, wire),
        packet::header_of(wire).seq == u.next_seq + x,
        packet::header_of(wire).flags.bits == PacketFlags::FEC,
{
    let t = transfer_of(v, steps);
    let first = number(v, j * group(v)) as u32;
    let seq = (u.next_seq + x) as u32;
    lemma_coded_source(v, steps, tail, u, j, k);
    let (payload, coeffs) = lemma_coded_parts(u, x, wire);
    assert(u.generation_id() == first);
    lemma_coded_packet(t, u, seq, first, payload, coeffs);
    bits_flags();
    packet::lemma_wire_parts(
        Header {
            seq,
            flags: PacketFlags { bits: PacketFlags::FEC },
            payload_len: packet::len16(payload.len()),
        },
        payload,
    );
    assert(!t.sent.contains_key(seq));
}

/// A packet of redundancy that a chunk brought about arrives well.
#[verifier::rlimit(40)]
#[verifier::spinoff_prover]
proof fn lemma_wire_arrives(
    v: SenderView,
    steps: Seq<Step>,
    tail: Seq<Vec<u8>>,
    s: ReceiverView,
    i: int,
    x: int,
)
    requires
        whole_run(v, steps, tail),
        matches(v, s),
        0 <= i < steps.len(),
        0 <= x < steps[i].wires.len(),
    ensures
        i % (group(v) as int) + 1 == group(v),
        x < per_group(v),
        arrives_well(transfer_of(v, steps), s, steps[i].wires[x]@),
        packet::header_of(steps[i].wires[x]@).seq == number(v, i) + 1 + x,
        packet::header_of(steps[i].wires[x]@).flags.bits == PacketFlags::FEC,
{
    let u = after(v, steps.take(i));
    let st = steps[i];
    let n = steps.len();
    lemma_payload_fits(v, steps, tail, i);
    lemma_wire_count(u.numbered(), u.next_seq, st.payload, st.wires);
    lemma_due(v, u, steps.take(i));
    lemma_position(v, i);
    lemma_number_step(v, i);
    lemma_number_grows(v, i + 1, n as int);
    let g = group(v);
    let j = i / (g as int);
    lemma_number_group(v, j, g - 1);
    assert(i == j * g + (g - 1));
    lemma_between(v, n, i, number(v, i) + 1 + x);
    let held = payloads(steps.take(i), i - (g - 1), (g - 1) as nat);
    let next = held.push(st.payload);
    assert(next =~= payloads(steps, j * g, g));
    if v.fec_mode == FecMode::Xor {
        lemma_parity_arrives(v, steps, tail, s, j, g);
        let payload = fec::parity_of(next);
        assert(st.wires[0]@ == sender::fec_wire(u.numbered().next_seq, payload));
        lemma_longest_fits(v, steps, tail, j * g, g);
        packet::lemma_wire_parts(
            Header {
                seq: u.numbered().next_seq,
                flags: PacketFlags { bits: PacketFlags::FEC },
                payload_len: packet::len16(payload.len()),
            },
            payload,
        );
    } else {
        lemma_source_fed(v, u.numbered(), held, u.next_seq, st.payload);
        let fed = u.numbered().source_fed(u.next_seq, st.payload);
        assert(fed.source_seqs[0] == number(v, j * g)) by {
            if g > 1 {
                assert(u.source_seqs[0] == number(v, i - (g - 1) + 0) as u32);
            }
        }
        assert(group_size(v, n, j) == g);
        assert(fed.is_coded_wire(x, st.wires[x]@));
        lemma_coded_arrives(v, steps, tail, s, fed, j, g, x, st.wires[x]@);
    }
}

/// A packet of redundancy left at the end arrives well.
proof fn lemma_tail_arrives(
    v: SenderView,
    steps: Seq<Step>,
    tail: Seq<Vec<u8>>,
    s: ReceiverView,
    x: int,
)
    requires
        whole_run(v, steps, tail),
        matches(v, s),
        0 <= x < tail.len(),
    ensures
        arrives_well(transfer_of(v, steps), s, tail[x]@),
        packet::header_of(tail[x]@).seq == number(v, steps.len() as int) + x,
        packet::header_of(tail[x]@).flags.bits == PacketFlags::FEC,
{
    let u = after(v, steps);
    let n = steps.len();
    lemma_on_track(v, steps);
    lemma_position(v, n as int);
    let g = group(v);
    let j = n as int / (g as int);
    let p = (n as int % (g as int)) as nat;
    lemma_number_group(v, j, p as int);
    lemma_number_grows(v, n - 1, n as int);
    lemma_between(v, n, n - 1, number(v, n as int) + x);
    let held = payloads(steps, n - p, p);
    if v.fec_mode == FecMode::Xor {
        lemma_parity_arrives(v, steps, tail, s, j, p);
        let payload = fec::parity_of(held);
        assert(tail[0]@ == sender::fec_wire(u.next_seq, payload));
        lemma_longest_fits(v, steps, tail, j * g, p);
        packet::lemma_wire_parts(
            Header {
                seq: u.next_seq,
                flags: PacketFlags { bits: PacketFlags::FEC },
                payload_len: packet::len16(payload.len()),
            },
            payload,
        );
    } else {
        assert(group_size(v, n, j) == p);
        assert(u.source_seqs[0] == number(v, n - p + 0) as u32);
        assert(u.is_coded_wire(x, tail[x]@));
        lemma_coded_arrives(v, steps, tail, s, u, j, p, x, tail[x]@);
    }
}

/// The FIN arrives well.
proof fn lemma_fin_arrives(v: SenderView, steps: Seq<Step>, tail: Seq<Vec<u8>>, s: ReceiverView)
    requires
        whole_run(v, steps, tail),
        matches(v, s),
    ensures
        after(v, steps).flushed().next_seq == number(v, steps.len() as int) + tail.len(),
        arrives_well(
            transfer_of(v, steps),
            s,
            fin_wire(after(v, steps).flushed().next_seq),
        ),
        packet::header_of(fin_wire(after(v, steps).flushed().next_seq)) == (Header {
            seq: after(v, steps).flushed().next_seq,
            flags: PacketFlags { bits: PacketFlags::FIN },
            payload_len: 0,
        }),
{
    let n = steps.len();
    let u = after(v, steps);
    lemma_on_track(v, steps);
    lemma_number_grows(v, n - 1, n as int);
    bits_flags();
    packet::lemma_wire_parts(
        Header {
            seq: u.flushed().next_seq,
            flags: PacketFlags { bits: PacketFlags::FIN },
            payload_len: 0,
        },
        Seq::empty(),
    );
}

/// Every datagram of a run is what the receiver takes it for, and has room where it is
/// received.
pub proof fn lemma_datagrams_arrive_well(
    v: SenderView,
    steps: Seq<Step>,
    tail: Seq<Vec<u8>>,
    s: ReceiverView,
    data: Seq<u8>,
)
    requires
        whole_run(v, steps, tail),
        matches(v, s),
        is_datagram(v, steps, tail, data),
    ensures
        arrives_well(transfer_of(v, steps), s, data),
{
    if exists|i: int|
        0 <= i < steps.len() && data == #[trigger] sender::data_wire(
            number(v, i) as u32,
            steps[i].payload,
        ) {
        let i = choose|i: int|
            0 <= i < steps.len() && data == #[trigger] sender::data_wire(
                number(v, i) as u32,
                steps[i].payload,
            );
        lemma_data_arrives(v, steps, tail, s, i);
    } else if exists|i: int, x: int|
        0 <= i < steps.len() && 0 <= x < steps[i].wires.len() && data == (
        #[trigger] steps[i].wires[x])@ {
        let (i, x): (int, int) = choose|i: int, x: int|
            0 <= i < steps.len() && 0 <= x < steps[i].wires.len() && data == (
            #[trigger] steps[i].wires[x])@;
        lemma_wire_arrives(v, steps, tail, s, i, x);
    } else if exists|x: int| 0 <= x < tail.len() && data == (#[trigger] tail[x])@ {
        let x = choose|x: int| 0 <= x < tail.len() && data == (#[trigger] tail[x])@;
        lemma_tail_arrives(v, steps, tail, s, x);
    } else {
        lemma_fin_arrives(v, steps, tail, s);
    }
}

// ---------------------------------------------------------------------------
// Lengths of chunks
// ---------------------------------------------------------------------------

/// What none of the payloads is longer than, the longest is not either.
proof fn lemma_longest_at_most(list: Seq<Seq<u8>>, most: nat)
    requires
        forall|i: int| 0 <= i < list.len() ==> (#[trigger] list[i]).len() <= most,
    ensures
        fec::longest(list) <= most,
    decreases list.len(),
{
    if list.len() > 0 {
        assert forall|i: int| 0 <= i < list.drop_last().len() implies (
        #[trigger] list.drop_last()[i]).len() <= most by {
            assert(list.drop_last()[i] == list[i]);
        }
        lemma_longest_at_most(list.drop_last(), most);
        assert(list.last() == list[list.len() - 1]);
    }
}

/// The group of a chunk, and its place in it.
proof fn lemma_in_group(v: SenderView, steps: Seq<Step>, tail: Seq<Vec<u8>>, f: u32, i: int)
    requires
        whole_run(v, steps, tail),
        0 <= i < steps.len(),
        transfer_of(v, steps).in_group(f, number(v, i) as u32),
    ensures
        ({
            let t = transfer_of(v, steps);
            let g = group(v) as int;
            let j = i / g;
            let k = group_size(v, steps.len(), j);
            &&& j * g <= i < j * g + k
            &&& j * g + k <= steps.len()
            &&& f == number(v, j * g)
            &&& t.groups[f] == k
            &&& t.block(f as int, k) == payloads(steps, j * g, k)
            &&& forall|x: int| j * g <= x < j * g + k ==> #[trigger] (x / g) == j
        }),
{
    let t = transfer_of(v, steps);
    let n = steps.len();
    let g = group(v) as int;
    lemma_chunk_at(v, steps, i);
    assert(is_first(v, n, f as int));
    let j = group_index(v, n, f as int);
    assert(0 <= j && j * group(v) < n && number(v, j * group(v)) == f);
    let k = group_size(v, n, j);
    let q = number(v, i);
    let x = q - f;
    lemma_number_group(v, j, x);
    lemma_block_at(v, steps, j, k);
    let y = j * g + x;
    if y < i {
        lemma_number_grows(v, y, i);
    } else if i < y {
        lemma_number_grows(v, i, y);
    }
    assert(y == i);
    assert forall|z: int| j * g <= z < j * g + k implies #[trigger] (z / g) == j by {
        vstd::arithmetic::div_mod::lemma_fundamental_div_mod_converse(z, g, j, z - j * g);
    }
    assert(i / g == j);
}

/// Where the chunks are even, only the last can be computed with zeros behind it.
proof fn lemma_even_is_level(v: SenderView, steps: Seq<Step>, tail: Seq<Vec<u8>>)
    requires
        whole_run(v, steps, tail),
        even(v, steps),
    ensures
        transfer_of(v, steps).level(),
        roomy(v, steps) ==> transfer_of(v, steps).ample(),
{
    let t = transfer_of(v, steps);
    let n = steps.len();
    let g = group(v) as int;
    assert forall|q: u32| #[trigger] t.sent.contains_key(q) && q != t.last implies t.tight(q) && (
    roomy(v, steps) ==> t.sent[q].len() > t.slack) by {
        assert(is_chunk(v, n, q as int));
        let i = index(v, n, q as int);
        assert(0 <= i < n && number(v, i) == q);
        assert(i < n - 1);
        assert forall|f: u32| #[trigger] t.in_group(f, q) implies t.payloads[q].len()
            == t.source_size(f) by {
            lemma_in_group(v, steps, tail, f, i);
            let j = i / g;
            let k = group_size(v, n, j);
            let list = payloads(steps, j * g, k);
            lemma_payload_fits(v, steps, tail, i);
            assert forall|x: int| 0 <= x < list.len() implies (#[trigger] list[x]).len()
                <= steps[i].payload.len() by {
                lemma_payload_fits(v, steps, tail, j * g + x);
                assert((j * g + x) / g == j);
                assert(steps[j * g + x].chunk.len() <= steps[i].chunk.len());
            }
            lemma_longest_at_most(list, steps[i].payload.len());
            fec::lemma_beyond_longest(list);
            assert(list[i - j * g].len() <= fec::longest(list));
        }
    }
    lemma_chunk_at(v, steps, n - 1);
    assert forall|f: u32| #[trigger] t.in_group(f, t.last) implies t.source_size(f)
        <= t.payloads[t.last].len() + t.slack by {
        lemma_in_group(v, steps, tail, f, n - 1);
        let j = (n - 1) / g;
        let k = group_size(v, n, j);
        let list = payloads(steps, j * g, k);
        lemma_payload_fits(v, steps, tail, n - 1);
        let most = (steps[n - 1].payload.len() + spare(v, steps)) as nat;
        assert forall|x: int| 0 <= x < list.len() implies (#[trigger] list[x]).len() <= most by {
            let y = j * g + x;
            lemma_payload_fits(v, steps, tail, y);
            assert(y / g == j);
            if y < n - 1 {
                assert((n - 2) / g == j);
                assert(steps[y].chunk.len() <= steps[n - 2].chunk.len());
            }
        }
        lemma_longest_at_most(list, most);
    }
}

/// Chunks of one length, with a last one that is no longer, are even and roomy: such are
/// those of a reader that fills what it is given.
pub proof fn lemma_full_chunks(v: SenderView, steps: Seq<Step>, unit: nat)
    requires
        forall|i: int| 0 <= i < steps.len() - 1 ==> (#[trigger] steps[i]).chunk.len() == unit,
        steps.len() > 0 ==> 0 < steps.last().chunk.len() <= unit,
    ensures
        even(v, steps),
        roomy(v, steps),
{
    if steps.len() > 0 {
        let n = steps.len();
        assert(steps.last() == steps[n - 1]);
        assert forall|i: int, j: int|
            0 <= i < steps.len() && 0 <= j < steps.len() - 1 && i / (group(v) as int) == j / (
            group(v) as int) implies (#[trigger] steps[i]).chunk.len() <= (
        #[trigger] steps[j]).chunk.len() by {
            if i == n - 1 {
                assert(steps[i].chunk.len() <= unit);
            }
        }
    }
}

/// Without redundancy chunks of any lengths are even and roomy.
pub proof fn lemma_no_redundancy(v: SenderView, steps: Seq<Step>)
    requires
        !v.fec_enabled,
        forall|i: int| 0 <= i < steps.len() ==> (#[trigger] steps[i]).chunk.len() > 0,
    ensures
        even(v, steps),
        roomy(v, steps),
{
    assert(group(v) == 1);
    assert forall|i: int| #[trigger] (i / 1) == i by {}
}

// ---------------------------------------------------------------------------
// Laws
// ---------------------------------------------------------------------------

/// What a receiver takes datagrams for.
pub open spec fn read(data: Seq<Seq<u8>>) -> Seq<(Header, Seq<u8>)> {
    data.map_values(|d: Seq<u8>| (packet::header_of(d), packet::payload_of(d)))
}

/// Chunks do not have the numbers of places of parity.
proof fn lemma_beside_parity(v: SenderView, steps: Seq<Step>, tail: Seq<Vec<u8>>, s: ReceiverView)
    requires
        whole_run(v, steps, tail),
        matches(v, s),
        s.uses_xor(),
    ensures
        transfer_of(v, steps).beside_parity(s.layout),
{
    let t = transfer_of(v, steps);
    let l = s.layout;
    let g = group(v) as int;
    vstd::arithmetic::div_mod::lemma_small_mod(v.block, 0x1_0000_0000);
    assert forall|q: u32| #[trigger] t.sent.contains_key(q) implies !l.is_parity(q) by {
        assert(is_chunk(v, steps.len(), q as int));
        let i = index(v, steps.len(), q as int);
        assert(0 <= i < steps.len() && number(v, i) == q);
        lemma_position(v, i);
        lemma_number_group(v, i / g, i % g);
        let j = i / g;
        if l.block() > 0 {
            assert(j * (g + 1) == (g + 1) * j) by (nonlinear_arith);
            vstd::arithmetic::div_mod::lemma_fundamental_div_mod_converse(
                q - 1,
                g + 1,
                j,
                i % g,
            );
        }
    }
}

/// The datagrams of a run, as the receiver takes them, are genuine.
proof fn lemma_all_genuine(
    v: SenderView,
    steps: Seq<Step>,
    tail: Seq<Vec<u8>>,
    s: ReceiverView,
    data: Seq<Seq<u8>>,
)
    requires
        whole_run(v, steps, tail),
        matches(v, s),
        forall|i: int| 0 <= i < data.len() ==> is_datagram(v, steps, tail, #[trigger] data[i]),
    ensures
        integrity::all_genuine(transfer_of(v, steps), s, read(data)),
{
    let t = transfer_of(v, steps);
    let packets = read(data);
    assert forall|i: int| 0 <= i < packets.len() implies s.numbered((#[trigger] packets[i]).0)
        && integrity::genuine(t, s, packets[i].0, packets[i].1) by {
        assert(is_datagram(v, steps, tail, data[i]));
        lemma_datagrams_arrive_well(v, steps, tail, s, data[i]);
    }
}

/// No datagram of a run is refused, whatever came before it.
pub proof fn lemma_datagrams_accepted(
    v: SenderView,
    steps: Seq<Step>,
    tail: Seq<Vec<u8>>,
    s: ReceiverView,
    data: Seq<Seq<u8>>,
    i: int,
)
    requires
        whole_run(v, steps, tail),
        matches(v, s),
        integrity::fresh(s),
        forall|k: int| 0 <= k < data.len() ==> is_datagram(v, steps, tail, #[trigger] data[k]),
        0 <= i < data.len(),
    ensures
        integrity::after_packets(s, read(data).take(i)).processed(
            read(data)[i].0,
            read(data)[i].1,
        ) is Ok,
{
    let t = transfer_of(v, steps);
    lemma_run_is_transfer(v, steps);
    lemma_all_genuine(v, steps, tail, s, data);
    integrity::lemma_packets_accepted(t, s, read(data), i);
}

/// Zeros behind computed chunks do no harm: nothing was computed, or the chunks are even, and
/// where the receiver counts bytes, roomy.
pub open spec fn harmless(v: SenderView, steps: Seq<Step>, r: ReceiverView, size: u64) -> bool {
    ||| r.fec_recoveries == 0
    ||| even(v, steps) && (size == u64::MAX || roomy(v, steps))
}

/// Delivery: the sender sends chunks that have room in a datagram, encrypted or not, with
/// parity, coded packets or neither. Whichever of its datagrams arrive, in whatever order and
/// however often, a receiver with the same settings that counts itself complete writes the
/// chunks one after the other, whether it knows their size or not (`u64::MAX`), where zeros
/// behind computed chunks do no harm.
pub proof fn lemma_run_delivery(
    v: SenderView,
    steps: Seq<Step>,
    tail: Seq<Vec<u8>>,
    s: ReceiverView,
    data: Seq<Seq<u8>>,
    size: u64,
)
    requires
        whole_run(v, steps, tail),
        matches(v, s),
        integrity::fresh(s),
        forall|i: int| 0 <= i < data.len() ==> is_datagram(v, steps, tail, #[trigger] data[i]),
        harmless(v, steps, integrity::after_packets(s, read(data)), size),
        size == concat(chunks(steps)).len() || size == u64::MAX,
        integrity::after_packets(s, read(data)).complete(size),
    ensures
        output::file_bytes(
            integrity::after_packets(s, read(data)).received,
            integrity::told(size),
        ) == concat(chunks(steps)),
{
    let t = transfer_of(v, steps);
    lemma_run_is_transfer(v, steps);
    lemma_all_genuine(v, steps, tail, s, data);
    if s.uses_xor() {
        lemma_beside_parity(v, steps, tail, s);
    }
    if even(v, steps) {
        lemma_even_is_level(v, steps, tail);
    }
    integrity::lemma_delivery(t, s, read(data), size);
}

/// `q` is the number of a packet of redundancy that one of the first `n` chunks brought
/// about.
spec fn is_wire(v: SenderView, steps: Seq<Step>, n: int, q: int) -> bool {
    exists|i: int, x: int|
        0 <= i < n && 0 <= x < steps[i].wires.len() && (#[trigger] steps[i].wires[x], number(v, i)
            + 1 + x).1 == q
}

/// Up to a chunk, every number is that of a chunk or of a packet of redundancy.
proof fn lemma_covered(v: SenderView, steps: Seq<Step>, tail: Seq<Vec<u8>>, n: int, q: int)
    requires
        whole_run(v, steps, tail),
        0 <= n <= steps.len(),
        1 <= q < number(v, n),
    ensures
        is_chunk(v, steps.len(), q) || is_wire(v, steps, n, q),
    decreases n,
{
    if n == 0 {
        lemma_number_group(v, 0, 0);
        assert(0 * group(v) == 0) by (nonlinear_arith);
        assert(0 * (group(v) + per_group(v)) == 0) by (nonlinear_arith);
    } else {
        let i = n - 1;
        lemma_number_step(v, i);
        if q < number(v, i) {
            lemma_covered(v, steps, tail, i, q);
            if is_wire(v, steps, i, q) {
                let (k, x): (int, int) = choose|k: int, x: int|
                    0 <= k < i && 0 <= x < steps[k].wires.len() && (
                    #[trigger] steps[k].wires[x], number(v, k) + 1 + x).1 == q;
                assert((steps[k].wires[x], number(v, k) + 1 + x).1 == q);
            }
        } else if q > number(v, i) {
            let u = after(v, steps.take(i));
            lemma_payload_fits(v, steps, tail, i);
            lemma_wire_count(u.numbered(), u.next_seq, steps[i].payload, steps[i].wires);
            lemma_due(v, u, steps.take(i));
            let x = q - number(v, i) - 1;
            assert((steps[i].wires[x], number(v, i) + 1 + x).1 == q);
        }
    }
}

/// A number before the FIN that is not that of a chunk has a datagram of redundancy.
proof fn lemma_redundancy_datagram(
    v: SenderView,
    steps: Seq<Step>,
    tail: Seq<Vec<u8>>,
    s: ReceiverView,
    q: u32,
) -> (d: Seq<u8>)
    requires
        whole_run(v, steps, tail),
        matches(v, s),
        1 <= q < after(v, steps).flushed().next_seq,
        !is_chunk(v, steps.len(), q as int),
    ensures
        v.fec_enabled,
        is_datagram(v, steps, tail, d),
        packet::header_of(d).seq == q,
        packet::header_of(d).flags.bits == PacketFlags::FEC,
{
    let n = steps.len() as int;
    lemma_fin_arrives(v, steps, tail, s);
    if q < number(v, n) {
        lemma_covered(v, steps, tail, n, q as int);
        let (i, x): (int, int) = choose|i: int, x: int|
            0 <= i < n && 0 <= x < steps[i].wires.len() && (
            #[trigger] steps[i].wires[x], number(v, i) + 1 + x).1 == q;
        lemma_wire_arrives(v, steps, tail, s, i, x);
        steps[i].wires[x]@
    } else {
        let x = q - number(v, n);
        lemma_on_track(v, steps);
        lemma_tail_arrives(v, steps, tail, s, x);
        tail[x]@
    }
}

/// Every number before the FIN is accounted for once all datagrams came.
proof fn lemma_accounted(
    v: SenderView,
    steps: Seq<Step>,
    tail: Seq<Vec<u8>>,
    s: ReceiverView,
    data: Seq<Seq<u8>>,
    fin: u32,
    q: u32,
)
    requires
        whole_run(v, steps, tail),
        matches(v, s),
        integrity::fresh(s),
        forall|i: int| 0 <= i < data.len() ==> is_datagram(v, steps, tail, #[trigger] data[i]),
        forall|d: Seq<u8>| #[trigger] is_datagram(v, steps, tail, d) ==> data.contains(d),
        fin == after(v, steps).flushed().next_seq,
        integrity::ends_at(read(data), fin),
        1 <= q < fin,
    ensures
        is_chunk(v, steps.len(), q as int) || integrity::after_packets(
            s,
            read(data),
        ).redundant.contains(q),
{
    if !is_chunk(v, steps.len(), q as int) {
        let t = transfer_of(v, steps);
        lemma_run_is_transfer(v, steps);
        lemma_all_genuine(v, steps, tail, s, data);
        bits_flags();
        let d = lemma_redundancy_datagram(v, steps, tail, s, q);
        let k = choose|k: int| 0 <= k < data.len() && data[k] == d;
        assert(data[k] == d);
        assert(read(data)[k].0 == packet::header_of(d));
        integrity::lemma_marks_stay(t, s, read(data), k, fin);
    }
}

/// FINs of a run have one number.
proof fn lemma_one_fin(
    v: SenderView,
    steps: Seq<Step>,
    tail: Seq<Vec<u8>>,
    s: ReceiverView,
    data: Seq<Seq<u8>>,
)
    requires
        whole_run(v, steps, tail),
        matches(v, s),
        forall|i: int| 0 <= i < data.len() ==> is_datagram(v, steps, tail, #[trigger] data[i]),
    ensures
        integrity::ends_at(read(data), after(v, steps).flushed().next_seq),
{
    let packets = read(data);
    let fin = after(v, steps).flushed().next_seq;
    assert forall|k: int|
        0 <= k < packets.len() && !(#[trigger] packets[k]).0.flags.includes(PacketFlags::DATA)
            && !packets[k].0.flags.includes(PacketFlags::FEC) && packets[k].0.flags.includes(
            PacketFlags::FIN,
        ) implies packets[k].0.seq == fin by {
        let d = data[k];
        assert(is_datagram(v, steps, tail, d));
        bits_flags();
        if exists|i: int|
            0 <= i < steps.len() && d == #[trigger] sender::data_wire(
                number(v, i) as u32,
                steps[i].payload,
            ) {
            let i = choose|i: int|
                0 <= i < steps.len() && d == #[trigger] sender::data_wire(
                    number(v, i) as u32,
                    steps[i].payload,
                );
            lemma_data_header(v, steps, tail, i);
        } else if exists|i: int, x: int|
            0 <= i < steps.len() && 0 <= x < steps[i].wires.len() && d == (
            #[trigger] steps[i].wires[x])@ {
            let (i, x): (int, int) = choose|i: int, x: int|
                0 <= i < steps.len() && 0 <= x < steps[i].wires.len() && d == (
                #[trigger] steps[i].wires[x])@;
            lemma_wire_arrives(v, steps, tail, s, i, x);
        } else if exists|x: int| 0 <= x < tail.len() && d == (#[trigger] tail[x])@ {
            let x = choose|x: int| 0 <= x < tail.len() && d == (#[trigger] tail[x])@;
            lemma_tail_arrives(v, steps, tail, s, x);
        } else {
            lemma_fin_arrives(v, steps, tail, s);
        }
    }
}

/// Completion: once every datagram of a run came, in whatever order and however often, a
/// receiver with the same settings counts itself complete, whether it knows the size of the
/// file or not (`u64::MAX`).
pub proof fn lemma_run_completion(
    v: SenderView,
    steps: Seq<Step>,
    tail: Seq<Vec<u8>>,
    s: ReceiverView,
    data: Seq<Seq<u8>>,
    size: u64,
)
    requires
        whole_run(v, steps, tail),
        matches(v, s),
        integrity::fresh(s),
        forall|i: int| 0 <= i < data.len() ==> is_datagram(v, steps, tail, #[trigger] data[i]),
        forall|d: Seq<u8>| #[trigger] is_datagram(v, steps, tail, d) ==> data.contains(d),
        size == concat(chunks(steps)).len() || size == u64::MAX,
    ensures
        integrity::after_packets(s, read(data)).complete(size),
{
    let t = transfer_of(v, steps);
    let n = steps.len();
    let packets = read(data);
    let r = integrity::after_packets(s, packets);
    let fin = after(v, steps).flushed().next_seq;
    lemma_run_is_transfer(v, steps);
    lemma_all_genuine(v, steps, tail, s, data);
    lemma_one_fin(v, steps, tail, s, data);
    lemma_fin_arrives(v, steps, tail, s);
    bits_flags();
    assert(r.fin_seq == Some(fin)) by {
        let d = fin_wire(fin);
        assert(is_datagram(v, steps, tail, d));
        let k = choose|k: int| 0 <= k < data.len() && data[k] == d;
        assert(packets[k].0 == packet::header_of(d));
        integrity::lemma_marks_stay(t, s, packets, k, fin);
    }
    assert forall|q: u32| #[trigger] t.sent.contains_key(q) implies integrity::certain(r, q) by {
        assert(is_chunk(v, n, q as int));
        let i = index(v, n, q as int);
        assert(0 <= i < n && number(v, i) == q);
        let d = sender::data_wire(number(v, i) as u32, steps[i].payload);
        assert(is_datagram(v, steps, tail, d));
        lemma_data_header(v, steps, tail, i);
        let k = choose|k: int| 0 <= k < data.len() && data[k] == d;
        assert(packets[k].0 == packet::header_of(d));
        integrity::lemma_marks_stay(t, s, packets, k, fin);
    }
    assert(integrity::certain(r, t.last));
    assert(integrity::accounted(t, r)) by {
        assert forall|q: u32| 1 <= q < r.fin_seq->0 implies #[trigger] t.sent.contains_key(q)
            || r.redundant.contains(q) || r.fec_mode == FecMode::Xor && r.layout.is_parity(q) by {
            lemma_accounted(v, steps, tail, s, data, fin, q);
        }
    }
    integrity::lemma_completion(t, s, packets, size);
}

/// A sender sends a file: one data packet for each piece that was read of it, which has room
/// in a datagram, under sequence numbers that suffice, with `tail` the redundancy left at the
/// end.
pub open spec fn sends(v: SenderView, steps: Seq<Step>, tail: Seq<Vec<u8>>, file: Seq<u8>) -> bool {
    let u = after(v, steps);
    &&& valid(v, steps)
    &&& concat(chunks(steps)) == file
    &&& fitting(v, steps)
    &&& u.remainder(tail)
    &&& number(v, steps.len() as int) + u.redundancy_left() + group(v) < u32::MAX
    &&& v.reserve() < packet::MAX_PAYLOAD
}

/// Of a file without bytes a sender sends a FIN and nothing else.
proof fn lemma_empty_run(
    v: SenderView,
    steps: Seq<Step>,
    tail: Seq<Vec<u8>>,
    s: ReceiverView,
    data: Seq<Seq<u8>>,
)
    requires
        steps.len() == 0,
        valid(v, steps),
        after(v, steps).remainder(tail),
        integrity::fresh(s),
        forall|i: int| 0 <= i < data.len() ==> is_datagram(v, steps, tail, #[trigger] data[i]),
    ensures
        after(v, steps).flushed().next_seq == 1,
        integrity::after_packets(s, read(data)) == (ReceiverView {
            fin_seq: if data.len() > 0 {
                Some(1u32)
            } else {
                None
            },
            ..s
        }),
{
    let packets = read(data);
    bits_flags();
    packet::lemma_wire_parts(
        Header { seq: 1, flags: PacketFlags { bits: PacketFlags::FIN }, payload_len: 0 },
        Seq::empty(),
    );
    assert forall|i: int| 0 <= i < packets.len() implies (
    #[trigger] packets[i]).0.flags.includes(PacketFlags::FIN) && !packets[i].0.flags.includes(
        PacketFlags::DATA,
    ) && !packets[i].0.flags.includes(PacketFlags::FEC) && packets[i].0.seq == 1 by {
        assert(is_datagram(v, steps, tail, data[i]));
    }
    integrity::lemma_only_fins(s, packets, 1);
}

/// Delivery of a file: whichever datagrams of the sender arrive, in whatever order and
/// however often, a receiver with the same settings that counts itself complete writes the
/// file that was sent, whether it knows its size or not (`u64::MAX`), where zeros behind
/// computed chunks do no harm.
pub proof fn lemma_file_delivered(
    v: SenderView,
    steps: Seq<Step>,
    tail: Seq<Vec<u8>>,
    file: Seq<u8>,
    s: ReceiverView,
    data: Seq<Seq<u8>>,
    size: u64,
)
    requires
        sends(v, steps, tail, file),
        matches(v, s),
        integrity::fresh(s),
        forall|i: int| 0 <= i < data.len() ==> is_datagram(v, steps, tail, #[trigger] data[i]),
        harmless(v, steps, integrity::after_packets(s, read(data)), size),
        size == file.len() || size == u64::MAX,
        integrity::after_packets(s, read(data)).complete(size),
    ensures
        output::file_bytes(
            integrity::after_packets(s, read(data)).received,
            integrity::told(size),
        ) == file,
{
    if steps.len() > 0 {
        lemma_run_delivery(v, steps, tail, s, data, size);
    } else {
        lemma_empty_run(v, steps, tail, s, data);
        let received = integrity::after_packets(s, read(data)).received;
        output::lemma_joined_beyond(received, 0, u32::MAX as nat);
        assert(chunks(steps) =~= Seq::<Seq<u8>>::empty());
        assert(output::file_bytes(received, integrity::told(size)) =~= file);
    }
}

/// Completion of a file: once every datagram of the sender came, in whatever order and
/// however often, a receiver with the same settings counts itself complete, whether it knows
/// the size of the file or not (`u64::MAX`).
pub proof fn lemma_file_completes(
    v: SenderView,
    steps: Seq<Step>,
    tail: Seq<Vec<u8>>,
    file: Seq<u8>,
    s: ReceiverView,
    data: Seq<Seq<u8>>,
    size: u64,
)
    requires
        sends(v, steps, tail, file),
        matches(v, s),
        integrity::fresh(s),
        forall|i: int| 0 <= i < data.len() ==> is_datagram(v, steps, tail, #[trigger] data[i]),
        forall|d: Seq<u8>| #[trigger] is_datagram(v, steps, tail, d) ==> data.contains(d),
        size == file.len() || size == u64::MAX,
    ensures
        integrity::after_packets(s, read(data)).complete(size),
{
    if steps.len() > 0 {
        lemma_run_completion(v, steps, tail, s, data, size);
    } else {
        lemma_empty_run(v, steps, tail, s, data);
        assert(chunks(steps) =~= Seq::<Seq<u8>>::empty());
        let d = fin_wire(after(v, steps).flushed().next_seq);
        assert(is_datagram(v, steps, tail, d));
        assert(data.contains(d));
        assert(data.len() > 0);
        let r = integrity::after_packets(s, read(data));
        assert(r.needed_below(1, size).len() == 0);
    }
}

/// A chunk leaves what is kept under lower numbers as it is.
proof fn lemma_step_keeps(u: SenderView, s: Step, q: u32)
    requires
        step_valid(u, s),
        u.sent.contains_key(q),
        q < u.next_seq,
    ensures
        stepped(u, s).sent.contains_key(q),
        stepped(u, s).sent[q] == u.sent[q],
{
    let seq = u.next_seq;
    let first = u.numbered().next_seq;
    let k = u.numbered().kept(seq, sender::data_wire(seq, s.payload), s.now_us);
    let w = k.protected(seq, s.payload);
    lemma_wire_count(u.numbered(), seq, s.payload, s.wires);
    sender::lemma_redundancy_kept(w, first, s.wires, s.now_us);
    assert(k.sent.contains_key(q));
    assert(w.sent == k.sent);
    assert(w.sent.contains_key(q));
}

/// What is sent of a chunk is kept.
proof fn lemma_step_kept(u: SenderView, s: Step)
    requires
        step_valid(u, s),
    ensures
        stepped(u, s).sent.contains_key(u.next_seq),
        stepped(u, s).sent[u.next_seq].wire == sender::data_wire(u.next_seq, s.payload),
        forall|x: int|
            0 <= x < s.wires.len() ==> stepped(u, s).sent.contains_key(
                (u.next_seq + 1 + x) as u32,
            ) && stepped(u, s).sent[(u.next_seq + 1 + x) as u32].wire == (
            #[trigger] s.wires[x])@,
{
    let seq = u.next_seq;
    let first = u.numbered().next_seq;
    let k = u.numbered().kept(seq, sender::data_wire(seq, s.payload), s.now_us);
    let w = k.protected(seq, s.payload);
    lemma_wire_count(u.numbered(), seq, s.payload, s.wires);
    sender::lemma_redundancy_kept(w, first, s.wires, s.now_us);
    assert(w.sent == k.sent);
    assert(w.sent.contains_key(seq));
    assert forall|x: int| 0 <= x < s.wires.len() implies stepped(u, s).sent.contains_key(
        (seq + 1 + x) as u32,
    ) && stepped(u, s).sent[(seq + 1 + x) as u32].wire == (#[trigger] s.wires[x])@ by {
        assert(stepped(u, s).sent.contains_key((first + x) as u32));
    }
}

/// What is kept under a number stays to the end of the run.
proof fn lemma_stays(v: SenderView, steps: Seq<Step>, n: int, q: u32)
    requires
        valid(v, steps),
        0 <= n <= steps.len(),
        after(v, steps.take(n)).sent.contains_key(q),
        q < number(v, n),
    ensures
        after(v, steps).sent.contains_key(q),
        after(v, steps).sent[q] == after(v, steps.take(n)).sent[q],
    decreases steps.len(),
{
    let m = steps.len() as int;
    if n == m {
        assert(steps.take(n) =~= steps);
    } else {
        let rest = steps.drop_last();
        assert(rest.take(n) =~= steps.take(n));
        lemma_stays(v, rest, n, q);
        lemma_on_track(v, rest);
        lemma_number_grows(v, n, m - 1);
        lemma_step_keeps(after(v, rest), steps.last(), q);
    }
}

/// The state before a chunk and that after it.
proof fn lemma_after_part(v: SenderView, steps: Seq<Step>, i: int)
    requires
        valid(v, steps),
        0 <= i < steps.len(),
    ensures
        step_valid(after(v, steps.take(i)), steps[i]),
        after(v, steps.take(i + 1)) == stepped(after(v, steps.take(i)), steps[i]),
        after(v, steps.take(i)).next_seq == number(v, i),
        number(v, i + 1) == number(v, i) + 1 + steps[i].wires.len(),
        number(v, i) + 1 + steps[i].wires.len() <= u32::MAX,
{
    let u = after(v, steps.take(i));
    lemma_valid_part(v, steps, i);
    lemma_on_track(v, steps.take(i));
    assert(steps.take(i + 1).drop_last() =~= steps.take(i));
    assert(steps.take(i + 1).last() == steps[i]);
    assert(step_valid(u, steps[i]));
    lemma_wire_count(u.numbered(), u.next_seq, steps[i].payload, steps[i].wires);
    lemma_due(v, u, steps.take(i));
    lemma_number_step(v, i);
}

/// The sender keeps the packet of a chunk, under its number, to the end of the run.
pub proof fn lemma_chunk_retained(v: SenderView, steps: Seq<Step>, i: int)
    requires
        valid(v, steps),
        0 <= i < steps.len(),
    ensures
        after(v, steps).sent.contains_key(number(v, i) as u32),
        after(v, steps).sent[number(v, i) as u32].wire == sender::data_wire(
            number(v, i) as u32,
            steps[i].payload,
        ),
{
    let u = after(v, steps.take(i));
    lemma_after_part(v, steps, i);
    lemma_step_kept(u, steps[i]);
    lemma_stays(v, steps, i + 1, u.next_seq);
}

/// The sender keeps the packets of redundancy, under their numbers, to the end of the run.
pub proof fn lemma_redundancy_retained(v: SenderView, steps: Seq<Step>, i: int, x: int)
    requires
        valid(v, steps),
        0 <= i < steps.len(),
        0 <= x < steps[i].wires.len(),
    ensures
        after(v, steps).sent.contains_key((number(v, i) + 1 + x) as u32),
        after(v, steps).sent[(number(v, i) + 1 + x) as u32].wire == steps[i].wires[x]@,
{
    let u = after(v, steps.take(i));
    lemma_after_part(v, steps, i);
    lemma_step_kept(u, steps[i]);
    let w = steps[i].wires[x];
    let q = (u.next_seq + 1 + x) as u32;
    assert(stepped(u, steps[i]).sent.contains_key(q) && stepped(u, steps[i]).sent[q].wire == w@);
    lemma_stays(v, steps, i + 1, q);
}

/// What the sender keeps at the end of a run.
pub open spec fn kept_at_end(
    v: SenderView,
    steps: Seq<Step>,
    tail: Seq<Vec<u8>>,
    now_us: u64,
) -> SenderView {
    after(v, steps).flushed().kept_all(number(v, steps.len() as int) as u32, tail, now_us)
}

/// A NACK for any number before the FIN finds its packet: at the end of a run the sender
/// keeps all that it sent, each datagram under its number.
pub proof fn lemma_all_retained(
    v: SenderView,
    steps: Seq<Step>,
    tail: Seq<Vec<u8>>,
    s: ReceiverView,
    now_us: u64,
    q: u32,
)
    requires
        whole_run(v, steps, tail),
        matches(v, s),
        1 <= q < after(v, steps).flushed().next_seq,
    ensures
        ({
            let kept = kept_at_end(v, steps, tail, now_us).sent;
            &&& kept.contains_key(q)
            &&& is_datagram(v, steps, tail, kept[q].wire)
            &&& packet::header_of(kept[q].wire).seq == q
            &&& packet::header_of(kept[q].wire).flags.bits == (if is_chunk(
                v,
                steps.len(),
                q as int,
            ) {
                PacketFlags::DATA
            } else {
                PacketFlags::FEC
            })
        }),
{
    let n = steps.len() as int;
    let u = after(v, steps).flushed();
    let first = number(v, n) as u32;
    lemma_on_track(v, steps);
    lemma_fin_arrives(v, steps, tail, s);
    sender::lemma_redundancy_kept(u, first, tail, now_us);
    if is_chunk(v, steps.len(), q as int) {
        let i = index(v, steps.len(), q as int);
        assert(0 <= i < n && number(v, i) == q);
        lemma_number_grows(v, i, n);
        lemma_chunk_retained(v, steps, i);
        lemma_data_header(v, steps, tail, i);
        assert(u.sent.contains_key(q));
        let d = sender::data_wire(number(v, i) as u32, steps[i].payload);
        assert(is_datagram(v, steps, tail, d));
    } else if q < number(v, n) {
        lemma_covered(v, steps, tail, n, q as int);
        let (i, x): (int, int) = choose|i: int, x: int|
            0 <= i < n && 0 <= x < steps[i].wires.len() && (
            #[trigger] steps[i].wires[x], number(v, i) + 1 + x).1 == q;
        lemma_redundancy_retained(v, steps, i, x);
        lemma_wire_arrives(v, steps, tail, s, i, x);
        assert(u.sent.contains_key(q));
        assert(is_datagram(v, steps, tail, steps[i].wires[x]@));
    } else {
        let x = q - first;
        assert(u.kept_all(first, tail, now_us).sent.contains_key((first + x) as u32));
        lemma_tail_arrives(v, steps, tail, s, x);
        assert(is_datagram(v, steps, tail, tail[x]@));
    }
}

/// What was asked for was sent again from what the sender keeps.
pub open spec fn resent_all(
    v: SenderView,
    steps: Seq<Step>,
    tail: Seq<Vec<u8>>,
    now_us: u64,
    asked: Seq<u32>,
    more: Seq<Seq<u8>>,
) -> bool {
    forall|q: u32| #[trigger]
        asked.contains(q) ==> more.contains(kept_at_end(v, steps, tail, now_us).sent[q].wire)
}

/// Completion on request: some datagrams of a run came, the FIN among them. Once those that
/// the receiver then asks for have come from what the sender keeps, it counts itself
/// complete, whatever else was lost, and whether it knows the size of the file or not
/// (`u64::MAX`).
pub proof fn lemma_run_answered(
    v: SenderView,
    steps: Seq<Step>,
    tail: Seq<Vec<u8>>,
    s: ReceiverView,
    data: Seq<Seq<u8>>,
    more: Seq<Seq<u8>>,
    size: u64,
    now_us: u64,
    now: u64,
)
    requires
        whole_run(v, steps, tail),
        matches(v, s),
        integrity::fresh(s),
        forall|i: int| 0 <= i < data.len() ==> is_datagram(v, steps, tail, #[trigger] data[i]),
        forall|i: int| 0 <= i < more.len() ==> is_datagram(v, steps, tail, #[trigger] more[i]),
        data.contains(fin_wire(after(v, steps).flushed().next_seq)),
        resent_all(
            v,
            steps,
            tail,
            now_us,
            integrity::after_packets(s, read(data)).wanted(now, size),
            more,
        ),
        size == concat(chunks(steps)).len() || size == u64::MAX,
    ensures
        integrity::after_packets(s, read(data + more)).complete(size),
{
    let t = transfer_of(v, steps);
    let fin = after(v, steps).flushed().next_seq;
    let all = data + more;
    let r = integrity::after_packets(s, read(data));
    lemma_run_is_transfer(v, steps);
    assert forall|i: int| 0 <= i < all.len() implies is_datagram(
        v,
        steps,
        tail,
        #[trigger] all[i],
    ) by {
        if i < data.len() {
            assert(all[i] == data[i]);
        } else {
            assert(all[i] == more[i - data.len()]);
        }
    }
    lemma_all_genuine(v, steps, tail, s, data);
    lemma_all_genuine(v, steps, tail, s, all);
    lemma_one_fin(v, steps, tail, s, data);
    lemma_one_fin(v, steps, tail, s, all);
    if s.uses_xor() {
        lemma_beside_parity(v, steps, tail, s);
    }
    lemma_fin_arrives(v, steps, tail, s);
    bits_flags();
    assert(r.fin_seq == Some(fin)) by {
        let k = choose|k: int| 0 <= k < data.len() && data[k] == fin_wire(fin);
        assert(read(data)[k].0 == packet::header_of(fin_wire(fin)));
        integrity::lemma_marks_stay(t, s, read(data), k, fin);
    }
    let list = r.needed_below(fin as nat, size);
    assert(r.wanted(now, size) == list);
    receiver::lemma_needed_below(r, fin as nat, size);
    assert forall|q: u32| #[trigger] list.contains(q) implies integrity::answered(
        t,
        s,
        read(more),
        q,
    ) by {
        lemma_all_retained(v, steps, tail, s, now_us, q);
        let d = kept_at_end(v, steps, tail, now_us).sent[q].wire;
        assert(more.contains(d));
        let k = choose|k: int| 0 <= k < more.len() && more[k] == d;
        assert(read(more)[k].0 == packet::header_of(d));
        if !is_chunk(v, steps.len(), q as int) {
            let e = lemma_redundancy_datagram(v, steps, tail, s, q);
        }
    }
    assert(read(all) =~= read(data) + read(more));
    integrity::lemma_answered_completes(t, s, read(data), read(more), fin, size);
}

/// Completion on request for a file, the one without bytes among them: the FIN came, and
/// then what the receiver asked for, from what the sender keeps.
pub proof fn lemma_file_answered(
    v: SenderView,
    steps: Seq<Step>,
    tail: Seq<Vec<u8>>,
    file: Seq<u8>,
    s: ReceiverView,
    data: Seq<Seq<u8>>,
    more: Seq<Seq<u8>>,
    size: u64,
    now_us: u64,
    now: u64,
)
    requires
        sends(v, steps, tail, file),
        matches(v, s),
        integrity::fresh(s),
        forall|i: int| 0 <= i < data.len() ==> is_datagram(v, steps, tail, #[trigger] data[i]),
        forall|i: int| 0 <= i < more.len() ==> is_datagram(v, steps, tail, #[trigger] more[i]),
        data.contains(fin_wire(after(v, steps).flushed().next_seq)),
        resent_all(
            v,
            steps,
            tail,
            now_us,
            integrity::after_packets(s, read(data)).wanted(now, size),
            more,
        ),
        size == file.len() || size == u64::MAX,
    ensures
        integrity::after_packets(s, read(data + more)).complete(size),
{
    if steps.len() > 0 {
        lemma_run_answered(v, steps, tail, s, data, more, size, now_us, now);
    } else {
        let all = data + more;
        assert forall|i: int| 0 <= i < all.len() implies is_datagram(
            v,
            steps,
            tail,
            #[trigger] all[i],
        ) by {
            if i < data.len() {
                assert(all[i] == data[i]);
            } else {
                assert(all[i] == more[i - data.len()]);
            }
        }
        lemma_empty_run(v, steps, tail, s, all);
        assert(chunks(steps) =~= Seq::<Seq<u8>>::empty());
        let r = integrity::after_packets(s, read(all));
        assert(r.needed_below(1, size).len() == 0);
    }
}

/// The groups of a run lie in the blocks of the receiver.
proof fn lemma_groups_aligned(
    v: SenderView,
    steps: Seq<Step>,
    tail: Seq<Vec<u8>>,
    s: ReceiverView,
)
    requires
        whole_run(v, steps, tail),
        matches(v, s),
        v.fec_enabled,
        v.fec_mode == FecMode::Xor,
        v.block > 0,
    ensures
        integrity::aligned(transfer_of(v, steps), s.layout),
        0 < s.layout.fec_block_size < u32::MAX,
{
    let t = transfer_of(v, steps);
    let l = s.layout;
    let n = steps.len();
    let g = group(v) as int;
    vstd::arithmetic::div_mod::lemma_small_mod(v.block, 0x1_0000_0000);
    lemma_number_grows(v, 0, n as int);
    lemma_number_group(v, 0, 0);
    assert(0 * group(v) == 0) by (nonlinear_arith);
    assert(0 * (group(v) + per_group(v)) == 0) by (nonlinear_arith);
    assert forall|f: u32| #[trigger] t.groups.contains_key(f) implies f >= 1 && l.start(f) == f
        && t.groups[f] <= l.block() && f + l.block() <= u32::MAX by {
        assert(is_first(v, n, f as int));
        let j = group_index(v, n, f as int);
        assert(0 <= j && j * group(v) < n && number(v, j * group(v)) == f);
        lemma_number_group(v, j, 0);
        lemma_number_grows(v, j * group(v), n as int);
        assert(j * (g + 1) == (g + 1) * j) by (nonlinear_arith);
        vstd::arithmetic::div_mod::lemma_fundamental_div_mod_converse(f - 1, g + 1, j, 0);
    }
}

/// A chunk that none of its group is longer than makes a payload as long as the longest.
proof fn lemma_longest_tight(
    v: SenderView,
    steps: Seq<Step>,
    tail: Seq<Vec<u8>>,
    s: ReceiverView,
    i: int,
)
    requires
        whole_run(v, steps, tail),
        matches(v, s),
        v.fec_enabled,
        v.fec_mode == FecMode::Xor,
        v.block > 0,
        0 <= i < steps.len(),
        ({
            let from = i / (v.block as int) * v.block;
            let n = group_size(v, steps.len(), i / (v.block as int));
            forall|x: int|
                from <= x < from + n ==> (#[trigger] steps[x]).chunk.len() <= steps[i].chunk.len()
        }),
    ensures
        ({
            let t = transfer_of(v, steps);
            let q = number(v, i) as u32;
            &&& t.tight(q)
            &&& t.payloads[q].len() == t.source_size(
                number(v, i / (v.block as int) * v.block) as u32,
            )
        }),
{
    let t = transfer_of(v, steps);
    let g = group(v) as int;
    let j = i / g;
    let from = j * g;
    let n = group_size(v, steps.len(), j);
    let f = number(v, from) as u32;
    let q = number(v, i) as u32;
    lemma_position(v, i);
    assert(from <= i < from + n) by {
        vstd::arithmetic::div_mod::lemma_fundamental_div_mod(i, g);
        assert(g * j == j * g) by (nonlinear_arith);
    }
    lemma_run_is_transfer(v, steps);
    lemma_group_at(v, steps, j);
    lemma_number_group(v, j, 0);
    lemma_number_group(v, j, i - from);
    lemma_number_grows(v, from, steps.len() as int);
    lemma_chunk_at(v, steps, i);
    lemma_block_at(v, steps, j, n);
    assert(t.in_group(f, q));
    assert forall|h: u32| #[trigger] t.in_group(h, q) implies t.payloads[q].len()
        == t.source_size(h) by {
        lemma_in_group(v, steps, tail, h, i);
        let list = payloads(steps, from, n);
        lemma_payload_fits(v, steps, tail, i);
        assert forall|x: int| 0 <= x < list.len() implies (#[trigger] list[x]).len()
            <= steps[i].payload.len() by {
            lemma_payload_fits(v, steps, tail, from + x);
            assert(steps[from + x].chunk.len() <= steps[i].chunk.len());
        }
        lemma_longest_at_most(list, steps[i].payload.len());
        fec::lemma_beyond_longest(list);
        assert(list[i - from].len() <= fec::longest(list));
    }
}

/// A data packet that is among the datagrams is read under its number.
proof fn lemma_data_read(
    v: SenderView,
    steps: Seq<Step>,
    tail: Seq<Vec<u8>>,
    data: Seq<Seq<u8>>,
    x: int,
)
    requires
        whole_run(v, steps, tail),
        0 <= x < steps.len(),
        data.contains(sender::data_wire(number(v, x) as u32, steps[x].payload)),
    ensures
        integrity::data_came(read(data), number(v, x) as u32),
{
    let w = sender::data_wire(number(v, x) as u32, steps[x].payload);
    lemma_data_header(v, steps, tail, x);
    bits_flags();
    let k = choose|k: int| 0 <= k < data.len() && data[k] == w;
    assert(read(data)[k].0 == packet::header_of(w));
    assert(read(data)[k].0.seq == number(v, x) as u32);
}

/// Recovery in a run, whatever the size of the blocks: where the data packet of one chunk is
/// lost, the parity of its group and the data packets of the others bring it back, in whatever
/// order, how often and among whatever other datagrams they come. Encrypted, it has to be as
/// long as the longest of its group.
#[verifier::rlimit(60)]
pub proof fn lemma_run_recovered(
    v: SenderView,
    steps: Seq<Step>,
    tail: Seq<Vec<u8>>,
    s: ReceiverView,
    data: Seq<Seq<u8>>,
    i: int,
)
    requires
        whole_run(v, steps, tail),
        matches(v, s),
        integrity::fresh(s),
        forall|k: int| 0 <= k < data.len() ==> is_datagram(v, steps, tail, #[trigger] data[k]),
        v.fec_enabled,
        v.fec_mode == FecMode::Xor,
        v.block > 0,
        0 <= i < steps.len(),
        ({
            let from = i / (v.block as int) * v.block;
            let n = if from + v.block <= steps.len() {
                v.block
            } else {
                (steps.len() - from) as nat
            };
            &&& data.contains(
                sender::fec_wire(
                    (number(v, from) + n) as u32,
                    fec::parity_of(payloads(steps, from, n)),
                ),
            )
            &&& forall|x: int|
                from <= x < from + n && x != i ==> data.contains(
                    #[trigger] sender::data_wire(number(v, x) as u32, steps[x].payload),
                )
            &&& v.key is None || forall|x: int|
                from <= x < from + n ==> (#[trigger] steps[x]).chunk.len() <= steps[i].chunk.len()
        }),
    ensures
        integrity::after_packets(s, read(data)).received.contains_key(number(v, i) as u32),
{
    let t = transfer_of(v, steps);
    let g = group(v) as int;
    assert(g == v.block);
    let j = i / g;
    let from = j * g;
    let n = group_size(v, steps.len(), j);
    let f = number(v, from) as u32;
    let q = number(v, i) as u32;
    let packets = read(data);
    lemma_position(v, i);
    assert(from <= i < from + n) by {
        vstd::arithmetic::div_mod::lemma_fundamental_div_mod(i, g);
        assert(g * j == j * g) by (nonlinear_arith);
    }
    lemma_run_is_transfer(v, steps);
    lemma_all_genuine(v, steps, tail, s, data);
    lemma_groups_aligned(v, steps, tail, s);
    lemma_group_at(v, steps, j);
    lemma_number_group(v, j, 0);
    lemma_number_group(v, j, i - from);
    lemma_number_grows(v, from, steps.len() as int);
    lemma_chunk_at(v, steps, i);
    lemma_block_at(v, steps, j, n);
    bits_flags();
    assert(t.in_group(f, q));
    if v.key is Some {
        lemma_longest_tight(v, steps, tail, s, i);
    }
    let parity = fec::parity_of(payloads(steps, from, n));
    let d = sender::fec_wire((f + n) as u32, parity);
    assert(data.contains(d));
    let at = choose|k: int| 0 <= k < data.len() && data[k] == d;
    lemma_longest_fits(v, steps, tail, from, n);
    assert(number(v, from) + n <= u32::MAX);
    packet::lemma_wire_parts(
        Header {
            seq: (f + n) as u32,
            flags: PacketFlags { bits: PacketFlags::FEC },
            payload_len: packet::len16(parity.len()),
        },
        parity,
    );
    assert(packets[at].0 == packet::header_of(d));
    assert forall|y: u32| f <= y < f + n && y != q implies #[trigger] integrity::data_came(
        packets,
        y,
    ) by {
        lemma_number_group(v, j, y - f);
        lemma_data_read(v, steps, tail, data, from + (y - f));
    }
    integrity::lemma_group_recovered(t, s, packets, f, q, at);
}

/// The encoder that is not in use stays empty.
proof fn lemma_unused_idle(v: SenderView, steps: Seq<Step>)
    requires
        valid(v, steps),
    ensures
        ({
            let u = after(v, steps);
            &&& !(v.fec_enabled && v.fec_mode == FecMode::Xor) ==> u.block_payloads.len() == 0
            &&& !(v.fec_enabled && v.fec_mode == FecMode::Rlnc) ==> u.source.len() == 0
                && u.source_size == 0 && u.source_seqs.len() == 0
        }),
    decreases steps.len(),
{
    if steps.len() > 0 {
        let rest = steps.drop_last();
        lemma_unused_idle(v, rest);
        lemma_on_track(v, rest);
        lemma_stepped_shape(after(v, rest), steps.last());
    }
}

/// Once the redundancy is flushed nothing is under way.
proof fn lemma_rest_idle(v: SenderView, steps: Seq<Step>)
    requires
        valid(v, steps),
    ensures
        after(v, steps).flushed().idle(),
{
    let u = after(v, steps);
    lemma_unused_idle(v, steps);
    lemma_on_track(v, steps);
    if v.fec_enabled && v.fec_mode == FecMode::Rlnc && u.source.len() == 0 {
        let m = steps.len() as int;
        let p = (m % (group(v) as int)) as nat;
        assert(p == 0);
        assert(payloads(steps, m - p, p) =~= Seq::<Seq<u8>>::empty());
    }
}

/// A sender that sent a file to its end is ready for another.
pub proof fn lemma_idle_again(v: SenderView, steps: Seq<Step>, tail: Seq<Vec<u8>>, now_us: u64)
    requires
        valid(v, steps),
        after(v, steps).remainder(tail),
        number(v, steps.len() as int) + tail.len() <= u32::MAX,
    ensures
        kept_at_end(v, steps, tail, now_us).idle(),
{
    lemma_rest_idle(v, steps);
    let u = after(v, steps).flushed();
    sender::lemma_redundancy_kept(u, number(v, steps.len() as int) as u32, tail, now_us);
}

/// A chunk that `Sending` takes in is a step of a run: its data packet, then what it left of
/// the sender once the packet was sent.
pub proof fn lemma_sending_steps(before: SendView, p: DataPacket, len: nat, step: Step)
    requires
        p.seq == before.sender.next_seq,
        p.wire@ == sender::data_wire(p.seq, p.payload@),
        p.payload@ == step.payload,
    ensures
        (SendView { sender: before.sender.numbered(), ..before }).sent(
            p,
            len,
            step.wires,
            step.now_us,
        ).sender == stepped(before.sender, step),
{
}

/// Two states that differ at most in what is kept and in what NACKs told.
pub open spec fn alike(a: SenderView, b: SenderView) -> bool {
    a == (SenderView {
        sent: a.sent,
        last_rtt_us: a.last_rtt_us,
        nack_count: a.nack_count,
        ..b
    })
}

/// The coded packets do not depend on what is kept or on what NACKs told.
proof fn lemma_alike_codes(a: SenderView, b: SenderView, wires: Seq<Vec<u8>>)
    requires
        alike(a, b),
        a.generation_wires(wires),
    ensures
        b.generation_wires(wires),
{
    assert forall|i: int| 0 <= i < wires.len() implies b.is_coded_wire(
        i,
        (#[trigger] wires[i])@,
    ) by {
        assert(a.is_coded_wire(i, wires[i]@));
        let data = choose|data: Seq<u8>|
            {
                &&& sender::codes(
                    a.source,
                    a.source_size,
                    a.generation_id(),
                    (a.next_seq + i) as u32,
                    data,
                )
                &&& wires[i]@ == #[trigger] sender::fec_wire((a.next_seq + i) as u32, data)
            };
        assert(wires[i]@ == sender::fec_wire((b.next_seq + i) as u32, data));
    }
}

/// NACKs and retransmissions between the chunks leave a run as it is: the next chunk and
/// the end of the file bring about the same packets, and the states stay alike.
pub proof fn lemma_feedback_between(
    a: SenderView,
    b: SenderView,
    s: Step,
    tail: Seq<Vec<u8>>,
    seqs: Seq<u32>,
    seq: u32,
    now_us: u64,
)
    requires
        alike(a, b),
    ensures
        alike(a.nacked(seqs, now_us), b),
        alike(a.resent(seq, now_us), b),
        step_valid(a, s) ==> step_valid(b, s) && alike(stepped(a, s), stepped(b, s)),
        a.remainder(tail) ==> b.remainder(tail),
        a.flushed().next_seq == b.flushed().next_seq,
{
    let x = a.numbered();
    let y = b.numbered();
    assert(alike(x, y));
    if step_valid(a, s) {
        let f = x.source_fed(a.next_seq, s.payload);
        let g = y.source_fed(b.next_seq, s.payload);
        assert(alike(f, g));
        assert(x.redundancy_due() == y.redundancy_due());
        if x.redundancy_due() > 0 && a.fec_mode != FecMode::Xor {
            lemma_alike_codes(f, g, s.wires);
        }
        assert(step_valid(b, s));
        lemma_stepped_shape(a, s);
        lemma_stepped_shape(b, s);
        assert(alike(x.protected(a.next_seq, s.payload), y.protected(b.next_seq, s.payload)));
    }
    if a.remainder(tail) && a.redundancy_left() > 0 && a.fec_mode != FecMode::Xor {
        lemma_alike_codes(a, b, tail);
    }
}

} // verus!
