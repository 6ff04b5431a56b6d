//! Whole transfers without a network: packets of a sender are handed to a receiver, some
//! of them lost, repeated or out of order.

use chirp::protocol::fec::FecMode;
use chirp::protocol::nack::InstantMs;
use chirp::protocol::packet::{Packet, MAX_PACKET_SIZE};
use chirp::transfer::output::write_steps;
use chirp::transfer::receiver::{nack_packets, ChirpReceiver, ReceiverConfig};
use chirp::transfer::send_loop::Sending;
use chirp::transfer::sender::{ChirpSender, SenderConfig};
use chirp::transfer::session::{feedback, Feedback};

fn gen_data(size: usize) -> Vec<u8> {
    (0..size)
        .map(|i| (i.wrapping_mul(6364136223846793005_usize).wrapping_add(1) >> 33) as u8)
        .collect()
}

struct Mode {
    fec_enabled: bool,
    fec_mode: FecMode,
    key: Option<[u8; 32]>,
    size_known: bool,
}

/// Transfers the data; packets for which `lost` holds do not arrive the first time.
fn transfer(data: &[u8], mode: Mode, lost: fn(u32) -> bool) -> (Vec<u8>, u64, u64) {
    let mut s = ChirpSender::new(&SenderConfig {
        fec_enabled: mode.fec_enabled,
        fec_mode: mode.fec_mode,
        encryption_enabled: mode.key.is_some(),
        encryption_key: mode.key,
        ..SenderConfig::default()
    });
    let mut r = ChirpReceiver::new(&ReceiverConfig {
        fec_enabled: mode.fec_enabled,
        fec_mode: mode.fec_mode,
        encryption_enabled: mode.key.is_some(),
        encryption_key: mode.key,
        ..ReceiverConfig::default()
    })
    .ok()
    .unwrap();
    let file_size = if mode.size_known { data.len() as u64 } else { u64::MAX };

    s.begin();
    let mut wires = Vec::new();
    for chunk in data.chunks(s.chunk_len()) {
        let p = s.data_packet(chunk).ok().unwrap();
        wires.push(p.wire.clone());
        s.record_sent(p.seq, p.wire, 0);
        let first = s.next_seq();
        let redundancy = s.protect(p.seq, &p.payload);
        s.record_redundancy(first, &redundancy, 0);
        wires.extend(redundancy);
    }
    let first = s.next_seq();
    let rest = s.flush();
    s.record_redundancy(first, &rest, 0);
    wires.extend(rest);
    for wire in &wires {
        assert!(wire.len() <= MAX_PACKET_SIZE);
    }
    let fin = Packet::fin(s.fin_seq()).encode();

    // Out of order, with some of them twice.
    wires.reverse();
    for wire in &wires {
        let p = Packet::decode(wire).unwrap();
        if !lost(p.header.seq) {
            assert!(r.admits(&p));
            r.process_packet(&p).unwrap();
            if p.header.seq % 3 == 0 {
                r.process_packet(&p).unwrap();
            }
        }
    }
    r.process_packet(&Packet::decode(&fin).unwrap()).unwrap();

    let mut rounds = 0;
    while !r.is_complete(file_size) {
        rounds += 1;
        assert!(rounds < 10);
        let missing = r.due_nacks(InstantMs::from_ticks(rounds), file_size);
        for nack in nack_packets(&missing) {
            if let Feedback::Nack(p) = feedback(&nack.encode(), Some(s.fin_seq())) {
                for seq in s.on_nack(&p.payload, 1) {
                    let wire = s.wire(seq).unwrap().to_vec();
                    s.retransmitted(seq, 2);
                    r.process_packet(&Packet::decode(&wire).unwrap()).unwrap();
                }
            }
        }
    }

    let size = if mode.size_known { Some(file_size) } else { None };
    let (steps, total) = write_steps(r.received(), size);
    let mut out = Vec::new();
    for step in steps {
        out.extend_from_slice(&r.received().get(step.seq).unwrap()[..step.len]);
    }
    assert_eq!(total, out.len() as u64);
    (out, r.fec_recoveries(), s.retransmissions().unwrap() as u64)
}

fn mode(fec_enabled: bool, fec_mode: FecMode) -> Mode {
    Mode { fec_enabled, fec_mode, key: None, size_known: true }
}

#[test]
fn without_loss_nothing_is_repeated() {
    let data = gen_data(100_000);
    let (out, _, resent) = transfer(&data, mode(true, FecMode::Xor), |_| false);
    assert_eq!(out, data);
    assert_eq!(resent, 0);
}

#[test]
fn parity_makes_up_for_one_loss_in_each_block() {
    // One packet of each block of eight, the last data packet among them.
    let data = gen_data(1_200 * 8 * 5);
    let (out, recovered, resent) = transfer(&data, mode(true, FecMode::Xor), |s| s % 9 == 8);
    assert_eq!(out, data);
    assert_eq!(recovered, 5);
    assert_eq!(resent, 0);
}

#[test]
fn retransmission_makes_up_for_the_rest() {
    let data = gen_data(300_007);
    let (out, _, resent) = transfer(&data, mode(true, FecMode::Xor), |s| s % 5 == 0);
    assert_eq!(out, data);
    assert!(resent > 0);
}

#[test]
fn padding_is_cut_off_at_the_end() {
    // The last block is full, and its last packet is short and lost.
    let data = gen_data(1_200 * 7 + 5);
    let (out, recovered, _) = transfer(&data, mode(true, FecMode::Xor), |s| s == 8);
    assert_eq!(recovered, 1);
    assert_eq!(out, data);
}

#[test]
fn too_few_coded_packets_leave_it_to_retransmission() {
    // A generation of 16 brings eight coded packets, which cannot be solved for 16.
    let data = gen_data(1_180 * 16 * 3);
    let (out, recovered, resent) = transfer(&data, mode(true, FecMode::Rlnc), |s| s % 24 == 1);
    assert_eq!(out, data);
    assert_eq!(recovered, 0);
    assert_eq!(resent, 3);
}

#[test]
fn coded_packets_fill_in_everything() {
    // Of a generation of one, the coded packet alone carries the chunk.
    let data = gen_data(700);
    let (out, recovered, resent) = transfer(&data, mode(true, FecMode::Rlnc), |s| s == 1);
    assert_eq!(out, data);
    assert_eq!(recovered, 1);
    assert_eq!(resent, 0);
}

#[test]
fn plain_and_encrypted_transfers() {
    let data = gen_data(50_001);
    let off = Mode { fec_enabled: false, fec_mode: FecMode::Xor, key: None, size_known: true };
    assert_eq!(transfer(&data, off, |s| s % 4 == 1).0, data);
    let sealed = Mode {
        fec_enabled: false,
        fec_mode: FecMode::Xor,
        key: Some([5; 32]),
        size_known: true,
    };
    assert_eq!(transfer(&data, sealed, |s| s % 7 == 0).0, data);
}

#[test]
fn files_of_unknown_size() {
    let data = gen_data(20_011);
    let unknown = Mode { fec_enabled: false, fec_mode: FecMode::Xor, key: None, size_known: false };
    assert_eq!(transfer(&data, unknown, |s| s % 3 == 2).0, data);
}

#[test]
fn an_empty_file() {
    assert_eq!(transfer(&[], mode(true, FecMode::Xor), |_| false).0, []);
}

#[test]
fn a_last_block_that_is_short() {
    // Seven chunks in a block of eight; the parity of the rest comes under the number 8.
    let data = gen_data(1_200 * 6 + 100);
    let (out, _, resent) = transfer(&data, mode(true, FecMode::Xor), |_| false);
    assert_eq!(out, data);
    assert_eq!(resent, 0);
    let losses: [fn(u32) -> bool; 2] = [|s| s == 3, |s| s == 7];
    for lost in losses {
        let (out, recovered, resent) = transfer(&data, mode(true, FecMode::Xor), lost);
        assert_eq!(out, data);
        assert_eq!(recovered, 1);
        assert_eq!(resent, 0);
    }
    // Fifteen chunks in blocks of eight, one lost in each block.
    let data = gen_data(1_200 * 15 - 3);
    let (out, recovered, resent) =
        transfer(&data, mode(true, FecMode::Xor), |s| s == 2 || s == 12);
    assert_eq!(out, data);
    assert_eq!(recovered, 2);
    assert_eq!(resent, 0);
}

#[test]
fn streams_with_parity() {
    let data = gen_data(30_011);
    let stream = || Mode {
        fec_enabled: true,
        fec_mode: FecMode::Xor,
        key: None,
        size_known: false,
    };
    let (out, _, resent) = transfer(&data, stream(), |_| false);
    assert_eq!((out == data, resent), (true, 0));
    // 26 chunks: the last is 29, and the parity of the rest 30, which is sent again.
    let (out, _, resent) = transfer(&data, stream(), |s| s == 30);
    assert_eq!((out == data, resent), (true, 1));
    // A last chunk that was computed may be padded and is sent again.
    let (out, _, resent) = transfer(&data, stream(), |s| s == 29);
    assert_eq!((out == data, resent), (true, 1));
    let (out, _, resent) = transfer(&data, stream(), |s| s == 20);
    assert_eq!((out == data, resent), (true, 0));
    let (out, _, _) = transfer(&data, stream(), |s| s % 4 == 1);
    assert_eq!(out, data);
}

#[test]
fn encryption_with_parity() {
    // A multiple of the chunk length, and not.
    for size in [1_172 * 16, 1_172 * 16 + 500] {
        for size_known in [true, false] {
            let data = gen_data(size);
            let sealed = || Mode {
                fec_enabled: true,
                fec_mode: FecMode::Xor,
                key: Some([5; 32]),
                size_known,
            };
            let (out, recovered, resent) = transfer(&data, sealed(), |s| s == 3 || s == 11);
            assert_eq!(out, data);
            assert!(recovered >= 2);
            assert_eq!(resent, 0);
            let (out, _, resent) = transfer(&data, sealed(), |s| s % 3 == 1);
            assert_eq!(out, data);
            assert!(resent > 0);
        }
    }
}

#[test]
fn encryption_with_coded_packets() {
    // Chunks of 1 200 bytes less 28 for encryption and 20 for the coding vector.
    let data = gen_data(1_152 * 16 * 2 + 1_000);
    for size_known in [true, false] {
        let sealed = || Mode {
            fec_enabled: true,
            fec_mode: FecMode::Rlnc,
            key: Some([9; 32]),
            size_known,
        };
        let (out, recovered, resent) = transfer(&data, sealed(), |s| s % 24 == 2);
        assert_eq!(out, data);
        assert_eq!(recovered, 0);
        // The third is the coded packet of the last chunk.
        assert_eq!(resent, 3);
        // The coded packet of the last chunk alone carries it, but may be padded.
        let (out, recovered, resent) = transfer(&data, sealed(), |s| s == 49);
        assert_eq!(out, data);
        assert_eq!((recovered, resent), (1, 1));
    }
}

/// Sends chunks under default settings but for the block size, and hands a receiver those
/// datagrams that `lost` spares, in order, then what it asks for.
fn send_chunks(chunks: &[&[u8]], block: usize, size: u64, lost: fn(u32) -> bool) -> (Vec<u8>, u64) {
    let mut s = Sending::new(
        ChirpSender::new(&SenderConfig { fec_block_size: block, ..SenderConfig::default() }),
        0,
    );
    let config = ReceiverConfig { fec_block_size: block, ..ReceiverConfig::default() };
    let mut r = ChirpReceiver::new(&config).ok().unwrap();
    let mut wires = Vec::new();
    for chunk in chunks {
        let p = s.data_packet(chunk).ok().unwrap();
        wires.push(p.wire.clone());
        wires.extend(s.on_sent(p, chunk.len(), 0));
    }
    wires.extend(s.finish(0));
    wires.push(Packet::fin(s.sender().fin_seq()).encode());
    for wire in &wires {
        let p = Packet::decode(wire).unwrap();
        if !lost(p.header.seq) {
            r.process_packet(&p).unwrap();
        }
    }
    // One round is enough: what is asked for comes from what the sender keeps.
    for seq in r.due_nacks(InstantMs::from_ticks(0), size) {
        let wire = s.sender().wire(seq).unwrap().to_vec();
        r.process_packet(&Packet::decode(&wire).unwrap()).unwrap();
    }
    assert!(r.is_complete(size));
    let known = if size == u64::MAX { None } else { Some(size) };
    let mut out = Vec::new();
    for step in write_steps(r.received(), known).0 {
        out.extend_from_slice(&r.received().get(step.seq).unwrap()[..step.len]);
    }
    (out, r.fec_recoveries())
}

#[test]
fn one_packet_for_each_piece() {
    let pieces: [&[u8]; 3] = [b"abc", b"d", b"efghij"];
    // Nothing has to be computed: pieces of any lengths arrive.
    for size in [10, u64::MAX] {
        assert_eq!(send_chunks(&pieces, 8, size, |_| false), (b"abcdefghij".to_vec(), 0));
        assert_eq!(send_chunks(&pieces, 8, size, |s| s == 4), (b"abcdefghij".to_vec(), 0));
        // The longest of a block is computed as it is.
        assert_eq!(send_chunks(&pieces, 8, size, |s| s < 4), (b"abcdefghij".to_vec(), 1));
    }
}

#[test]
fn pieces_of_one_length_in_each_block() {
    // Blocks of two: 1, 2, parity, 4, 5, parity, 7, 8, parity.
    let pieces: [&[u8]; 6] = [b"abcd", b"efgh", b"ijklm", b"nopqr", b"stuv", b"w"];
    let file = pieces.concat();
    for size in [file.len() as u64, u64::MAX] {
        let losses: [fn(u32) -> bool; 3] = [|s| s % 3 == 1 && s < 10, |s| s % 3 == 2, |s| s == 4 || s == 8];
        for lost in losses {
            let (out, recovered) = send_chunks(&pieces, 2, size, lost);
            assert_eq!(out, file);
            assert!(recovered >= 2);
        }
    }
}

#[test]
fn what_is_asked_for_completes() {
    let pieces: [&[u8]; 5] = [&[1; 40], &[2; 40], &[3; 40], &[4; 40], &[5; 7]];
    let file = pieces.concat();
    for size in [file.len() as u64, u64::MAX] {
        for block in [1, 2, 3, 8] {
            let losses: [fn(u32) -> bool; 4] =
                [|s| s < 5, |s| s % 2 == 0, |s| s % 2 == 1 && s < 6, |s| s > 3 && s < 7];
            for lost in losses {
                let fin_lost = lost(pieces.len() as u32 + pieces.len().div_ceil(block) as u32 + 1);
                if !fin_lost {
                    assert_eq!(send_chunks(&pieces, block, size, lost).0, file);
                }
            }
        }
    }
}

#[test]
fn chunks_of_any_length_without_redundancy() {
    let chunks: [&[u8]; 4] = [b"abc", b"d", b"efghij", b"kl"];
    let config = SenderConfig { fec_enabled: false, ..SenderConfig::default() };
    let mut s = ChirpSender::new(&config);
    s.begin();
    let mut wires = Vec::new();
    for chunk in chunks {
        wires.push(s.data_packet(chunk).ok().unwrap().wire);
    }
    for size in [12, u64::MAX] {
        let config = ReceiverConfig { fec_enabled: false, ..ReceiverConfig::default() };
        let mut r = ChirpReceiver::new(&config).ok().unwrap();
        r.process_packet(&Packet::fin(s.fin_seq())).unwrap();
        for wire in wires.iter().rev() {
            assert!(!r.is_complete(size));
            r.process_packet(&Packet::decode(wire).unwrap()).unwrap();
        }
        assert!(r.is_complete(size));
        let mut out = Vec::new();
        for step in write_steps(r.received(), if size == 12 { Some(12) } else { None }).0 {
            out.extend_from_slice(&r.received().get(step.seq).unwrap()[..step.len]);
        }
        assert_eq!(out, b"abcdefghijkl");
    }
}
