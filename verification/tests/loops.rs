//! The turns of both ends of a transfer.

use chirp::protocol::fec::FecMode;
use chirp::protocol::packet::{nack_seqs, Packet};
use chirp::transfer::crypto::CryptoError;
use chirp::transfer::output::write_steps;
use chirp::transfer::receive_loop::{Receiving, Taken, Turn};
use chirp::transfer::receiver::{known_size, ChirpReceiver, ReceiverConfig};
use chirp::transfer::send_loop::{SendDuties, Sending};
use chirp::transfer::sender::{ChirpSender, SenderConfig};
use chirp::transfer::session::{feedback, received_syn, syn_packet, Feedback};

fn gen_data(size: usize) -> Vec<u8> {
    (0..size)
        .map(|i| (i.wrapping_mul(6364136223846793005_usize).wrapping_add(1) >> 33) as u8)
        .collect()
}

fn receiving(config: ReceiverConfig, size: Option<u64>, name: &str) -> Receiving {
    let syn = received_syn(&syn_packet(size, name).encode()).unwrap();
    Receiving::new(ChirpReceiver::new(&config).ok().unwrap(), &syn, 30, 0)
}

fn plain() -> ReceiverConfig {
    ReceiverConfig { fec_enabled: false, ..ReceiverConfig::default() }
}

/// Hands every datagram of a sender to a receiver, in order.
fn loopback(size_mb: usize, fec_enabled: bool, fec_mode: FecMode) {
    let data = gen_data(size_mb * 1024 * 1024);
    let mut s = Sending::new(
        ChirpSender::new(&SenderConfig { fec_enabled, fec_mode, ..SenderConfig::default() }),
        0,
    );
    let mut r = receiving(
        ReceiverConfig { fec_enabled, fec_mode, ..ReceiverConfig::default() },
        Some(data.len() as u64),
        "file.bin",
    );

    let chunk_len = s.sender().chunk_len();
    for chunk in data.chunks(chunk_len) {
        assert!(s.sender().can_number(1));
        let p = s.data_packet(chunk).ok().unwrap();
        assert_eq!(r.on_datagram(&p.wire, 0), Taken::Processed);
        assert!(s.can_send(p.payload.len(), chunk.len()));
        for wire in s.on_sent(p, chunk.len(), 0) {
            assert_eq!(r.on_datagram(&wire, 0), Taken::Processed);
        }
    }
    assert!(s.sender().can_flush());
    for wire in s.finish(0) {
        assert_eq!(r.on_datagram(&wire, 0), Taken::Processed);
    }
    assert!(matches!(r.start_turn(0), Turn::Listen));
    let fin_seq = s.sender().fin_seq();
    assert_eq!(r.on_datagram(&Packet::fin(fin_seq).encode(), 0), Taken::Processed);

    match r.start_turn(0) {
        Turn::Finish(ack) => {
            assert!(matches!(feedback(&ack.encode(), Some(fin_seq)), Feedback::Done));
        }
        _ => panic!("the transfer is complete"),
    }
    let (steps, total) = write_steps(r.receiver().received(), known_size(r.file_size()));
    let mut received = Vec::new();
    for step in steps {
        received.extend_from_slice(&r.receiver().received().get(step.seq).unwrap()[..step.len]);
    }
    assert_eq!(received.len(), data.len(), "size mismatch");
    assert_eq!(received, data, "data integrity check FAILED");
    assert_eq!(total, data.len() as u64);
    assert_eq!(s.total_sent(), data.len() as u64);
    assert_eq!(r.nack_count(), 0);
}

#[test]
fn transfer_1mb_fec_on() {
    loopback(1, true, FecMode::Xor);
}

#[test]
fn transfer_10mb_fec_on() {
    loopback(10, true, FecMode::Xor);
}

#[test]
fn transfer_10mb_fec_off() {
    loopback(10, false, FecMode::Xor);
}

#[test]
fn transfer_10mb_rlnc_fec() {
    loopback(10, true, FecMode::Rlnc);
}

#[test]
fn a_receive_knows_what_the_syn_told() {
    let r = receiving(plain(), Some(77), "name.txt");
    assert_eq!(r.file_size(), 77);
    assert_eq!(r.filename(), "name.txt");
    assert_eq!(r.nack_count(), 0);
    assert!(r.can_turn(0));
    assert!(matches!(r.start_turn(0), Turn::Listen));
}

#[test]
fn silence_ends_a_receive() {
    let mut r = receiving(plain(), Some(10), "");
    assert!(matches!(r.start_turn(30_000_000), Turn::Listen));
    assert!(matches!(r.start_turn(30_000_001), Turn::IdleTimeout));
    // Any datagram breaks the silence, a packet or not.
    assert_eq!(r.on_datagram(b"noise", 20_000_000), Taken::Ignored);
    assert!(matches!(r.start_turn(50_000_000), Turn::Listen));
    assert!(matches!(r.start_turn(50_000_001), Turn::IdleTimeout));
    // Time does not run back.
    assert!(!r.can_turn(19_999_999));
}

#[test]
fn what_becomes_of_a_datagram() {
    let mut r = receiving(plain(), Some(10), "");
    assert_eq!(r.on_datagram(&Packet::data(1, vec![1; 10]).encode(), 0), Taken::Processed);
    assert_eq!(r.receiver().received_bytes(), 10);
    assert_eq!(r.on_datagram(&[], 0), Taken::Ignored);

    let key = Some([7u8; 32]);
    let mut r = receiving(
        ReceiverConfig {
            fec_enabled: false,
            encryption_enabled: true,
            encryption_key: key,
            ..ReceiverConfig::default()
        },
        Some(10),
        "",
    );
    let short = Packet::data(1, vec![1; 3]).encode();
    assert_eq!(r.on_datagram(&short, 0), Taken::Failed(CryptoError::TooShort));
    let forged = Packet::data(1, vec![1; 40]).encode();
    assert_eq!(r.on_datagram(&forged, 0), Taken::Failed(CryptoError::DecryptionFailed));
}

#[test]
fn a_packet_that_cannot_be_numbered_is_out_of_range() {
    // Parity at number zero would end a block before the first one.
    let mut r = receiving(ReceiverConfig::default(), Some(10), "");
    assert_eq!(r.on_datagram(&Packet::fec(0, vec![1; 4]).encode(), 0), Taken::OutOfRange);
    assert_eq!(r.on_datagram(&Packet::data(0, vec![1; 4]).encode(), 0), Taken::OutOfRange);
    // What cannot be decrypted is refused as such, whatever its number.
    let sealed = ReceiverConfig {
        encryption_enabled: true,
        encryption_key: Some([7; 32]),
        ..ReceiverConfig::default()
    };
    let mut r = receiving(sealed, Some(10), "");
    assert_eq!(
        r.on_datagram(&Packet::data(0, vec![1; 4]).encode(), 0),
        Taken::Failed(CryptoError::TooShort)
    );
}

#[test]
fn a_stream_with_parity_ends() {
    // Block of eight, size not told: three chunks, the parity of the rest, the FIN.
    let mut r = receiving(ReceiverConfig::default(), None, "-");
    assert_eq!(r.file_size(), u64::MAX);
    let chunks = [vec![1u8; 1_200], vec![2; 1_200], vec![3; 77]];
    let mut parity = vec![3u8; 1_200];
    for b in parity.iter_mut().take(77) {
        *b = 0;
    }
    for (i, c) in chunks.iter().enumerate() {
        let wire = Packet::data(i as u32 + 1, c.clone()).encode();
        assert_eq!(r.on_datagram(&wire, 0), Taken::Processed);
    }
    assert_eq!(r.on_datagram(&Packet::fec(4, parity).encode(), 0), Taken::Processed);
    assert!(matches!(r.start_turn(0), Turn::Listen));
    assert_eq!(r.on_datagram(&Packet::fin(5).encode(), 0), Taken::Processed);
    match r.start_turn(0) {
        Turn::Finish(ack) => {
            assert!(matches!(feedback(&ack.encode(), Some(5)), Feedback::Done));
        }
        _ => panic!("the transfer is complete"),
    }
    assert_eq!(r.nack_count(), 0);
    let (steps, total) = write_steps(r.receiver().received(), known_size(r.file_size()));
    let mut out = Vec::new();
    for step in steps {
        out.extend_from_slice(&r.receiver().received().get(step.seq).unwrap()[..step.len]);
    }
    assert_eq!(out, chunks.concat());
    assert_eq!(total, 2_477);
}

#[test]
fn the_parity_of_the_rest_is_sent_again() {
    let mut s = sending(true, 8);
    let p = s.data_packet(&[1, 2, 3]).ok().unwrap();
    let data = p.wire.clone();
    assert!(s.on_sent(p, 3, 10).is_empty());
    let rest = s.finish(20);
    assert_eq!(rest, vec![Packet::fec(2, vec![1, 2, 3]).encode()]);
    let mut r = receiving(ReceiverConfig::default(), None, "");
    r.on_datagram(&data, 0);
    r.on_datagram(&Packet::fin(s.sender().fin_seq()).encode(), 0);
    // The parity was lost.
    let nacks = r.end_turn(false, 1_000).nacks;
    assert_eq!(nack_seqs(&nacks[0].payload), vec![2]);
    assert_eq!(s.sender().on_nack(&nacks[0].payload, 30), vec![2]);
    let again = s.sender().wire(2).unwrap().to_vec();
    assert_eq!(r.on_datagram(&again, 2_000), Taken::Processed);
    assert!(matches!(r.start_turn(2_000), Turn::Finish(_)));
}

#[test]
fn a_gap_is_asked_for_at_intervals() {
    let mut r = receiving(plain(), Some(50), "");
    for seq in [1u32, 4] {
        r.on_datagram(&Packet::data(seq, vec![9; 10]).encode(), 2_000);
    }
    let duties = r.end_turn(false, 2_000);
    assert_eq!(duties.nacks.len(), 1);
    assert_eq!(nack_seqs(&duties.nacks[0].payload), vec![2, 3]);
    assert_eq!(r.nack_count(), 1);
    // Not again before 50 ms have gone by.
    assert!(r.end_turn(false, 51_000).nacks.is_empty());
    assert_eq!(r.end_turn(false, 52_000).nacks.len(), 1);
    assert_eq!(r.nack_count(), 2);
}

#[test]
fn before_anything_came_a_whole_window_is_asked_for() {
    let mut r = receiving(plain(), Some(50), "");
    let duties = r.end_turn(false, 1_000);
    // 16 384 numbers, 300 in each NACK.
    assert_eq!(duties.nacks.len(), 55);
    assert_eq!(nack_seqs(&duties.nacks[0].payload)[0], 1);
    assert_eq!(*nack_seqs(&duties.nacks[54].payload).last().unwrap(), 16_384);
    assert_eq!(r.nack_count(), 55);
}

#[test]
fn after_the_fin_everything_that_lacks_is_asked_for() {
    let mut r = receiving(plain(), Some(100), "");
    r.on_datagram(&Packet::data(2, vec![9; 10]).encode(), 0);
    r.on_datagram(&Packet::fin(1_000).encode(), 0);
    // 998 numbers, 300 in each NACK.
    let duties = r.end_turn(false, 1_000);
    assert_eq!(duties.nacks.len(), 4);
    let mut asked = Vec::new();
    for nack in &duties.nacks {
        asked.extend(nack_seqs(&nack.payload));
    }
    let lacking: Vec<u32> = (1..1_000).filter(|s| *s != 2).collect();
    assert_eq!(asked, lacking);
    assert_eq!(r.nack_count(), 4);
    // There is no interval any more.
    assert_eq!(r.end_turn(false, 1_001).nacks.len(), 4);
}

#[test]
fn records_and_reports_come_at_intervals() {
    let mut r = receiving(plain(), Some(10), "");
    let d = r.end_turn(true, 199_999);
    assert!(!d.progress && !d.sidecar);
    let d = r.end_turn(true, 200_000);
    assert!(d.progress && !d.sidecar);
    let d = r.end_turn(true, 399_999);
    assert!(!d.progress && !d.sidecar);
    let d = r.end_turn(true, 1_000_000);
    assert!(d.progress && d.sidecar);
    let d = r.end_turn(true, 1_999_999);
    assert!(d.progress && !d.sidecar);
    let d = r.end_turn(false, 2_000_000);
    assert!(!d.progress && !d.sidecar);
    assert!(r.end_turn(true, 2_000_000).sidecar);
}

fn sending(fec_enabled: bool, fec_block_size: usize) -> Sending {
    let config = SenderConfig { fec_enabled, fec_block_size, ..SenderConfig::default() };
    Sending::new(ChirpSender::new(&config), 0)
}

#[test]
fn delays_add_up_to_a_sleep() {
    let mut s = sending(false, 8);
    assert!(s.can_pace(999));
    assert_eq!(s.pace(400), None);
    assert_eq!(s.pace(599), None);
    assert_eq!(s.pace(1), Some(1_000));
    assert_eq!(s.pace(0), None);
    assert_eq!(s.pace(5_000), Some(5_000));
    assert_eq!(s.pace(7), None);
    assert!(s.can_pace(u64::MAX - 7));
    assert!(!s.can_pace(u64::MAX - 6));
}

#[test]
fn rate_and_reports_go_by_the_clock() {
    let mut s = sending(false, 8);
    assert_eq!(s.end_turn(99_999), SendDuties { tick: false, progress: false });
    assert_eq!(s.end_turn(100_000), SendDuties { tick: true, progress: false });
    assert_eq!(s.end_turn(199_999), SendDuties { tick: false, progress: false });
    assert_eq!(s.end_turn(200_000), SendDuties { tick: true, progress: true });
    assert_eq!(s.end_turn(399_999), SendDuties { tick: true, progress: false });
    assert_eq!(s.end_turn(400_000), SendDuties { tick: false, progress: true });
}

#[test]
fn a_full_block_brings_parity() {
    let mut s = sending(true, 2);
    let first = s.data_packet(&[1, 2, 3]).ok().unwrap();
    assert_eq!(first.seq, 1);
    assert!(s.on_sent(first, 3, 10).is_empty());
    let second = s.data_packet(&[4, 4]).ok().unwrap();
    assert_eq!(second.seq, 2);
    let wires = s.on_sent(second, 2, 20);
    assert_eq!(wires, vec![Packet::fec(3, vec![1 ^ 4, 2 ^ 4, 3]).encode()]);
    assert_eq!(s.total_sent(), 5);
    // What was sent is kept for a NACK, parity too.
    assert_eq!(s.sender().wire(2), Some(Packet::data(2, vec![4, 4]).encode().as_slice()));
    assert_eq!(s.sender().wire(3), Some(wires[0].as_slice()));
    let seqs = s.sender().on_nack(&Packet::nack(&[3, 7, 1]).payload, 30);
    assert_eq!(seqs, vec![3, 1]);
    let sender = s.into_sender();
    assert_eq!(sender.last_data_seq(), 2);
    assert_eq!(sender.nack_count(), 1);
    assert_eq!(sender.fin_seq(), 4);
}

#[test]
fn a_send_starts_anew() {
    let mut s = sending(false, 8);
    let p = s.data_packet(&[1]).ok().unwrap();
    s.on_sent(p, 1, 0);
    let mut again = Sending::new(s.into_sender(), 5);
    assert_eq!(again.total_sent(), 0);
    assert_eq!(again.sender().wire(1), None);
    assert_eq!(again.data_packet(&[2]).ok().unwrap().seq, 1);
    assert_eq!(again.end_turn(100_004), SendDuties { tick: false, progress: false });
    assert_eq!(again.end_turn(100_005), SendDuties { tick: true, progress: false });
}
