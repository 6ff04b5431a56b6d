use chirp::protocol::fec::FecMode;
use chirp::protocol::packet::{Packet, PacketFlags, MAX_PACKET_SIZE};
use chirp::transfer::sender::{ChirpSender, SenderConfig};
use std::time::Duration;

fn sender(config: SenderConfig) -> ChirpSender {
    ChirpSender::new(&config)
}

#[test]
fn default_configuration() {
    let c = SenderConfig::default();
    assert_eq!(c.initial_rate_bps, 10_000_000);
    assert_eq!(c.max_rate_bps, 1_000_000_000);
    assert_eq!((c.fec_block_size, c.rlnc_generation_size), (8, 16));
    assert_eq!(c.fec_mode, FecMode::Xor);
    assert_eq!(c.fin_timeout_secs, 120);
    assert!(c.fec_enabled && !c.encryption_enabled && c.encryption_key.is_none());
}

#[test]
fn data_packets_are_numbered_from_one() {
    let mut s = sender(SenderConfig { fec_enabled: false, ..SenderConfig::default() });
    let a = s.data_packet(&[1, 2]).ok().unwrap();
    let b = s.data_packet(&[3]).ok().unwrap();
    assert_eq!((a.seq, b.seq), (1, 2));
    assert_eq!(s.last_data_seq(), 2);
    assert_eq!(s.fin_seq(), 3);
    let p = Packet::decode(&b.wire).unwrap();
    assert_eq!(p.header.seq, 2);
    assert!(p.header.flags.contains(PacketFlags::DATA));
    assert_eq!(p.payload, [3]);
    assert!(s.protect(b.seq, &b.payload).is_empty());
    assert!(s.flush().is_empty());
    s.begin();
    assert_eq!(s.fin_seq(), 1);
    assert_eq!(s.last_data_seq(), 0);
}

#[test]
fn parity_follows_every_block() {
    let mut s = sender(SenderConfig { fec_block_size: 2, ..SenderConfig::default() });
    assert!(s.can_number(1));
    assert!(s.can_protect(1_200));
    let a = s.data_packet(&[1, 2]).ok().unwrap();
    assert!(s.protect(a.seq, &a.payload).is_empty());
    let b = s.data_packet(&[4]).ok().unwrap();
    let wires = s.protect(b.seq, &b.payload);
    assert_eq!(wires.len(), 1);
    let parity = Packet::decode(&wires[0]).unwrap();
    assert_eq!(parity.header.seq, 3);
    assert!(parity.header.flags.contains(PacketFlags::FEC));
    assert_eq!(parity.payload, [5, 2]);
    let c = s.data_packet(&[9]).ok().unwrap();
    assert_eq!(c.seq, 4);
    assert!(s.protect(c.seq, &c.payload).is_empty());
    assert!(s.can_flush());
    let rest = s.flush();
    let tail = Packet::decode(&rest[0]).unwrap();
    assert_eq!((tail.header.seq, &tail.payload[..]), (5, &[9u8][..]));
    assert!(s.flush().is_empty());
    assert_eq!(s.fin_seq(), 6);
}

#[test]
fn a_block_under_way_outlasts_a_new_start() {
    let mut s = sender(SenderConfig { fec_block_size: 2, ..SenderConfig::default() });
    let a = s.data_packet(&[1, 2]).ok().unwrap();
    assert!(s.protect(a.seq, &a.payload).is_empty());
    s.begin();
    let b = s.data_packet(&[4]).ok().unwrap();
    assert_eq!(b.seq, 1);
    assert_eq!(s.protect(b.seq, &b.payload), vec![Packet::fec(2, vec![5, 2]).encode()]);
}

#[test]
fn a_sender_that_sent_to_the_end_is_ready_for_another() {
    for fec_mode in [FecMode::Xor, FecMode::Rlnc] {
        let mut s = sender(SenderConfig { fec_mode, ..SenderConfig::default() });
        for _ in 0..2 {
            s.begin();
            assert!(s.flush().is_empty());
            for i in 0u8..3 {
                let p = s.data_packet(&[i]).ok().unwrap();
                assert_eq!(p.seq, i as u32 + 1);
                assert!(s.protect(p.seq, &p.payload).is_empty());
            }
            assert!(!s.flush().is_empty());
        }
    }
}

#[test]
fn redundancy_is_kept_and_sent_again() {
    let mut s = sender(SenderConfig { fec_block_size: 1, ..SenderConfig::default() });
    let a = s.data_packet(&[9]).ok().unwrap();
    s.record_sent(a.seq, a.wire, 1_000);
    let first = s.next_seq();
    assert_eq!(first, 2);
    let wires = s.protect(a.seq, &a.payload);
    s.record_redundancy(first, &wires, 2_000);
    assert_eq!(s.wire(2), Some(&Packet::fec(2, vec![9]).encode()[..]));
    assert_eq!(s.on_nack(&Packet::nack(&[2]).payload, 5_000), [2]);
    assert_eq!(s.last_rtt_us(), 3_000);
}

#[test]
fn packets_of_full_chunks_have_room_in_a_datagram() {
    for fec_mode in [FecMode::Xor, FecMode::Rlnc] {
        for key in [None, Some([1u8; 32])] {
            let mut s = sender(SenderConfig {
                fec_mode,
                encryption_enabled: key.is_some(),
                encryption_key: key,
                ..SenderConfig::default()
            });
            let sealing = if key.is_some() { 28 } else { 0 };
            let coding = if fec_mode == FecMode::Rlnc { 20 } else { 0 };
            assert_eq!(s.chunk_len(), 1_200 - sealing - coding);
            let chunk = vec![0xA5; s.chunk_len()];
            let mut longest = 0;
            for _ in 0..16 {
                let p = s.data_packet(&chunk).ok().unwrap();
                longest = longest.max(p.wire.len());
                for w in s.protect(p.seq, &p.payload) {
                    longest = longest.max(w.len());
                }
            }
            assert_eq!(longest, MAX_PACKET_SIZE);
        }
    }
}

#[test]
fn generations_carry_half_as_many_coded_packets() {
    let mut s = sender(SenderConfig {
        fec_mode: FecMode::Rlnc,
        rlnc_generation_size: 4,
        ..SenderConfig::default()
    });
    let mut wires = Vec::new();
    for i in 0u8..4 {
        let p = s.data_packet(&[i, i]).ok().unwrap();
        assert!(wires.is_empty());
        wires = s.protect(p.seq, &p.payload);
    }
    assert_eq!(wires.len(), 2);
    for (i, w) in wires.iter().enumerate() {
        let p = Packet::decode(w).unwrap();
        assert_eq!(p.header.seq, 5 + i as u32);
        assert_eq!(p.payload.len(), 4 + 4 + 2);
        assert_eq!(p.payload[..4], [0, 4, 0, 1]);
    }
    let p = s.data_packet(&[7]).ok().unwrap();
    assert_eq!(p.seq, 7);
    assert!(s.protect(p.seq, &p.payload).is_empty());
    let rest = s.flush();
    assert_eq!(rest.len(), 1);
    assert_eq!(Packet::decode(&rest[0]).unwrap().payload[..4], [0, 1, 0, 7]);
}

#[test]
fn sent_packets_are_kept_and_sent_again() {
    let mut s = sender(SenderConfig { fec_enabled: false, ..SenderConfig::default() });
    let mut wires = Vec::new();
    for i in 0u8..3 {
        let p = s.data_packet(&[i]).ok().unwrap();
        wires.push(p.wire.clone());
        s.record_sent(p.seq, p.wire, 1_000 * (i as u64 + 1));
    }
    assert_eq!(s.last_rtt_us(), 5_000);
    let nack = Packet::nack(&[3, 9, 1]);
    assert_eq!(s.on_nack(&nack.payload, 10_000), [3, 1]);
    assert_eq!(s.last_rtt_us(), 7_000);
    assert_eq!(s.nack_count(), 1);
    assert_eq!(s.wire(3).unwrap(), &wires[2][..]);
    assert_eq!(s.wire(9), None);
    assert!(s.can_resend(3));
    assert!(!s.can_resend(9));
    s.retransmitted(3, 11_000);
    s.retransmitted(1, 11_000);
    s.retransmitted(3, 12_000);
    assert_eq!(s.wire(3).unwrap(), &wires[2][..]);
    assert_eq!(s.retransmissions(), Some(3));
    // The age was set back, so the same NACK shows a shorter round trip.
    s.on_nack(&nack.payload, 12_500);
    assert_eq!(s.last_rtt_us(), 500);
    // A NACK for a packet that is not kept shows nothing.
    s.on_nack(&Packet::nack(&[9, 3]).payload, 90_000);
    assert_eq!(s.last_rtt_us(), 500);
    s.on_nack(&[], 90_000);
    assert_eq!(s.nack_count(), 4);
    s.begin();
    assert_eq!(s.wire(3), None);
    assert_eq!(s.nack_count(), 0);
    assert_eq!(s.last_rtt_us(), 500);
}

#[test]
fn encrypted_packets_hold_no_plaintext() {
    let key = [8u8; 32];
    let mut s = sender(SenderConfig {
        encryption_enabled: true,
        encryption_key: Some(key),
        ..SenderConfig::default()
    });
    let p = s.data_packet(b"plaintext here").ok().unwrap();
    assert_eq!(p.payload.len(), 12 + 14 + 16);
    assert!(!p.wire.windows(9).any(|w| w == b"plaintext"));
    assert_eq!(Packet::decode(&p.wire).unwrap().payload, p.payload);
}

#[test]
fn statistics_of_a_transfer() {
    let mut s = sender(SenderConfig::default());
    let p = s.data_packet(&[1]).ok().unwrap();
    s.record_sent(p.seq, p.wire, 0);
    s.retransmitted(1, 5);
    let stats = s.stats(1, Duration::from_millis(3)).unwrap();
    assert_eq!(stats.bytes_sent, 1);
    assert_eq!(stats.packets_sent, 1);
    assert_eq!(stats.retransmissions, 1);
    assert_eq!(stats.fec_recoveries, 0);
    let snap = s.progress("f", 1, None, Duration::from_millis(2));
    assert_eq!(snap.filename, "f");
    assert_eq!(snap.bytes_sent, 1);
    assert_eq!(snap.clone().total_size, None);
}

#[test]
fn nacks_between_the_chunks_change_no_packet() {
    let config = SenderConfig { fec_block_size: 2, ..SenderConfig::default() };
    let mut quiet = sender(config.clone());
    let mut busy = sender(config);
    quiet.begin();
    busy.begin();
    for i in 0u8..5 {
        let a = quiet.data_packet(&[i, i + 1]).ok().unwrap();
        let b = busy.data_packet(&[i, i + 1]).ok().unwrap();
        assert_eq!(a.wire, b.wire);
        busy.record_sent(b.seq, b.wire, 10);
        for seq in busy.on_nack(&Packet::nack(&[1, b.seq]).payload, 20) {
            busy.retransmitted(seq, 30);
        }
        assert_eq!(quiet.protect(a.seq, &a.payload), busy.protect(b.seq, &b.payload));
    }
    assert!(busy.retransmissions().unwrap() > 0);
    assert_eq!(quiet.flush(), busy.flush());
    assert_eq!(quiet.fin_seq(), busy.fin_seq());
}
