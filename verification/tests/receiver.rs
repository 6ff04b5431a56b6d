use chirp::protocol::fec::{FecEncoder, FecMode};
use chirp::protocol::nack::InstantMs;
use chirp::protocol::packet::{nack_seqs, Packet, MAX_PACKET_SIZE};
use chirp::transfer::crypto::CryptoError;
use chirp::transfer::layout::FecLayout;
use chirp::transfer::output::{partial_sidecar, sidecar_path, write_steps, ByteRange, WriteStep};
use chirp::transfer::receiver::{
    display_name, known_size, nack_packets, parse_syn, ChirpReceiver, ReceiverConfig,
};
use chirp::transfer::store::PayloadStore;
use std::time::Duration;

fn layout(fec_enabled: bool, fec_block_size: usize) -> FecLayout {
    FecLayout { fec_enabled, fec_block_size }
}

fn plain() -> ReceiverConfig {
    ReceiverConfig { fec_enabled: false, ..ReceiverConfig::default() }
}

fn xor(block: usize) -> ReceiverConfig {
    ReceiverConfig { fec_block_size: block, ..ReceiverConfig::default() }
}

fn receiver(config: ReceiverConfig) -> ChirpReceiver {
    ChirpReceiver::new(&config).ok().unwrap()
}

fn file_of(r: &ChirpReceiver, size: Option<u64>) -> Vec<u8> {
    let (steps, total) = write_steps(r.received(), size);
    let mut out = Vec::new();
    for s in steps {
        out.extend_from_slice(&r.received().get(s.seq).unwrap()[..s.len]);
    }
    assert_eq!(out.len() as u64, total);
    out
}

#[test]
fn fec_seq_identification() {
    let h = layout(true, 8);
    assert!(h.is_fec_seq(9), "seq 9 must be FEC");
    assert!(h.is_fec_seq(18), "seq 18 must be FEC");
    assert!(h.is_fec_seq(27), "seq 27 must be FEC");
    assert!(!h.is_fec_seq(1), "seq 1 is data");
    assert!(!h.is_fec_seq(8), "seq 8 is data");
    assert!(!h.is_fec_seq(10), "seq 10 is data");
}

#[test]
fn fec_seq_false_when_fec_disabled() {
    let h = layout(false, 8);
    assert!(!h.is_fec_seq(9), "FEC disabled -> never a FEC seq");
}

#[test]
fn fec_block_start_proof() {
    let h = layout(true, 8);
    for seq in 1u32..=9 {
        assert_eq!(h.fec_block_start(seq), 1, "seq={seq}");
    }
    for seq in 10u32..=18 {
        assert_eq!(h.fec_block_start(seq), 10, "seq={seq}");
    }
    assert_eq!(h.fec_block_start(19), 19);
    assert_eq!(h.fec_block_start(27), 19);
}

#[test]
fn blocks_at_the_edges() {
    assert!(!layout(true, 8).is_fec_seq(0));
    assert!(!layout(true, 0).is_fec_seq(1));
    assert_eq!(layout(true, 0).fec_block_start(5), 5);
    assert!(!layout(true, 8).block_in_range(0));
    assert!(layout(true, 8).block_in_range(1));
    assert!(!layout(true, 8).block_in_range(u32::MAX));
    assert!(!layout(true, u32::MAX as usize).block_in_range(1));
}

#[test]
fn data_is_counted_once() {
    let mut r = receiver(plain());
    assert_eq!(r.process_packet(&Packet::data(1, vec![1, 2, 3])), Ok(()));
    assert_eq!(r.process_packet(&Packet::data(1, vec![1, 2, 3])), Ok(()));
    assert_eq!(r.process_packet(&Packet::data(3, vec![9])), Ok(()));
    assert_eq!(r.received_bytes(), 4);
    assert_eq!(r.total_packets(), 3);
    assert_eq!(r.fec_recoveries(), 0);
    assert_eq!(r.fin_seq(), None);
    assert_eq!(file_of(&r, Some(4)), [1, 2, 3, 9]);
    assert_eq!(file_of(&r, Some(2)), [1, 2]);
    assert_eq!(file_of(&r, None), [1, 2, 3, 9]);
}

#[test]
fn parity_heals_a_block() {
    let payloads: Vec<Vec<u8>> = vec![vec![1; 5], vec![2; 5], vec![3; 5], vec![4; 2]];
    for lost in 0..4usize {
        let mut enc = FecEncoder::new(4);
        let mut parity = None;
        for p in &payloads {
            parity = enc.add_payload(p);
        }
        let mut r = receiver(xor(4));
        for (i, p) in payloads.iter().enumerate() {
            if i != lost {
                r.process_packet(&Packet::data(i as u32 + 1, p.clone())).unwrap();
            }
        }
        assert_eq!(r.fec_recoveries(), 0);
        r.process_packet(&Packet::fec(5, parity.unwrap())).unwrap();
        assert_eq!(r.fec_recoveries(), 1);
        let mut want = payloads[lost].clone();
        want.resize(5, 0);
        assert_eq!(r.received().get(lost as u32 + 1), Some(&want));
        assert_eq!(file_of(&r, Some(17)), payloads.concat());
    }
}

#[test]
fn parity_may_come_before_the_data() {
    let mut enc = FecEncoder::new(2);
    enc.add_payload(&[1, 1]);
    let parity = enc.add_payload(&[6, 6]).unwrap();
    let mut r = receiver(xor(2));
    r.process_packet(&Packet::fec(3, parity)).unwrap();
    assert_eq!(r.received_bytes(), 0);
    r.process_packet(&Packet::data(2, vec![6, 6])).unwrap();
    assert_eq!(r.received_bytes(), 4);
    assert_eq!(r.fec_recoveries(), 1);
    // The packet itself may still come, and changes nothing.
    r.process_packet(&Packet::data(1, vec![1, 1])).unwrap();
    assert_eq!(r.received_bytes(), 4);
    assert_eq!(file_of(&r, Some(4)), [1, 1, 6, 6]);
}

#[test]
fn two_losses_are_not_healed() {
    let mut r = receiver(xor(3));
    r.process_packet(&Packet::data(1, vec![5])).unwrap();
    r.process_packet(&Packet::fec(4, vec![9])).unwrap();
    assert_eq!(r.fec_recoveries(), 0);
    assert_eq!(r.full_missing_data_seqs(5, 3), [2, 3]);
}

#[test]
fn coded_packets_fill_a_generation() {
    let config = ReceiverConfig { fec_mode: FecMode::Rlnc, ..ReceiverConfig::default() };
    let mut r = receiver(config);
    r.process_packet(&Packet::data(1, vec![10, 11])).unwrap();
    // Two source packets from number 1 on: 1 * first, then first + second.
    let first = vec![0, 2, 0, 1, 1, 0, 10, 11];
    let sum = vec![0, 2, 0, 1, 1, 1, 10 ^ 20, 11 ^ 21];
    r.process_packet(&Packet::fec(3, first)).unwrap();
    assert_eq!(r.fec_recoveries(), 0);
    r.process_packet(&Packet::fec(4, sum)).unwrap();
    assert_eq!(r.fec_recoveries(), 1);
    assert_eq!(r.received().get(2), Some(&vec![20, 21]));
    // Coded packets are no lost data.
    assert!(r.full_missing_data_seqs(5, 4).is_empty());
    // Where the file ends is not told: the last chunk may be padded.
    assert_eq!(r.full_missing_data_seqs(5, u64::MAX), [2]);
    assert_eq!(file_of(&r, Some(4)), [10, 11, 20, 21]);
}

#[test]
fn coded_packets_that_are_too_short_are_ignored() {
    let config = ReceiverConfig { fec_mode: FecMode::Rlnc, ..ReceiverConfig::default() };
    let mut r = receiver(config);
    r.process_packet(&Packet::fec(1, vec![0, 2, 0])).unwrap();
    r.process_packet(&Packet::fec(2, vec![0, 2, 0, 1, 1])).unwrap();
    assert_eq!(r.received_bytes(), 0);
    assert!(r.full_missing_data_seqs(3, 0).is_empty());
}

#[test]
fn fec_off_ignores_parity() {
    let mut r = receiver(plain());
    r.process_packet(&Packet::fec(9, vec![1, 2])).unwrap();
    assert_eq!(r.received_bytes(), 0);
    assert_eq!(r.full_missing_data_seqs(3, 0), [1, 2]);
}

#[test]
fn completion_counts_bytes_or_gaps() {
    let mut r = receiver(plain());
    r.process_packet(&Packet::data(1, vec![0; 10])).unwrap();
    assert!(!r.is_complete(10));
    r.process_packet(&Packet::fin(3)).unwrap();
    assert_eq!(r.fin_seq(), Some(3));
    assert!(r.is_complete(10));
    assert!(!r.is_complete(11));
    assert!(!r.is_complete(u64::MAX));
    r.process_packet(&Packet::data(2, vec![])).unwrap();
    assert!(r.is_complete(u64::MAX));
    // Other kinds change nothing.
    r.process_packet(&Packet::ack(77)).unwrap();
    assert_eq!(r.fin_seq(), Some(3));
}

#[test]
fn nacks_follow_the_tracker_and_then_the_full_scan() {
    let mut r = receiver(ReceiverConfig { nack_interval_ms: 50, ..plain() });
    assert!(r.layout_in_range());
    r.process_packet(&Packet::data(1, vec![1])).unwrap();
    assert!(r.due_nacks(InstantMs::from_ticks(0), 100).is_empty());
    r.process_packet(&Packet::data(4, vec![1])).unwrap();
    assert_eq!(r.due_nacks(InstantMs::from_ticks(1), 100), [2, 3]);
    assert!(r.in_order(InstantMs::from_ticks(40)));
    assert!(r.due_nacks(InstantMs::from_ticks(40), 100).is_empty());
    assert_eq!(r.due_nacks(InstantMs::from_ticks(51), 100), [2, 3]);
    r.process_packet(&Packet::fin(7)).unwrap();
    assert_eq!(r.due_nacks(InstantMs::from_ticks(52), 100), [2, 3, 5, 6]);
}

#[test]
fn the_full_scan_has_no_window() {
    let mut r = receiver(xor(8));
    r.process_packet(&Packet::fin(40_001)).unwrap();
    let missing = r.due_nacks(InstantMs::from_ticks(0), 100);
    assert_eq!(missing.len(), 40_000 - 40_000 / 9);
    assert_eq!(missing[..9], [1, 2, 3, 4, 5, 6, 7, 8, 10]);
}

#[test]
fn long_lists_go_into_several_nacks() {
    let missing: Vec<u32> = (1..=650).collect();
    let packets = nack_packets(&missing);
    assert_eq!(packets.len(), 3);
    let mut named = Vec::new();
    for p in &packets {
        assert!(p.encode().len() <= MAX_PACKET_SIZE);
        named.extend(nack_seqs(&p.payload));
    }
    assert_eq!(named, missing);
    assert_eq!(packets[2].payload.len(), 200);
    assert!(nack_packets(&[]).is_empty());
    assert_eq!(nack_packets(&missing[..300]).len(), 1);
}

#[test]
fn encrypted_data_is_decrypted_or_refused() {
    let key = [4u8; 32];
    let config = ReceiverConfig {
        encryption_enabled: true,
        encryption_key: Some(key),
        ..plain()
    };
    let mut r = receiver(config);
    let cipher = chirp::transfer::crypto::Cipher::for_sender(true, Some(key));
    let payload = cipher.maybe_encrypt(b"secret").unwrap();
    r.process_packet(&Packet::data(1, payload)).unwrap();
    assert_eq!(r.received().get(1).unwrap(), b"secret");
    assert_eq!(
        r.process_packet(&Packet::data(2, vec![1, 2, 3])),
        Err(CryptoError::TooShort)
    );
    assert_eq!(
        r.process_packet(&Packet::data(2, vec![0; 30])),
        Err(CryptoError::DecryptionFailed)
    );
    assert_eq!(r.total_packets(), 1);
    let no_key = ReceiverConfig { encryption_enabled: true, ..plain() };
    assert_eq!(ChirpReceiver::new(&no_key).err(), Some(CryptoError::MissingKey));
}

#[test]
fn packets_out_of_range_are_told_apart() {
    let r = receiver(xor(8));
    assert!(!r.admits(&Packet::data(0, vec![])));
    assert!(r.admits(&Packet::data(1, vec![])));
    assert!(!r.admits(&Packet::fec(u32::MAX, vec![])));
    assert!(r.admits(&Packet::fin(0)));
    assert!(receiver(plain()).admits(&Packet::data(0, vec![])));
    let huge = receiver(xor(u32::MAX as usize));
    assert!(!huge.admits(&Packet::data(1, vec![])));
    assert!(!huge.layout_in_range());
}

#[test]
fn syn_payload_is_read() {
    let info = parse_syn(&Packet::syn(123_456, "données.bin").payload);
    assert_eq!(info.file_size, 123_456);
    assert_eq!(info.filename, "données.bin");
    let short = parse_syn(&[1, 2, 3]);
    assert_eq!(short.file_size, 0);
    assert_eq!(short.filename, "");
    let mut odd = vec![0u8; 8];
    odd.extend_from_slice(&[b'a', 0xFF, b'b']);
    assert_eq!(parse_syn(&odd).filename, "a\u{FFFD}b");
    assert_eq!(known_size(5), Some(5));
    assert_eq!(known_size(u64::MAX), None);
}

#[test]
fn names_and_paths() {
    assert_eq!(display_name("", "out"), "out");
    assert_eq!(display_name("in", "out"), "in");
    assert_eq!(sidecar_path("/tmp/file.bin"), "/tmp/file.bin.chirp-partial");
}

#[test]
fn ranges_that_touch_are_joined() {
    let mut store = PayloadStore::new();
    for seq in [7u32, 1, 2, 5] {
        store.insert(seq, vec![0; 1200]);
    }
    store.insert(3, vec![0; 100]);
    let sidecar = partial_sidecar(&store);
    assert_eq!(sidecar.version, 1);
    assert_eq!(
        sidecar.ranges,
        [
            ByteRange { start: 0, end: 2_500 },
            ByteRange { start: 4_800, end: 6_000 },
            ByteRange { start: 7_200, end: 8_400 },
        ]
    );
    assert!(partial_sidecar(&PayloadStore::new()).ranges.is_empty());
}

#[test]
fn steps_stop_at_the_end_of_the_file() {
    let mut store = PayloadStore::new();
    store.insert(1, vec![1; 4]);
    store.insert(3, vec![2; 4]);
    store.insert(9, vec![0; 4]);
    assert_eq!(store.highest_seq(), 9);
    assert_eq!(store.sorted_seqs(), [1, 3, 9]);
    let (steps, total) = write_steps(&store, Some(6));
    assert_eq!(
        steps,
        [WriteStep { seq: 1, len: 4 }, WriteStep { seq: 3, len: 2 }]
    );
    assert_eq!(total, 6);
    let (all, bytes) = write_steps(&store, None);
    assert_eq!(all.len(), 3);
    assert_eq!(bytes, 12);
    // Number zero is not part of the file.
    store.insert(0, vec![7; 4]);
    assert_eq!(write_steps(&store, None).1, 12);
    store.clear();
    assert_eq!(write_steps(&store, None), (vec![], 0));
}

#[test]
fn snapshots_and_statistics() {
    let mut r = receiver(plain());
    r.process_packet(&Packet::data(1, vec![1, 2])).unwrap();
    let p = r.progress("", "out", r.received_bytes(), Some(2), Duration::from_secs(1), 3);
    assert_eq!(p.filename, "out");
    assert_eq!(p.bytes_received, 2);
    assert_eq!(p.total_size, Some(2));
    assert_eq!(p.elapsed, Duration::from_secs(1));
    assert_eq!(p.nack_count, 3);
    assert_eq!(p.clone().fec_recoveries, 0);
    let s = r.stats("in", "out", 2, Duration::from_secs(2), 4);
    assert_eq!(s.filename, "in");
    assert_eq!(s.bytes_received, 2);
    assert_eq!(s.packets_received, 1);
    assert_eq!(s.clone().nack_count, 4);
    let d = ReceiverConfig::default();
    assert_eq!((d.nack_interval_ms, d.fec_block_size, d.rlnc_generation_size), (50, 8, 16));
    assert_eq!(d.idle_timeout_secs, 5);
    assert!(d.fec_enabled && !d.encryption_enabled);
}

#[test]
fn parity_tells_how_many_chunks_it_covers() {
    // A last block of three chunks, where blocks have eight.
    for lost in 1u32..=3 {
        let mut r = receiver(xor(8));
        for seq in 1u32..=3 {
            if seq != lost {
                r.process_packet(&Packet::data(seq, vec![seq as u8 * 16; 4])).unwrap();
            }
        }
        r.process_packet(&Packet::fec(4, vec![0x10 ^ 0x20 ^ 0x30; 4])).unwrap();
        assert_eq!(r.fec_recoveries(), 1);
        assert_eq!(r.received().get(lost), Some(&vec![lost as u8 * 16; 4]));
        assert_eq!(r.received().get(4), None);
        r.process_packet(&Packet::fin(5)).unwrap();
        assert!(r.is_complete(12));
    }
}

#[test]
fn the_parity_of_a_single_chunk() {
    // Chunks of one byte in blocks of two: 7, 8, parity, 9, parity.
    let packets = [
        Packet::data(1, vec![7]),
        Packet::data(2, vec![8]),
        Packet::fec(3, vec![7 ^ 8]),
        Packet::data(4, vec![9]),
        Packet::fec(5, vec![9]),
        Packet::fin(6),
    ];
    for lost in 0..5usize {
        let mut r = receiver(xor(2));
        for (i, p) in packets.iter().enumerate() {
            if i != lost {
                r.process_packet(p).unwrap();
            }
        }
        assert!(r.is_complete(3));
        assert_eq!(file_of(&r, Some(3)), [7, 8, 9]);
        assert_eq!(r.received().sorted_seqs(), [1, 2, 4]);
    }
}

#[test]
fn parity_that_came_is_not_asked_for() {
    let mut r = receiver(xor(8));
    for seq in 1u32..=3 {
        r.process_packet(&Packet::data(seq, vec![seq as u8])).unwrap();
    }
    r.process_packet(&Packet::fin(5)).unwrap();
    // Without its parity the number 4 could be that of a chunk.
    assert!(!r.is_complete(u64::MAX));
    assert_eq!(r.due_nacks(InstantMs::from_ticks(0), u64::MAX), [4]);
    assert!(r.is_complete(3));
    r.process_packet(&Packet::fec(4, vec![1 ^ 2 ^ 3])).unwrap();
    assert!(r.is_complete(u64::MAX));
    assert!(r.due_nacks(InstantMs::from_ticks(1), u64::MAX).is_empty());
    assert_eq!(file_of(&r, None), [1, 2, 3]);
}

#[test]
fn a_last_chunk_that_was_computed_may_be_padded() {
    let mut r = receiver(xor(2));
    r.process_packet(&Packet::data(1, vec![5, 5])).unwrap();
    r.process_packet(&Packet::fec(3, vec![5 ^ 6, 5])).unwrap();
    r.process_packet(&Packet::fin(4)).unwrap();
    assert_eq!(r.received().get(2), Some(&vec![6, 0]));
    // With the size told the padding is cut off.
    assert!(r.is_complete(3));
    assert_eq!(file_of(&r, Some(3)), [5, 5, 6]);
    // Without it the chunk is asked for.
    assert!(!r.is_complete(u64::MAX));
    assert_eq!(r.due_nacks(InstantMs::from_ticks(0), u64::MAX), [2]);
    r.process_packet(&Packet::data(2, vec![6])).unwrap();
    assert!(r.is_complete(u64::MAX));
    assert_eq!(file_of(&r, None), [5, 5, 6]);
    assert!(r.due_nacks(InstantMs::from_ticks(1), u64::MAX).is_empty());
}

#[test]
fn coded_packets_beyond_sixteen_bits() {
    let config = ReceiverConfig { fec_mode: FecMode::Rlnc, ..ReceiverConfig::default() };
    let mut r = receiver(config);
    let first = 70_000u32;
    let id = (first % 65_536) as u16;
    let head = |c: [u8; 2]| vec![0, 2, (id >> 8) as u8, id as u8, c[0], c[1]];
    let mut a = head([1, 0]);
    a.extend_from_slice(&[10, 11]);
    let mut b = head([1, 1]);
    b.extend_from_slice(&[10 ^ 20, 11 ^ 21]);
    r.process_packet(&Packet::fec(first + 2, a)).unwrap();
    r.process_packet(&Packet::fec(first + 3, b)).unwrap();
    assert_eq!(r.fec_recoveries(), 2);
    assert_eq!(r.received().get(first), Some(&vec![10, 11]));
    assert_eq!(r.received().get(first + 1), Some(&vec![20, 21]));
    assert_eq!(r.received().sorted_seqs(), [first, first + 1]);
}

#[test]
fn redundancy_of_encrypted_payloads() {
    let key = [3u8; 32];
    let cipher = chirp::transfer::crypto::Cipher::for_sender(true, Some(key));
    let payloads = [cipher.maybe_encrypt(b"first").unwrap(), cipher.maybe_encrypt(b"other").unwrap()];
    let mut enc = FecEncoder::new(2);
    enc.add_payload(&payloads[0]);
    let parity = enc.add_payload(&payloads[1]).unwrap();
    let sealed = ReceiverConfig { encryption_enabled: true, encryption_key: Some(key), ..xor(2) };
    let mut r = receiver(sealed);
    r.process_packet(&Packet::data(2, payloads[1].clone())).unwrap();
    r.process_packet(&Packet::fec(3, parity)).unwrap();
    assert_eq!(r.fec_recoveries(), 1);
    assert_eq!(r.received().get(1).unwrap(), b"first");
    r.process_packet(&Packet::fin(4)).unwrap();
    assert!(r.is_complete(10));
    assert!(r.is_complete(u64::MAX));
    assert_eq!(file_of(&r, Some(10)), b"firstother");
}

#[test]
fn asking_changes_nothing_that_packets_bring_about() {
    let packets = [
        Packet::data(1, vec![7, 7]),
        Packet::fec(3, vec![7 ^ 8, 7 ^ 8]),
        Packet::data(4, vec![9]),
        Packet::fin(6),
        Packet::fec(5, vec![9]),
    ];
    let mut quiet = receiver(xor(2));
    let mut busy = receiver(xor(2));
    for (i, p) in packets.iter().enumerate() {
        quiet.process_packet(p).unwrap();
        busy.process_packet(p).unwrap();
        busy.due_nacks(InstantMs::from_ticks(1_000 * i as u64), 5);
        assert_eq!(quiet.is_complete(5), busy.is_complete(5));
        assert_eq!(quiet.is_complete(u64::MAX), busy.is_complete(u64::MAX));
        assert_eq!(file_of(&quiet, Some(5)), file_of(&busy, Some(5)));
    }
    assert!(busy.is_complete(5));
    assert_eq!(file_of(&busy, Some(5)), [7, 7, 8, 8, 9]);
}

#[test]
fn a_generation_id_above_the_packet_s_own_number() {
    // No number up to 5 has the bits of 100: the id is the first number itself.
    let config = ReceiverConfig { fec_mode: FecMode::Rlnc, ..ReceiverConfig::default() };
    let mut r = receiver(config);
    r.process_packet(&Packet::fec(5, vec![0, 1, 0, 100, 1, 42, 43])).unwrap();
    assert_eq!(r.fec_recoveries(), 1);
    assert_eq!(r.received().get(100), Some(&vec![42, 43]));
    assert_eq!(r.received().sorted_seqs(), [100]);
    // Nor has one with room behind it for the whole generation.
    let mut far = vec![0xFF, 0xFF, 0xFF, 0xF0];
    far.resize(4 + 65_535 - 16, 0);
    r.process_packet(&Packet::fec(u32::MAX, far)).unwrap();
    let config = ReceiverConfig { fec_mode: FecMode::Rlnc, ..ReceiverConfig::default() };
    let mut r = receiver(config);
    r.process_packet(&Packet::fec(u32::MAX, vec![0, 16, 0xFF, 0xF0])).unwrap();
    let mut last = vec![0, 1, 0xFF, 0xFF, 1];
    last.extend_from_slice(&[7, 8]);
    r.process_packet(&Packet::fec(u32::MAX, last)).unwrap();
    assert_eq!(r.received().sorted_seqs(), [65_535]);
}
