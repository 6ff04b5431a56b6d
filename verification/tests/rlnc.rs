use chirp::protocol::rlnc::{RlncDecoder, RlncEncoder};

#[test]
fn encode_decode_identity() {
    // Encode 4 source packets, generate 4 identity-coded packets, decode.
    let packets: Vec<&[u8]> = vec![
        &[0x01, 0x02, 0x03, 0x04],
        &[0x10, 0x20, 0x30, 0x40],
        &[0xAA, 0xBB, 0xCC, 0xDD],
        &[0xFF, 0x00, 0x55, 0x77],
    ];
    let mut enc = RlncEncoder::new();
    for p in &packets {
        enc.push(p);
    }

    let mut dec = RlncDecoder::new(4, enc.packet_size());
    // Send identity-encoded packets (coefficient = 1 for one source).
    for i in 0..4 {
        let mut coeffs = vec![0u8; 4];
        coeffs[i] = 1;
        let coded = enc.encode_with_coefficients(&coeffs);
        dec.add_packet(coeffs, coded);
    }

    let decoded = dec.decode().unwrap();
    for (i, p) in packets.iter().enumerate() {
        assert_eq!(&decoded[i][..p.len()], *p);
    }
}

#[test]
fn encode_decode_mixed() {
    // Use non-trivial coefficients.
    let packets: Vec<&[u8]> = vec![
        &[0x01, 0x02, 0x03],
        &[0x10, 0x20, 0x30],
        &[0xAA, 0xBB, 0xCC],
    ];
    let mut enc = RlncEncoder::new();
    for p in &packets {
        enc.push(p);
    }

    let coefficients_list = vec![
        vec![0x01, 0x00, 0x00], // identity
        vec![0x01, 0x01, 0x00], // sum of first two
        vec![0x00, 0x01, 0x01], // sum of last two
    ];

    let mut dec = RlncDecoder::new(3, enc.packet_size());
    for coeffs in &coefficients_list {
        let coded = enc.encode_with_coefficients(coeffs);
        dec.add_packet(coeffs.clone(), coded);
    }

    let decoded = dec.decode().unwrap();
    for (i, p) in packets.iter().enumerate() {
        assert_eq!(&decoded[i][..p.len()], *p);
    }
}

#[test]
fn underdetermined_fails() {
    let mut dec = RlncDecoder::new(4, 8);
    dec.add_packet(vec![1, 0, 0, 0], vec![0; 8]);
    dec.add_packet(vec![0, 1, 0, 0], vec![0; 8]);
    // Only 2 of 4 needed.
    assert!(dec.decode().is_err());
}

#[test]
fn overdetermined_succeeds() {
    let packets: Vec<&[u8]> = vec![&[0x42, 0x43], &[0x99, 0xAA]];
    let mut enc = RlncEncoder::new();
    for p in &packets {
        enc.push(p);
    }

    // Send 3 coded packets for k=2.
    let coefficients_list = vec![
        vec![0x01, 0x00],
        vec![0x00, 0x01],
        vec![0x03, 0x07], // random combo
    ];

    let mut dec = RlncDecoder::new(2, enc.packet_size());
    for coeffs in &coefficients_list {
        let coded = enc.encode_with_coefficients(coeffs);
        dec.add_packet(coeffs.clone(), coded);
    }

    let decoded = dec.decode().unwrap();
    for (i, p) in packets.iter().enumerate() {
        assert_eq!(&decoded[i][..p.len()], *p);
    }
}

#[test]
fn random_encode_decode() {
    let packets: Vec<Vec<u8>> = (0..8).map(|i| vec![(i * 17) as u8; 64]).collect();
    let mut enc = RlncEncoder::new();
    for p in &packets {
        enc.push(p);
    }

    // Generate k + r coded packets (r = k/2 = 4 redundant).
    let k = packets.len();
    let total = k + k / 2;
    let mut dec = RlncDecoder::new(k, enc.packet_size());
    for _ in 0..total {
        let (coeffs, coded) = enc.encode_random();
        dec.add_packet(coeffs, coded);
    }

    let decoded = dec.decode().unwrap();
    for (i, p) in packets.iter().enumerate() {
        assert_eq!(&decoded[i][..p.len()], *p);
    }
}

#[test]
fn packets_are_padded_to_the_longest() {
    let mut enc = RlncEncoder::new();
    assert!(enc.is_empty());
    assert_eq!(enc.push(&[1]), 0);
    assert_eq!(enc.push(&[2, 3, 4]), 1);
    assert_eq!(enc.push(&[]), 2);
    assert_eq!(enc.len(), 3);
    assert_eq!(enc.packet_size(), 3);
    assert_eq!(enc.encode_with_coefficients(&[1, 0, 0]), [1, 0, 0]);
    assert_eq!(enc.encode_with_coefficients(&[1, 1, 0]), [3, 3, 4]);
    assert_eq!(enc.encode_with_coefficients(&[0, 2]), [4, 6, 8]);
    // Coefficients beyond the last source packet count for nothing.
    assert_eq!(enc.encode_with_coefficients(&[0, 0, 0, 9]), [0, 0, 0]);
    enc.clear();
    assert!(enc.is_empty());
    assert_eq!(enc.packet_size(), 0);
}

#[test]
fn errors_tell_why() {
    let mut dec = RlncDecoder::new(2, 1);
    assert_eq!(dec.received_count(), 0);
    assert!(!dec.add_packet(vec![1, 2], vec![5]));
    assert_eq!(dec.decode(), Err("not enough packets to decode"));
    assert!(dec.add_packet(vec![2, 4], vec![6]));
    assert_eq!(dec.decode(), Err("matrix is singular, cannot decode"));
    assert!(dec.add_packet(vec![0, 1], vec![7]));
    assert_eq!(dec.received_count(), 3);
    // The first packet and the third determine the source: 5 = a + 2b, 7 = b.
    assert_eq!(dec.decode(), Ok(vec![vec![5 ^ 14], vec![7]]));
}

#[test]
fn zero_coefficients_are_never_sent() {
    let mut enc = RlncEncoder::new();
    enc.push(&[9, 9]);
    enc.push(&[1, 1]);
    assert_eq!(enc.encode_drawn(vec![0, 0]), (vec![1, 0], vec![9, 9]));
    assert_eq!(enc.encode_drawn(vec![0, 1]), (vec![0, 1], vec![1, 1]));
    for _ in 0..50 {
        let (coeffs, data) = enc.encode_random();
        assert_eq!(coeffs.len(), 2);
        assert!(coeffs[0] != 0 || coeffs[1] != 0);
        assert_eq!(data, enc.encode_with_coefficients(&coeffs));
    }
    let empty = RlncEncoder::default();
    assert_eq!(empty.encode_random(), (vec![], vec![]));
}

#[test]
fn random_coefficients_vary() {
    let mut enc = RlncEncoder::new();
    for i in 0u8..32 {
        enc.push(&[i]);
    }
    let (first, _) = enc.encode_random();
    let (second, _) = enc.encode_random();
    assert_ne!(first, second);
}

#[test]
fn nothing_to_decode_gives_nothing() {
    let dec = RlncDecoder::new(0, 4);
    assert_eq!(dec.decode(), Ok(vec![]));
}

#[test]
fn too_few_coded_packets_do_not_decode_however_often_they_come() {
    let mut dec = RlncDecoder::new(3, 2);
    for _ in 0..5 {
        dec.add_packet(vec![1, 2, 3], vec![7, 7]);
        dec.add_packet(vec![4, 5, 6], vec![8, 8]);
    }
    assert_eq!(dec.received_count(), 10);
    assert_eq!(dec.decode().err(), Some("matrix is singular, cannot decode"));
}
