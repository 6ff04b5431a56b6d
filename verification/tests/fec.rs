use chirp::protocol::fec::{FecDecoder, FecEncoder, FecMode, FEC_BLOCK_SIZE};

#[test]
fn xor_roundtrip() {
    let mut enc = FecEncoder::new(4);
    let pkts: &[&[u8]] = &[
        &[0x01, 0x02, 0x03],
        &[0x10, 0x20, 0x30],
        &[0xAA, 0xBB, 0xCC],
        &[0xFF, 0x00, 0x55],
    ];
    let mut parity = None;
    for p in pkts {
        parity = enc.add_payload(p);
    }
    let parity = parity.unwrap();
    let dec = FecDecoder::new(4);
    let recv: Vec<&[u8]> = vec![pkts[0], pkts[1], pkts[3]];
    let recovered = dec.recover(&recv, &parity).unwrap();
    assert_eq!(recovered, pkts[2]);
}

#[test]
fn wrong_receiver_count_returns_none() {
    let dec = FecDecoder::new(4);
    let parity = vec![0u8; 4];
    assert!(dec.recover(&[], &parity).is_none()); // needs 3, got 0
}

#[test]
fn parity_comes_with_the_last_payload_of_a_block() {
    let mut enc = FecEncoder::new(3);
    assert_eq!(enc.add_payload(&[1, 2]), None);
    assert_eq!(enc.add_payload(&[4]), None);
    assert_eq!(enc.add_payload(&[8, 8, 8]), Some(vec![13, 10, 8]));
    // A new block starts from nothing.
    assert_eq!(enc.add_payload(&[7]), None);
    assert_eq!(enc.flush(), Some(vec![7]));
    assert_eq!(enc.flush(), None);
}

#[test]
fn any_single_loss_is_recovered_with_padding() {
    let pkts: Vec<Vec<u8>> = vec![vec![1, 2, 3], vec![9], vec![], vec![7, 7]];
    let mut enc = FecEncoder::new(4);
    let mut parity = None;
    for p in &pkts {
        parity = enc.add_payload(p);
    }
    let parity = parity.unwrap();
    let dec = FecDecoder::new(4);
    for lost in 0..4 {
        let recv: Vec<&[u8]> = (0..4).filter(|i| *i != lost).map(|i| &pkts[i][..]).collect();
        let mut want = pkts[lost].clone();
        want.resize(3, 0);
        assert_eq!(dec.recover(&recv, &parity).unwrap(), want);
    }
}

#[test]
fn a_block_of_one_is_its_own_parity() {
    let mut enc = FecEncoder::new(1);
    assert_eq!(enc.add_payload(&[5, 6]), Some(vec![5, 6]));
    let dec = FecDecoder::new(1);
    assert_eq!(dec.recover(&[], &[5, 6]), Some(vec![5, 6]));
    let mut none = FecEncoder::new(0);
    assert_eq!(none.add_payload(&[3]), Some(vec![3]));
}

#[test]
fn xor_is_the_default_mode() {
    assert_eq!(FecMode::default(), FecMode::Xor);
    assert_eq!(FEC_BLOCK_SIZE, 8);
}

#[test]
fn survivors_past_the_parity_are_cut_off() {
    let dec = FecDecoder::new(2);
    assert_eq!(dec.recover(&[&[1, 2, 3, 4]], &[8, 8]), Some(vec![9, 10]));
}
