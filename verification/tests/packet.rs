use chirp::protocol::packet::{
    nack_seqs, Packet, PacketError, PacketFlags, HEADER_SIZE, MAGIC, MAX_PACKET_SIZE, MAX_PAYLOAD,
};

#[test]
fn roundtrip_data() {
    let pkt = Packet::data(42, vec![1, 2, 3, 4, 5]);
    let decoded = Packet::decode(&pkt.encode()).unwrap();
    assert_eq!(decoded.header.seq, 42);
    assert!(decoded.header.flags.contains(PacketFlags::DATA));
    assert_eq!(decoded.payload, [1, 2, 3, 4, 5]);
}

#[test]
fn roundtrip_nack() {
    let pkt = Packet::nack(&[10, 20, 30]);
    let decoded = Packet::decode(&pkt.encode()).unwrap();
    assert!(decoded.header.flags.contains(PacketFlags::NACK));
    assert_eq!(decoded.header.payload_len, 12);
}

#[test]
fn bad_magic_rejected() {
    let mut wire = Packet::data(1, vec![0u8; 4]).encode();
    wire[0] = 0xFF;
    assert!(matches!(
        Packet::decode(&wire),
        Err(PacketError::BadMagic(_))
    ));
}

#[test]
fn wire_bytes_are_big_endian() {
    let pkt = Packet::data(0x0102_0304, vec![0xAA, 0xBB]);
    assert_eq!(
        pkt.encode(),
        [0x44, 0x41, 0x52, 0x54, 1, 2, 3, 4, 0, 1, 0, 2, 0xAA, 0xBB]
    );
    assert_eq!(MAGIC, *b"DART");
    assert_eq!(HEADER_SIZE, 12);
    assert_eq!(MAX_PAYLOAD, 1200);
    assert_eq!(MAX_PACKET_SIZE, 1212);
}

#[test]
fn each_kind_has_its_flag() {
    assert_eq!(Packet::data(1, vec![]).header.flags.bits(), 0x01);
    assert_eq!(Packet::nack(&[]).header.flags.bits(), 0x02);
    assert_eq!(Packet::fin(7).header.flags.bits(), 0x04);
    assert_eq!(Packet::fin(7).header.seq, 7);
    assert_eq!(Packet::ack(8).header.flags.bits(), 0x08);
    assert_eq!(Packet::ack(8).header.seq, 8);
    assert_eq!(Packet::fec(9, vec![1]).header.flags.bits(), 0x10);
    assert_eq!(Packet::fec(9, vec![1]).payload, [1]);
    assert_eq!(Packet::syn(0, "").header.flags.bits(), 0x20);
}

#[test]
fn syn_carries_size_and_name() {
    let pkt = Packet::syn(0x0102, "a.bin");
    assert_eq!(pkt.payload, [0, 0, 0, 0, 0, 0, 1, 2, b'a', b'.', b'b', b'i', b'n']);
    assert_eq!(pkt.header.payload_len, 13);
    assert_eq!(pkt.header.seq, 0);
}

#[test]
fn every_error_has_its_bytes() {
    let wire = Packet::data(1, vec![7; 4]).encode();
    assert_eq!(Packet::decode(&wire[..11]).unwrap_err(), PacketError::TooShort(11));
    assert_eq!(Packet::decode(&[]).unwrap_err(), PacketError::TooShort(0));

    let mut magic = wire.clone();
    magic[3] = 0;
    assert_eq!(
        Packet::decode(&magic).unwrap_err(),
        PacketError::BadMagic([0x44, 0x41, 0x52, 0])
    );

    let mut flags = wire.clone();
    flags[9] = 0x40;
    assert_eq!(Packet::decode(&flags).unwrap_err(), PacketError::BadFlags(0x40));
    flags[8] = 0x80;
    flags[9] = 0x01;
    assert_eq!(Packet::decode(&flags).unwrap_err(), PacketError::BadFlags(0x8001));

    assert_eq!(
        Packet::decode(&wire[..15]).unwrap_err(),
        PacketError::PayloadTruncated { expected: 4, got: 3 }
    );
}

#[test]
fn bytes_behind_the_payload_are_left_alone() {
    let mut wire = Packet::data(3, vec![1, 2]).encode();
    wire.push(99);
    let decoded = Packet::decode(&wire).unwrap();
    assert_eq!(decoded.payload, [1, 2]);
    assert_eq!(decoded.encode(), wire[..14]);
}

#[test]
fn long_payloads_lose_the_high_bits_of_their_length() {
    let pkt = Packet::data(1, vec![0; 65_537]);
    assert_eq!(pkt.header.payload_len, 1);
    assert_eq!(pkt.payload.len(), 65_537);
}

#[test]
fn flags_combine() {
    let flags = PacketFlags::from_bits(0x09).unwrap();
    assert!(flags.contains(PacketFlags::DATA));
    assert!(flags.contains(PacketFlags::ACK));
    assert!(!flags.contains(PacketFlags::NACK));
    assert!(flags.contains(PacketFlags::DATA | PacketFlags::ACK));
    assert!(!flags.contains(PacketFlags::DATA | PacketFlags::NACK));
    assert_eq!(PacketFlags::from_bits(0x40), None);
    assert_eq!(PacketFlags::from_bits(0x3F).unwrap().bits(), 0x3F);
}

#[test]
fn nack_list_is_read_back() {
    let list = [1u32, 0xFFFF_FFFF, 0x0102_0304];
    let pkt = Packet::nack(&list);
    assert_eq!(nack_seqs(&pkt.payload), list);
    // Bytes that do not make up a number are left over.
    assert_eq!(nack_seqs(&[0, 0, 0, 5, 1]), [5]);
    assert_eq!(nack_seqs(&[]), []);
}
