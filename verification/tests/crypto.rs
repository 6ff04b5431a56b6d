use chirp::transfer::crypto::{parse_key, Cipher, CryptoError, KeyError};

fn from_hex(text: &str) -> Vec<u8> {
    hex::decode(text).unwrap()
}

#[test]
fn ciphertext_of_known_vectors() {
    let cipher = Cipher::for_sender(true, Some([0u8; 32]));
    let nonce = [0u8; 12];

    let empty = cipher.encrypt_with_nonce(&nonce, &[]).unwrap();
    assert_eq!(&empty[..12], nonce);
    assert_eq!(&empty[12..], from_hex("530f8afbc74536b9a963b4f1c4cb738b"));

    let zeros = cipher.encrypt_with_nonce(&nonce, &[0u8; 16]).unwrap();
    assert_eq!(
        &zeros[12..],
        from_hex("cea7403d4d606b6e074ec5d3baf39d18d0d1c8a799996bf0265b98b5d48ab919")
    );
}

#[test]
fn payload_decrypts_to_its_data() {
    let key = [7u8; 32];
    let sender = Cipher::for_sender(true, Some(key));
    let receiver = Cipher::for_receiver(true, Some(key)).unwrap();
    for len in [0usize, 1, 16, 1_200] {
        let data: Vec<u8> = (0..len).map(|i| (i * 31) as u8).collect();
        let payload = sender.maybe_encrypt(&data).unwrap();
        assert_eq!(payload.len(), 12 + len + 16);
        assert_ne!(&payload[12..], &data[..]);
        assert_eq!(receiver.maybe_decrypt(&payload).unwrap(), data);
    }
}

#[test]
fn nonces_differ() {
    let sender = Cipher::for_sender(true, Some([1u8; 32]));
    let a = sender.maybe_encrypt(&[5; 8]).unwrap();
    let b = sender.maybe_encrypt(&[5; 8]).unwrap();
    assert_ne!(a[..12], b[..12]);
    assert_ne!(a[12..], b[12..]);
}

#[test]
fn without_a_key_data_passes_through() {
    let sender = Cipher::for_sender(false, Some([1u8; 32]));
    assert_eq!(sender.maybe_encrypt(&[1, 2, 3]).unwrap(), [1, 2, 3]);
    let receiver = Cipher::for_receiver(false, None).unwrap();
    assert_eq!(receiver.maybe_decrypt(&[1, 2, 3]).unwrap(), [1, 2, 3]);
}

#[test]
fn what_cannot_be_decrypted_is_an_error() {
    let receiver = Cipher::for_receiver(true, Some([2u8; 32])).unwrap();
    assert_eq!(receiver.maybe_decrypt(&[0; 11]), Err(CryptoError::TooShort));
    assert_eq!(receiver.maybe_decrypt(&[0; 12]), Err(CryptoError::DecryptionFailed));
    assert_eq!(receiver.maybe_decrypt(&[0; 40]), Err(CryptoError::DecryptionFailed));
    let other = Cipher::for_sender(true, Some([3u8; 32]));
    let payload = other.maybe_encrypt(b"hello").unwrap();
    assert_eq!(receiver.maybe_decrypt(&payload), Err(CryptoError::DecryptionFailed));
}

#[test]
fn a_changed_byte_is_noticed() {
    let key = [9u8; 32];
    let sender = Cipher::for_sender(true, Some(key));
    let receiver = Cipher::for_receiver(true, Some(key)).unwrap();
    let payload = sender.maybe_encrypt(b"some bytes").unwrap();
    for i in 0..payload.len() {
        let mut bad = payload.clone();
        bad[i] ^= 1;
        assert_eq!(receiver.maybe_decrypt(&bad), Err(CryptoError::DecryptionFailed));
    }
}

#[test]
fn a_receiver_needs_a_key() {
    assert!(matches!(
        Cipher::for_receiver(true, None),
        Err(CryptoError::MissingKey)
    ));
}

#[test]
fn a_sender_makes_up_a_key() {
    let a = Cipher::for_sender(true, None);
    let b = Cipher::for_sender(true, None);
    let payload = a.maybe_encrypt(b"abc").unwrap();
    assert_eq!(a.maybe_decrypt(&payload).unwrap(), b"abc");
    assert_eq!(b.maybe_decrypt(&payload), Err(CryptoError::DecryptionFailed));
}

#[test]
fn keys_are_read_from_hex() {
    let text = "000102030405060708090a0b0c0d0e0f101112131415161718191A1B1C1D1E1F";
    let key = parse_key(text).ok().unwrap();
    for (i, b) in key.iter().enumerate() {
        assert_eq!(*b, i as u8);
    }
    assert_eq!(parse_key(&"fF".repeat(32)).ok().unwrap(), [0xFF; 32]);
}

#[test]
fn keys_that_are_none_are_refused() {
    assert!(matches!(parse_key("abc"), Err(KeyError::InvalidHex(_))));
    assert!(matches!(parse_key("zz"), Err(KeyError::InvalidHex(_))));
    assert!(matches!(parse_key("ab"), Err(KeyError::WrongLength(1))));
    assert!(matches!(parse_key(""), Err(KeyError::WrongLength(0))));
    assert!(matches!(parse_key(&"00".repeat(33)), Err(KeyError::WrongLength(33))));
}
