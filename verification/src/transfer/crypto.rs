//! Payload encryption: AES-256-GCM with a random nonce in front of each ciphertext.

use crate::buffer;
use aes_gcm::aead::{Aead, KeyInit};
use rand::RngCore;
use vstd::prelude::*;

verus! {

/// Bytes of a key.
pub const KEY_SIZE: usize = 32;

/// Bytes of the nonce in front of a ciphertext.
pub const NONCE_SIZE: usize = 12;

/// Bytes by which a ciphertext is longer than its plaintext.
pub const TAG_SIZE: usize = 16;

/// The longest plaintext that AES-GCM takes.
pub const MAX_PLAINTEXT: u64 = 68_719_476_736;

/// Why a payload could not be encrypted or decrypted.
#[derive(Clone, Copy, Debug, PartialEq, Eq, Structural)]
pub enum CryptoError {
    /// Decryption is asked for, and there is no key.
    MissingKey,
    /// The plaintext is too long.
    EncryptionFailed,
    /// There is no room for the nonce.
    TooShort,
    /// The ciphertext was not made with this key and nonce.
    DecryptionFailed,
}

/// Why a key could not be read.
pub enum KeyError {
    /// Not pairs of hexadecimal digits.
    InvalidHex(hex::FromHexError),
    /// Another number of bytes than a key has.
    WrongLength(usize),
}

// ---------------------------------------------------------------------------
// AES-256-GCM, random bytes and hexadecimal digits
// ---------------------------------------------------------------------------

/// The error of `aes_gcm`.
#[verifier::external_type_specification]
#[verifier::external_body]
pub struct ExAeadError(aes_gcm::Error);

/// The error of `hex`.
#[verifier::external_type_specification]
#[verifier::external_body]
pub struct ExFromHexError(hex::FromHexError);

/// The AES-256-GCM ciphertext, with its tag, of a plaintext under a key and a nonce.
pub uninterp spec fn sealed(key: Seq<u8>, nonce: Seq<u8>, plaintext: Seq<u8>) -> Seq<u8>;

/// The plaintext of an AES-256-GCM ciphertext with its tag, `None` where the tag does
/// not match.
pub uninterp spec fn opened(key: Seq<u8>, nonce: Seq<u8>, ciphertext: Seq<u8>) -> Option<Seq<u8>>;

/// `Aes256Gcm::new`, then `Aead::encrypt` without associated data. It fails for a
/// plaintext over the limit only. The ciphertext is as long as the plaintext and the
/// tag, and decrypts to the plaintext under the same key and nonce. A nonce of another
/// length panics.
#[verifier::external_body]
fn aes_encrypt(key: &[u8; 32], nonce: &[u8], plaintext: &[u8]) -> (r: Result<
    Vec<u8>,
    aes_gcm::Error,
>)
    requires
        nonce@.len() == NONCE_SIZE,
        plaintext@.len() + TAG_SIZE <= isize::MAX,
    ensures
        r is Ok <==> plaintext@.len() <= MAX_PLAINTEXT,
        r matches Ok(c) ==> c@ == sealed(key@, nonce@, plaintext@),
        r matches Ok(c) ==> c@.len() == plaintext@.len() + TAG_SIZE,
        r matches Ok(c) ==> opened(key@, nonce@, c@) == Some(plaintext@),
{
    let cipher = aes_gcm::Aes256Gcm::new(key.into());
    cipher.encrypt(aes_gcm::Nonce::from_slice(nonce), plaintext)
}

/// `Aes256Gcm::new`, then `Aead::decrypt` without associated data. The plaintext is
/// shorter than the ciphertext by the tag. A nonce of another length panics.
#[verifier::external_body]
fn aes_decrypt(key: &[u8; 32], nonce: &[u8], ciphertext: &[u8]) -> (r: Result<
    Vec<u8>,
    aes_gcm::Error,
>)
    requires
        nonce@.len() == NONCE_SIZE,
    ensures
        match r {
            Ok(p) => opened(key@, nonce@, ciphertext@) == Some(p@) && p@.len() + TAG_SIZE
                == ciphertext@.len(),
            Err(_) => opened(key@, nonce@, ciphertext@) is None,
        },
{
    let cipher = aes_gcm::Aes256Gcm::new(key.into());
    cipher.decrypt(aes_gcm::Nonce::from_slice(nonce), ciphertext)
}

/// Fills `buf` with random bytes of the operating system, through
/// `RngCore::fill_bytes` of `OsRng`. Nothing is claimed of the bytes; the length of the
/// buffer does not change. It panics where the system has no random bytes to give.
#[verifier::external_body]
fn fill_from_os(buf: &mut Vec<u8>)
    ensures
        final(buf)@.len() == old(buf)@.len(),
{
    aes_gcm::aead::OsRng.fill_bytes(buf);
}

/// `len` random bytes, as the operating system gives them.
fn draw(len: usize) -> (bytes: Vec<u8>)
    ensures
        bytes@.len() == len,
        exists|buf: &mut Vec<u8>| #[trigger]
            call_ensures(fill_from_os, (buf,), ()) && buf@.len() == len && final(buf)@ == bytes@,
{
    let mut bytes: Vec<u8> = vec![0u8; len];
    fill_from_os(&mut bytes);
    bytes
}

/// The operating system gave these bytes for a request of `len`.
pub closed spec fn drawn(len: nat, bytes: Seq<u8>) -> bool {
    exists|n: usize, v: Vec<u8>| #[trigger]
        call_ensures(draw, (n,), v) && n == len && v@ == bytes
}

/// The value of a hexadecimal digit in ASCII.
pub open spec fn digit_value(b: u8) -> Option<u8> {
    if 48 <= b <= 57 {
        Some((b - 48) as u8)
    } else if 97 <= b <= 102 {
        Some((b - 87) as u8)
    } else if 65 <= b <= 70 {
        Some((b - 55) as u8)
    } else {
        None
    }
}

/// Pairs of hexadecimal digits.
pub open spec fn is_hex(text: Seq<u8>) -> bool {
    &&& text.len() % 2 == 0
    &&& forall|i: int| 0 <= i < text.len() ==> digit_value(#[trigger] text[i]) is Some
}

/// The bytes that pairs of hexadecimal digits stand for, the high digit first.
pub open spec fn hex_bytes(text: Seq<u8>) -> Seq<u8> {
    Seq::new(
        text.len() / 2,
        |i: int| (digit_value(text[2 * i])->0 * 16 + digit_value(text[2 * i + 1])->0) as u8,
    )
}

/// `hex::decode`: the bytes that the text stands for, if it is made of pairs of
/// hexadecimal digits, upper or lower case.
#[verifier::external_body]
fn hex_decode(text: &str) -> (r: Result<Vec<u8>, hex::FromHexError>)
    ensures
        r is Ok <==> is_hex(vstd::utf8::encode_utf8(text@)),
        r matches Ok(v) ==> v@ == hex_bytes(vstd::utf8::encode_utf8(text@)),
{
    hex::decode(text)
}

// ---------------------------------------------------------------------------
// Keys
// ---------------------------------------------------------------------------

fn to_key(bytes: &Vec<u8>) -> (key: [u8; 32])
    requires
        bytes@.len() == KEY_SIZE,
    ensures
        key@ == bytes@,
{
    let mut key: [u8; 32] = [0u8; 32];
    let mut i: usize = 0;
    while i < 32
        invariant
            i <= 32,
            bytes@.len() == KEY_SIZE,
            forall|j: int| 0 <= j < i ==> key@[j] == bytes@[j],
        decreases 32 - i,
    {
        key[i] = bytes[i];
        i = i + 1;
    }
    proof {
        assert(key@ =~= bytes@);
    }
    key
}

/// Reads a key from 64 hexadecimal digits.
pub fn parse_key(text: &str) -> (r: Result<[u8; 32], KeyError>)
    ensures
        match r {
            Ok(key) => {
                &&& is_hex(vstd::utf8::encode_utf8(text@))
                &&& vstd::utf8::encode_utf8(text@).len() == 64
                &&& key@ == hex_bytes(vstd::utf8::encode_utf8(text@))
            },
            Err(KeyError::InvalidHex(_)) => !is_hex(vstd::utf8::encode_utf8(text@)),
            Err(KeyError::WrongLength(n)) => {
                &&& is_hex(vstd::utf8::encode_utf8(text@))
                &&& n == hex_bytes(vstd::utf8::encode_utf8(text@)).len()
                &&& n != KEY_SIZE
                &&& vstd::utf8::encode_utf8(text@).len() == 2 * n
                &&& n != 32
            },
        },
{
    match hex_decode(text) {
        Err(e) => Err(KeyError::InvalidHex(e)),
        Ok(bytes) => {
            if bytes.len() != KEY_SIZE {
                Err(KeyError::WrongLength(bytes.len()))
            } else {
                Ok(to_key(&bytes))
            }
        },
    }
}

/// A key for payloads, if they are encrypted.
pub struct Cipher {
    key: Option<[u8; 32]>,
}

impl View for Cipher {
    type V = Option<Seq<u8>>;

    closed spec fn view(&self) -> Option<Seq<u8>> {
        match self.key {
            Some(k) => Some(k@),
            None => None,
        }
    }
}

/// What a payload decrypts to; without a key it is the plaintext itself.
pub open spec fn decrypted(key: Option<Seq<u8>>, data: Seq<u8>) -> Result<Seq<u8>, CryptoError> {
    match key {
        None => Ok(data),
        Some(k) => if data.len() < NONCE_SIZE {
            Err(CryptoError::TooShort)
        } else {
            match opened(k, data.take(NONCE_SIZE as int), data.skip(NONCE_SIZE as int)) {
                Some(p) => Ok(p),
                None => Err(CryptoError::DecryptionFailed),
            }
        },
    }
}

/// Bytes by which a payload is longer than its data.
pub open spec fn overhead(key: Option<Seq<u8>>) -> nat {
    match key {
        None => 0,
        Some(_) => (NONCE_SIZE + TAG_SIZE) as nat,
    }
}

/// The data of a payload, if it can be decrypted. It is shorter than the payload by the
/// nonce and the tag.
pub open spec fn contents(key: Option<Seq<u8>>, payload: Seq<u8>) -> Option<Seq<u8>> {
    match decrypted(key, payload) {
        Ok(data) => if data.len() + overhead(key) == payload.len() {
            Some(data)
        } else {
            None
        },
        Err(_) => None,
    }
}

/// `out` is a payload for `data`: the plaintext itself without a key, and otherwise a
/// nonce followed by the ciphertext under that nonce.
pub open spec fn payload_for(key: Option<Seq<u8>>, data: Seq<u8>, out: Seq<u8>) -> bool {
    match key {
        None => out == data,
        Some(k) => {
            &&& out.len() == NONCE_SIZE + data.len() + TAG_SIZE
            &&& out.skip(NONCE_SIZE as int) == sealed(k, out.take(NONCE_SIZE as int), data)
        },
    }
}

impl Cipher {
    /// The cipher of a sender: with encryption enabled and no key given, a random one.
    pub fn for_sender(enabled: bool, key: Option<[u8; 32]>) -> (c: Self)
        ensures
            !enabled ==> c@ is None,
            enabled ==> (c@ matches Some(k) && k.len() == KEY_SIZE),
            enabled ==> (key matches Some(k) ==> c@ == Some(k@)),
            enabled && key is None ==> drawn(32, c@->0),
    {
        if !enabled {
            return Cipher { key: None };
        }
        match key {
            Some(k) => Cipher { key: Some(k) },
            None => {
                let bytes: Vec<u8> = draw(KEY_SIZE);
                Cipher { key: Some(to_key(&bytes)) }
            },
        }
    }

    /// The cipher of a receiver: with decryption enabled a key has to be given.
    pub fn for_receiver(enabled: bool, key: Option<[u8; 32]>) -> (r: Result<Self, CryptoError>)
        ensures
            match r {
                Ok(c) => match key {
                    Some(k) => c@ == (if enabled {
                        Some(k@)
                    } else {
                        None
                    }),
                    None => !enabled && c@ is None,
                },
                Err(e) => enabled && key is None && e == CryptoError::MissingKey,
            },
    {
        if !enabled {
            return Ok(Cipher { key: None });
        }
        match key {
            Some(k) => Ok(Cipher { key: Some(k) }),
            None => Err(CryptoError::MissingKey),
        }
    }

    /// Whether payloads are encrypted.
    pub fn is_set(&self) -> (b: bool)
        ensures
            b == (self@ is Some),
    {
        self.key.is_some()
    }

    /// The payload for `data` under a given nonce: the nonce, then the ciphertext.
    pub fn encrypt_with_nonce(&self, nonce: &[u8], data: &[u8]) -> (r: Result<
        Vec<u8>,
        CryptoError,
    >)
        requires
            nonce@.len() == NONCE_SIZE,
            NONCE_SIZE + data@.len() + TAG_SIZE <= isize::MAX,
        ensures
            match r {
                Ok(out) => {
                    &&& self@ is Some ==> data@.len() <= MAX_PLAINTEXT
                    &&& self@ matches Some(k) ==> out@ == nonce@ + sealed(k, nonce@, data@)
                    &&& payload_for(self@, data@, out@)
                    &&& decrypted(self@, out@) == Ok::<Seq<u8>, CryptoError>(data@)
                },
                Err(e) => {
                    &&& self@ is Some
                    &&& data@.len() > MAX_PLAINTEXT
                    &&& e == CryptoError::EncryptionFailed
                },
            },
    {
        match &self.key {
            None => Ok(buffer::copy_bytes(data)),
            Some(key) => match aes_encrypt(key, nonce, data) {
                Err(_) => Err(CryptoError::EncryptionFailed),
                Ok(ciphertext) => {
                    let mut out: Vec<u8> = Vec::with_capacity(NONCE_SIZE + ciphertext.len());
                    out.extend_from_slice(nonce);
                    out.extend_from_slice(ciphertext.as_slice());
                    proof {
                        assert(out@ =~= nonce@ + ciphertext@);
                        assert(out@.take(NONCE_SIZE as int) =~= nonce@);
                        assert(out@.skip(NONCE_SIZE as int) =~= ciphertext@);
                    }
                    Ok(out)
                },
            },
        }
    }

    /// The payload for `data`: `data` itself without a key, and otherwise a random nonce
    /// followed by the ciphertext. A payload decrypts to the data it was made for.
    pub fn maybe_encrypt(&self, data: &[u8]) -> (r: Result<Vec<u8>, CryptoError>)
        requires
            NONCE_SIZE + data@.len() + TAG_SIZE <= isize::MAX,
        ensures
            match r {
                Ok(out) => {
                    &&& self@ is Some ==> data@.len() <= MAX_PLAINTEXT
                    &&& payload_for(self@, data@, out@)
                    &&& decrypted(self@, out@) == Ok::<Seq<u8>, CryptoError>(data@)
                    &&& self@ is Some ==> out@.len() == data@.len() + 28 && drawn(12, out@.take(12))
                    &&& self@ is None ==> out@ == data@
                },
                Err(e) => {
                    &&& self@ is Some
                    &&& data@.len() > MAX_PLAINTEXT
                    &&& e == CryptoError::EncryptionFailed
                },
            },
    {
        let nonce: Vec<u8> = if self.key.is_some() {
            draw(NONCE_SIZE)
        } else {
            vec![0u8; NONCE_SIZE]
        };
        let r: Result<Vec<u8>, CryptoError> = self.encrypt_with_nonce(nonce.as_slice(), data);
        proof {
            if self@ is Some && r is Ok {
                let out = (r->Ok_0)@;
                let k = self@->0;
                assert((nonce@ + sealed(k, nonce@, data@)).take(12) =~= nonce@);
                assert(out.take(12) == nonce@);
            }
        }
        r
    }

    /// The data of a payload.
    pub fn maybe_decrypt(&self, data: &[u8]) -> (r: Result<Vec<u8>, CryptoError>)
        ensures
            match decrypted(self@, data@) {
                Ok(p) => r matches Ok(out) && out@ == p,
                Err(e) => r matches Err(f) && f == e,
            },
            r matches Ok(out) ==> out@.len() + overhead(self@) == data@.len(),
            match contents(self@, data@) {
                Some(p) => r matches Ok(out) && out@ == p,
                None => r is Err,
            },
    {
        match &self.key {
            None => Ok(buffer::copy_bytes(data)),
            Some(key) => {
                if data.len() < NONCE_SIZE {
                    return Err(CryptoError::TooShort);
                }
                let nonce: &[u8] = &data[0..NONCE_SIZE];
                let ciphertext: &[u8] = &data[NONCE_SIZE..data.len()];
                proof {
                    assert(nonce@ =~= data@.take(NONCE_SIZE as int));
                    assert(ciphertext@ =~= data@.skip(NONCE_SIZE as int));
                }
                match aes_decrypt(key, nonce, ciphertext) {
                    Ok(plaintext) => Ok(plaintext),
                    Err(_) => Err(CryptoError::DecryptionFailed),
                }
            },
        }
    }
}

// ---------------------------------------------------------------------------
// Laws
// ---------------------------------------------------------------------------

/// What goes over the wire under a key is 28 bytes longer than the data, 12 for the nonce in
/// front and 16 for the tag; without a key it is the data.
pub proof fn lemma_payload_parts(key: Option<Seq<u8>>, data: Seq<u8>, out: Seq<u8>)
    requires
        payload_for(key, data, out),
    ensures
        key is None ==> out == data,
        key is Some ==> out.len() == data.len() + 28 && out == out.take(12) + sealed(
            key->0,
            out.take(12),
            data,
        ),
{
    if key is Some {
        assert(out =~= out.take(12) + out.skip(12));
    }
}

/// What a payload is decrypted from: under a key, what follows its first 12 bytes with these
/// as the nonce, and less than 12 bytes are too short; without a key it is the data, whatever
/// it is.
pub proof fn lemma_decrypted_from(k: Seq<u8>, payload: Seq<u8>)
    ensures
        decrypted(None, payload) == Ok::<Seq<u8>, CryptoError>(payload),
        payload.len() < 12 <==> decrypted(Some(k), payload) == Err::<Seq<u8>, CryptoError>(
            CryptoError::TooShort,
        ),
        payload.len() >= 12 ==> (decrypted(Some(k), payload) is Ok <==> opened(
            k,
            payload.take(12),
            payload.skip(12),
        ) is Some),
        payload.len() >= 12 && decrypted(Some(k), payload) is Ok ==> Some(
            decrypted(Some(k), payload)->Ok_0,
        ) == opened(k, payload.take(12), payload.skip(12)),
        payload.len() >= 12 && decrypted(Some(k), payload) is Err ==> decrypted(Some(k), payload)
            == Err::<Seq<u8>, CryptoError>(CryptoError::DecryptionFailed),
{
}

/// A key is told by its digits: each byte by two of them, the high one first, and the case of
/// a letter does not matter.
pub proof fn lemma_digits(text: Seq<u8>, i: int)
    requires
        is_hex(text),
        0 <= i < text.len() / 2,
    ensures
        hex_bytes(text).len() * 2 == text.len(),
        hex_bytes(text)[i] == 16 * digit_value(text[2 * i])->0 + digit_value(text[2 * i + 1])->0,
        digit_value(text[2 * i])->0 < 16,
        digit_value(text[2 * i + 1])->0 < 16,
        forall|d: u8| 0 <= d < 10 ==> #[trigger] digit_value((0x30 + d) as u8) == Some(d),
        forall|d: u8| 10 <= d < 16 ==> #[trigger] digit_value((0x61 + d - 10) as u8) == Some(d),
        forall|d: u8| 10 <= d < 16 ==> #[trigger] digit_value((0x41 + d - 10) as u8) == Some(d),
{
    assert(digit_value(text[2 * i]) is Some);
    assert(digit_value(text[2 * i + 1]) is Some);
}

} // verus!
