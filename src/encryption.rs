//! Field cipher: AES-256-CBC over one text value, with a random IV, the
//! padding of `padding`, and a base64 token `base64(iv || ciphertext)`.
use vstd::prelude::*;
use vstd::utf8::{decode_utf8, encode_utf8, valid_utf8};
use crate::padding::{pad, pad_spec, unpad, unpad_spec, lemma_unpad_pad, BLOCK_LEN};
use aes::Aes256;
use base64::Engine;
use cbc::cipher::{BlockDecryptMut, BlockEncryptMut, KeyIvInit};
use rand::Rng;
use sha2::Digest;

verus! {

broadcast use vstd::utf8::group_utf8_lib;

/// The SHA-256 digest of `data`.
pub uninterp spec fn sha256_of(data: Seq<u8>) -> Seq<u8>;

/// AES-256-CBC encryption, without padding, of block-aligned `data`.
pub uninterp spec fn cbc_encrypted(key: Seq<u8>, iv: Seq<u8>, data: Seq<u8>) -> Seq<u8>;

/// AES-256-CBC decryption, without padding, of block-aligned `data`.
pub uninterp spec fn cbc_decrypted(key: Seq<u8>, iv: Seq<u8>, data: Seq<u8>) -> Seq<u8>;

/// Standard base64, with padding, of `data`.
pub uninterp spec fn base64_encoded(data: Seq<u8>) -> Seq<char>;

/// The bytes that the standard base64 engine decodes from `text`, if any.
pub uninterp spec fn base64_decoded(text: Seq<char>) -> Option<Seq<u8>>;

/// Relies on sha2's `Sha256::digest`: the 32-byte digest of `data`.
#[verifier::external_body]
pub(crate) fn sha256_digest(data: &[u8]) -> (r: [u8; 32])
    ensures
        r@ == sha256_of(data@),
{
    sha2::Sha256::digest(data).into()
}

/// Relies on cbc's `Encryptor<Aes256>` with `NoPadding`: encrypts aligned
/// data to as many bytes, which the matching decryptor turns back into `data`.
#[verifier::external_body]
fn cbc_encrypt(key: &[u8], iv: &[u8], data: &[u8]) -> (r: Vec<u8>)
    requires
        key@.len() == 32,
        iv@.len() == 16,
        data@.len() % 16 == 0,
    ensures
        r@ == cbc_encrypted(key@, iv@, data@),
        r@.len() == data@.len(),
        cbc_decrypted(key@, iv@, r@) == data@,
{
    cbc::Encryptor::<Aes256>::new_from_slices(key, iv).unwrap()
        .encrypt_padded_vec_mut::<cbc::cipher::block_padding::NoPadding>(data)
}

/// Relies on cbc's `Decryptor<Aes256>` with `NoPadding`: decrypts aligned
/// data to as many bytes.
#[verifier::external_body]
fn cbc_decrypt(key: &[u8], iv: &[u8], data: &[u8]) -> (r: Vec<u8>)
    requires
        key@.len() == 32,
        iv@.len() == 16,
        data@.len() % 16 == 0,
    ensures
        r@ == cbc_decrypted(key@, iv@, data@),
        r@.len() == data@.len(),
{
    cbc::Decryptor::<Aes256>::new_from_slices(key, iv).unwrap()
        .decrypt_padded_vec_mut::<cbc::cipher::block_padding::NoPadding>(data).unwrap()
}

/// Relies on base64's `STANDARD.encode`: four characters for every started
/// group of three bytes, which `STANDARD.decode` turns back into `data`.
#[verifier::external_body]
fn base64_encode(data: &[u8]) -> (r: String)
    ensures
        r@ == base64_encoded(data@),
        r@.len() == 4 * ((data@.len() + 2) / 3),
        base64_decoded(r@) == Some(data@),
{
    base64::engine::general_purpose::STANDARD.encode(data)
}

/// Relies on base64's `STANDARD.decode`: the decoded bytes, or `None` where
/// `text` is not base64.
#[verifier::external_body]
fn base64_decode(text: &str) -> (r: Option<Vec<u8>>)
    ensures
        match r {
            Some(v) => base64_decoded(text@) == Some(v@),
            None => base64_decoded(text@) is None,
        },
{
    base64::engine::general_purpose::STANDARD.decode(text).ok()
}

/// Relies on `String::from_utf8`: the text that `bytes` encode, or `None`
/// where they are not UTF-8.
#[verifier::external_body]
fn text_from_utf8(bytes: Vec<u8>) -> (r: Option<String>)
    ensures
        r is Some <==> valid_utf8(bytes@),
        r matches Some(s) ==> s@ == decode_utf8(bytes@),
{
    String::from_utf8(bytes).ok()
}

/// Relies on rand's `thread_rng().fill`: sixteen random bytes.
#[verifier::external_body]
fn random_iv() -> (r: [u8; 16]) {
    let mut iv = [0u8; 16];
    rand::thread_rng().fill(&mut iv);
    iv
}

/// The key material of the application-level key.
pub const APP_KEY_MATERIAL: &'static str = "myloair-app-encryption-key-v1-secure";

/// Why a token could not be decrypted.
#[derive(Debug, Clone, Copy, PartialEq, Eq, Structural)]
pub enum CipherError {
    /// The token is not base64.
    InvalidEncoding,
    /// The decoded token is shorter than an IV and one block.
    TooShort,
    /// The ciphertext after the IV is not a whole number of blocks.
    BadBlockLength,
    /// The last decrypted byte is not a padding length that fits.
    InvalidPadding,
    /// The unpadded bytes are not UTF-8 text.
    InvalidText,
}

/// The token for `plain` under `key` and `iv`: empty text gives an empty token.
pub open spec fn seal_spec(key: Seq<u8>, iv: Seq<u8>, plain: Seq<char>) -> Seq<char> {
    if plain.len() == 0 {
        Seq::empty()
    } else {
        base64_encoded(iv + cbc_encrypted(key, iv, pad_spec(encode_utf8(plain))))
    }
}

/// What decrypting `token` under `key` gives.
pub open spec fn open_spec(key: Seq<u8>, token: Seq<char>) -> Result<Seq<char>, CipherError> {
    if token.len() == 0 {
        Ok(Seq::empty())
    } else {
        match base64_decoded(token) {
            None => Err(CipherError::InvalidEncoding),
            Some(data) => if data.len() < 17 {
                Err(CipherError::TooShort)
            } else if (data.len() - 16) % 16 != 0 {
                Err(CipherError::BadBlockLength)
            } else {
                match unpad_spec(cbc_decrypted(key, data.take(16), data.skip(16))) {
                    None => Err(CipherError::InvalidPadding),
                    Some(bytes) => if valid_utf8(bytes) {
                        Ok(decode_utf8(bytes))
                    } else {
                        Err(CipherError::InvalidText)
                    },
                }
            },
        }
    }
}

/// The length of the token for non-empty `plain`: base64 of the 16-byte IV
/// and the padded UTF-8 text.
pub open spec fn token_len(plain: Seq<char>) -> int {
    4 * ((16 + pad_spec(encode_utf8(plain)).len() as int + 2) / 3)
}

/// Text takes at least one byte per character in UTF-8.
pub proof fn lemma_utf8_len(chars: Seq<char>)
    ensures
        encode_utf8(chars).len() >= chars.len(),
    decreases chars.len(),
{
    if chars.len() > 0 {
        lemma_utf8_len(chars.drop_first());
    }
}

/// Symmetric cipher for single text values, under one 32-byte key.
pub struct EncryptionService {
    key: [u8; 32],
}

impl View for EncryptionService {
    type V = Seq<u8>;

    closed spec fn view(&self) -> Seq<u8> {
        self.key@
    }
}

impl EncryptionService {
    /// A cipher whose key is the SHA-256 digest of `password`'s UTF-8 bytes.
    pub fn new(password: &str) -> (r: Self)
        ensures
            r@ == sha256_of(encode_utf8(password@)),
            r@.len() == 32,
    {
        let key = sha256_digest(password.as_bytes());
        let r = EncryptionService { key };
        proof {
            assert(r@ == key@);
        }
        r
    }

    /// A cipher under the application-level key, always available.
    pub fn new_with_app_key() -> (r: Self)
        ensures
            r@ == sha256_of(encode_utf8(APP_KEY_MATERIAL@)),
            r@.len() == 32,
    {
        let app_key = Self::get_or_create_app_key();
        Self::new(&app_key)
    }

    /// The key material of the application-level key.
    pub fn get_or_create_app_key() -> (r: String)
        ensures
            r@ == APP_KEY_MATERIAL@,
    {
        APP_KEY_MATERIAL.to_string()
    }

    /// Encrypts `plaintext` under the given IV; the token decrypts back to
    /// `plaintext` under this cipher's key.
    pub fn encrypt_with_iv(&self, plaintext: &str, iv: &[u8; 16]) -> (r: String)
        ensures
            r@ == seal_spec(self@, iv@, plaintext@),
            open_spec(self@, r@) == Ok::<Seq<char>, CipherError>(plaintext@),
            r@.len() == 0 <==> plaintext@.len() == 0,
            plaintext@.len() > 0 ==> r@.len() > plaintext@.len(),
            plaintext@.len() > 0 ==> r@.len() == token_len(plaintext@),
    {
        if plaintext.is_empty() {
            let r = String::new();
            proof {
                assert(plaintext@ =~= r@);
            }
            return r;
        }
        let bytes = plaintext.as_bytes();
        proof {
            assert(bytes@ == encode_utf8(plaintext@));
        }
        let padded = pad(bytes);
        proof {
            lemma_unpad_pad(bytes@);
        }
        let key_slice = self.key.as_slice();
        let iv_slice = iv.as_slice();
        let sealed = cbc_encrypt(key_slice, iv_slice, padded.as_slice());
        let mut data: Vec<u8> = Vec::new();
        data.extend_from_slice(iv_slice);
        data.extend_from_slice(sealed.as_slice());
        let token = base64_encode(data.as_slice());
        proof {
            lemma_utf8_len(plaintext@);
            let d = data@.len();
            assert(d > plaintext@.len());
            assert(4 * ((d + 2) / 3) >= d) by (nonlinear_arith)
                requires d >= 0;
            assert(data@ =~= iv@ + sealed@);
            assert(data@.take(16) =~= iv@);
            assert(data@.skip(16) =~= sealed@);
            assert(self@ == self.key@);
        }
        token
    }

    /// Encrypts `plaintext` under a fresh random IV; empty text gives an
    /// empty token, and every token decrypts back to `plaintext`.
    pub fn encrypt(&self, plaintext: &str) -> (r: Result<String, CipherError>)
        ensures
            r matches Ok(t) && open_spec(self@, t@) == Ok::<Seq<char>, CipherError>(plaintext@),
            r matches Ok(t) && exists|iv: Seq<u8>| iv.len() == 16 && t@ == seal_spec(self@, iv, plaintext@),
            r matches Ok(t) && (t@.len() == 0 <==> plaintext@.len() == 0),
            r matches Ok(t) && (plaintext@.len() > 0 ==> t@.len() > plaintext@.len()),
            r matches Ok(t) && (plaintext@.len() > 0 ==> t@.len() == token_len(plaintext@)),
    {
        let iv = random_iv();
        Ok(self.encrypt_with_iv(plaintext, &iv))
    }

    /// Decrypts a token; empty text gives empty text, and each way a token
    /// can be malformed gives its own error.
    pub fn decrypt(&self, ciphertext: &str) -> (r: Result<String, CipherError>)
        ensures
            match r {
                Ok(s) => open_spec(self@, ciphertext@) == Ok::<Seq<char>, CipherError>(s@),
                Err(e) => open_spec(self@, ciphertext@) == Err::<Seq<char>, CipherError>(e),
            },
    {
        if ciphertext.is_empty() {
            return Ok(String::new());
        }
        let data = match base64_decode(ciphertext) {
            None => return Err(CipherError::InvalidEncoding),
            Some(d) => d,
        };
        if data.len() < 17 {
            return Err(CipherError::TooShort);
        }
        if (data.len() - BLOCK_LEN) % BLOCK_LEN != 0 {
            return Err(CipherError::BadBlockLength);
        }
        let (iv, body) = data.as_slice().split_at(BLOCK_LEN);
        proof {
            assert(iv@ =~= data@.take(16));
            assert(body@ =~= data@.skip(16));
            assert(self@ == self.key@);
        }
        let plain = cbc_decrypt(self.key.as_slice(), iv, body);
        match unpad(plain) {
            None => Err(CipherError::InvalidPadding),
            Some(bytes) => match text_from_utf8(bytes) {
                None => Err(CipherError::InvalidText),
                Some(s) => Ok(s),
            },
        }
    }
}

} // verus!
