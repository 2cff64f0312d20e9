//! Sensitive fields of single records, opened for display and sealed for
//! storage, and the digest under which the master password is kept.
use vstd::prelude::*;
use vstd::utf8::encode_utf8;
use crate::encryption::{sha256_of, CipherError, EncryptionService};
use crate::models::{Password, SecureRecord};
use crate::snapshot::{decrypt_field, encrypt_field, opt_view, revealed, sealed_as};

verus! {

/// Whether `a` and `b` agree on every field but the secret.
pub open spec fn same_but_secret(a: Password, b: Password) -> bool {
    &&& a.id == b.id
    &&& a.title == b.title
    &&& a.username == b.username
    &&& a.url == b.url
    &&& a.notes == b.notes
    &&& a.group_id == b.group_id
    &&& a.created_at == b.created_at
    &&& a.updated_at == b.updated_at
    &&& a.last_used_at == b.last_used_at
    &&& a.use_count == b.use_count
    &&& a.favorite == b.favorite
    &&& a.tags == b.tags
}

/// Whether `a` and `b` agree on every field but the body.
pub open spec fn same_but_content(a: SecureRecord, b: SecureRecord) -> bool {
    &&& a.id == b.id
    &&& a.title == b.title
    &&& a.group_id == b.group_id
    &&& a.pinned == b.pinned
    &&& a.archived == b.archived
    &&& a.created_at == b.created_at
    &&& a.updated_at == b.updated_at
}

/// Replaces a credential's stored secret by its plaintext; a secret that
/// does not decrypt is left as stored.
pub fn decrypt_password_field(encryption: &EncryptionService, p: &mut Password)
    ensures
        same_but_secret(*final(p), *old(p)),
        opt_view(final(p).password) == revealed(encryption@, opt_view(old(p).password)),
{
    let plain = decrypt_field(encryption, &p.password);
    p.password = plain;
}

/// Replaces a credential's plaintext secret by its stored form.
pub fn encrypt_password_field(encryption: &EncryptionService, p: &mut Password) -> (r: Result<(), CipherError>)
    ensures
        r is Ok,
        same_but_secret(*final(p), *old(p)),
        sealed_as(encryption@, opt_view(old(p).password), opt_view(final(p).password)),
{
    let sealed = encrypt_field(encryption, &p.password);
    p.password = sealed;
    Ok(())
}

/// Replaces a note's stored body by its plaintext; a body that does not
/// decrypt is left as stored.
pub fn decrypt_note_content(encryption: &EncryptionService, note: &mut SecureRecord)
    ensures
        same_but_content(*final(note), *old(note)),
        opt_view(final(note).content) == revealed(encryption@, opt_view(old(note).content)),
{
    let plain = decrypt_field(encryption, &note.content);
    note.content = plain;
}

/// Replaces a note's plaintext body by its stored form.
pub fn encrypt_note_content(encryption: &EncryptionService, note: &mut SecureRecord) -> (r: Result<(), CipherError>)
    ensures
        r is Ok,
        same_but_content(*final(note), *old(note)),
        sealed_as(encryption@, opt_view(old(note).content), opt_view(final(note).content)),
{
    let sealed = encrypt_field(encryption, &note.content);
    note.content = sealed;
    Ok(())
}

/// The lower-case hexadecimal digit for `n < 16`.
pub open spec fn hex_digit(n: int) -> char {
    seq!['0', '1', '2', '3', '4', '5', '6', '7', '8', '9', 'a', 'b', 'c', 'd', 'e', 'f'][n]
}

/// `b` in lower-case hexadecimal, two digits per byte.
pub open spec fn lower_hex(b: Seq<u8>) -> Seq<char>
    decreases b.len(),
{
    if b.len() == 0 {
        Seq::empty()
    } else {
        lower_hex(b.drop_last()) + seq![hex_digit(b.last() as int / 16), hex_digit(b.last() as int % 16)]
    }
}

/// Relies on `hex::encode`: two lower-case digits per byte, high nibble first.
#[verifier::external_body]
fn hex_encode(b: &[u8]) -> (r: String)
    ensures
        r@ == lower_hex(b@),
{
    hex::encode(b)
}

/// The digest the master password is kept under: SHA-256 of its UTF-8 bytes,
/// in hexadecimal.
pub fn hash_password(password: &str) -> (r: String)
    ensures
        r@ == lower_hex(sha256_of(encode_utf8(password@))),
{
    let digest = crate::encryption::sha256_digest(password.as_bytes());
    hex_encode(digest.as_slice())
}

} // verus!
