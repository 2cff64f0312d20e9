//! Archive codec: the snapshot's serialized bytes, either as they are or
//! inside a single-member zip archive encrypted with AES-256 under a passphrase.
use vstd::prelude::*;
use vstd::slice::slice_to_vec;

verus! {

/// Name of the one member of a protected archive.
pub const BACKUP_MEMBER: &'static str = "backup.json";

/// The bytes of member `member` of zip archive `archive`, decrypted with
/// `passphrase`, or `None` where it cannot be read.
pub uninterp spec fn zip_member_of(archive: Seq<u8>, member: Seq<char>, passphrase: Seq<char>) -> Option<Seq<u8>>;

/// Relies on zip's `ZipWriter` with `AesMode::Aes256` and deflate: a one-member
/// archive, starting with the local header signature `PK`, from which
/// `ZipArchive::by_name_decrypt` with the same passphrase reads `payload` back.
#[verifier::external_body]
fn write_encrypted_zip(payload: &[u8], member: &str, passphrase: &str) -> (r: Option<Vec<u8>>)
    ensures
        r matches Some(a) ==> zip_member_of(a@, member@, passphrase@) == Some(payload@),
        r matches Some(a) ==> has_zip_signature(a@),
{
    let mut zip = zip::ZipWriter::new(std::io::Cursor::new(Vec::new()));
    let options = zip::write::SimpleFileOptions::default()
        .compression_method(zip::CompressionMethod::Deflated)
        .with_aes_encryption(zip::AesMode::Aes256, passphrase);
    zip.start_file(member, options).ok()?;
    std::io::Write::write_all(&mut zip, payload).ok()?;
    zip.finish().ok().map(|c| c.into_inner())
}

/// Relies on zip's `ZipArchive::by_name_decrypt` and `read_to_end`: the
/// member's bytes, or `None` where the archive, member or passphrase fails.
#[verifier::external_body]
fn read_encrypted_zip(archive: &[u8], member: &str, passphrase: &str) -> (r: Option<Vec<u8>>)
    ensures
        match r {
            Some(v) => zip_member_of(archive@, member@, passphrase@) == Some(v@),
            None => zip_member_of(archive@, member@, passphrase@) is None,
        },
{
    let mut zip = zip::ZipArchive::new(std::io::Cursor::new(archive)).ok()?;
    let mut file = zip.by_name_decrypt(member, passphrase.as_bytes()).ok()?;
    let mut out = Vec::new();
    std::io::Read::read_to_end(&mut file, &mut out).ok()?;
    Some(out)
}

/// Container of an exported archive.
#[derive(Debug, Clone, Copy, PartialEq, Eq, Structural)]
pub enum ArchiveFormat {
    /// The serialized snapshot, byte for byte.
    Plain,
    /// A passphrase-protected zip archive around it.
    Protected,
}

/// Why an export or an import failed as a whole.
#[derive(Debug, Clone, Copy, PartialEq, Eq, Structural)]
pub enum BackupError {
    /// A protected archive was asked for, or found, without a passphrase.
    PassphraseRequired,
    /// The protected archive cannot be opened: wrong passphrase or damage.
    CannotOpenArchive,
    /// The protected archive could not be written.
    ArchiveWriteFailed,
    /// The payload is not a snapshot document.
    InvalidDocument,
    /// Some archived groups' parent links run in a cycle.
    UnresolvedHierarchy,
    /// A table ran out of row identifiers.
    IdentifiersExhausted,
}

/// Whether `bytes` begin with the two-byte zip signature `PK`.
pub open spec fn has_zip_signature(bytes: Seq<u8>) -> bool {
    bytes.len() >= 2 && bytes[0] == 0x50u8 && bytes[1] == 0x4Bu8
}

/// Whether the options of an export can be served: protected mode needs a
/// passphrase.
pub open spec fn export_options_ok(format: ArchiveFormat, passphrase: Option<Seq<char>>) -> bool {
    format == ArchiveFormat::Plain || passphrase is Some
}

/// What decoding `bytes` gives: a protected archive is opened with the
/// passphrase, any other input is the payload itself.
pub open spec fn decode_spec(bytes: Seq<u8>, passphrase: Option<Seq<char>>) -> Result<Seq<u8>, BackupError> {
    if has_zip_signature(bytes) {
        match passphrase {
            None => Err(BackupError::PassphraseRequired),
            Some(p) => match zip_member_of(bytes, BACKUP_MEMBER@, p) {
                Some(payload) => Ok(payload),
                None => Err(BackupError::CannotOpenArchive),
            },
        }
    } else {
        Ok(bytes)
    }
}

/// The passphrase's text, if any.
pub open spec fn opt_text(o: Option<&str>) -> Option<Seq<char>> {
    match o {
        Some(s) => Some(s@),
        None => None,
    }
}

/// Checks export options before anything is read: protected mode without a
/// passphrase is refused.
pub fn check_export_options(format: ArchiveFormat, passphrase: Option<&str>) -> (r: Result<(), BackupError>)
    ensures
        r is Ok <==> export_options_ok(format, opt_text(passphrase)),
        r matches Err(e) ==> e == BackupError::PassphraseRequired,
{
    match (format, passphrase) {
        (ArchiveFormat::Protected, None) => Err(BackupError::PassphraseRequired),
        _ => Ok(()),
    }
}

/// Whether `bytes` begin with the zip signature.
pub fn is_protected_archive(bytes: &[u8]) -> (r: bool)
    ensures
        r == has_zip_signature(bytes@),
{
    bytes.len() >= 2 && bytes[0] == 0x50u8 && bytes[1] == 0x4Bu8
}

/// Encodes a serialized snapshot in the chosen container.
pub fn encode_archive(payload: &[u8], format: ArchiveFormat, passphrase: Option<&str>) -> (r: Result<Vec<u8>, BackupError>)
    ensures
        format == ArchiveFormat::Plain ==> (r matches Ok(a) && a@ == payload@),
        format == ArchiveFormat::Protected && passphrase is None ==> r == Err::<Vec<u8>, BackupError>(BackupError::PassphraseRequired),
        format == ArchiveFormat::Protected && passphrase is Some ==> match r {
            Ok(a) => has_zip_signature(a@) && zip_member_of(a@, BACKUP_MEMBER@, passphrase->0@) == Some(payload@),
            Err(e) => e == BackupError::ArchiveWriteFailed,
        },
{
    match format {
        ArchiveFormat::Plain => Ok(slice_to_vec(payload)),
        ArchiveFormat::Protected => match passphrase {
            None => Err(BackupError::PassphraseRequired),
            Some(p) => match write_encrypted_zip(payload, BACKUP_MEMBER, p) {
                Some(a) => Ok(a),
                None => Err(BackupError::ArchiveWriteFailed),
            },
        },
    }
}

/// Decodes archive bytes into the serialized snapshot, telling the two
/// containers apart by the zip signature.
pub fn decode_archive(bytes: &[u8], passphrase: Option<&str>) -> (r: Result<Vec<u8>, BackupError>)
    ensures
        match r {
            Ok(v) => decode_spec(bytes@, opt_text(passphrase)) == Ok::<Seq<u8>, BackupError>(v@),
            Err(e) => decode_spec(bytes@, opt_text(passphrase)) == Err::<Seq<u8>, BackupError>(e),
        },
{
    if is_protected_archive(bytes) {
        match passphrase {
            None => Err(BackupError::PassphraseRequired),
            Some(p) => match read_encrypted_zip(bytes, BACKUP_MEMBER, p) {
                Some(v) => Ok(v),
                None => Err(BackupError::CannotOpenArchive),
            },
        }
    } else {
        Ok(slice_to_vec(bytes))
    }
}

/// A protected archive decodes, under the passphrase it was written with,
/// to the payload it was written from.
pub proof fn lemma_protected_round_trip(archive: Seq<u8>, payload: Seq<u8>, passphrase: Seq<char>)
    requires
        has_zip_signature(archive),
        zip_member_of(archive, BACKUP_MEMBER@, passphrase) == Some(payload),
    ensures
        decode_spec(archive, Some(passphrase)) == Ok::<Seq<u8>, BackupError>(payload),
{
}

/// Decoding a protected archive under any passphrase either yields its
/// member or fails with the one opaque error; nothing in between.
pub proof fn lemma_protected_failure_is_opaque(archive: Seq<u8>, passphrase: Seq<char>)
    requires
        has_zip_signature(archive),
    ensures
        decode_spec(archive, Some(passphrase)) is Ok
            || decode_spec(archive, Some(passphrase)) == Err::<Seq<u8>, BackupError>(BackupError::CannotOpenArchive),
        decode_spec(archive, Some(passphrase)) matches Ok(v)
            ==> zip_member_of(archive, BACKUP_MEMBER@, passphrase) == Some(v),
{
}

/// A plain payload decodes to itself whatever passphrase is given, unless it
/// happens to begin with the zip signature.
pub proof fn lemma_plain_round_trip(payload: Seq<u8>, passphrase: Option<Seq<char>>)
    requires
        !has_zip_signature(payload),
    ensures
        decode_spec(payload, passphrase) == Ok::<Seq<u8>, BackupError>(payload),
{
}

} // verus!
