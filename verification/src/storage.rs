//! Private files and random names.
use crate::codec::encode;
use crate::config::is_valid_token;
use ring::rand::SecureRandom;
use vstd::prelude::*;

verus! {

/// How many bytes a private file may hold.
pub const FILE_LIMIT: usize = 1_048_576;

/// The bits of a file's mode that let others than its owner use it.
pub const OTHERS: u32 = 0o077;

/// The mode that a private file is made with.
pub const OWNER_ONLY: u32 = 0o600;

/// The bit of a mode that marks a regular file.
pub const REGULAR: u32 = 0o100000;

/// Why a private file is not used.
#[derive(Clone, Copy, Debug, PartialEq, Eq, Structural)]
pub enum StorageError {
    /// It is no regular file.
    Irregular,
    /// Others than its owner may use it.
    Permissions,
    /// It is too large.
    TooLarge,
    /// No random bytes could be had.
    Random,
    /// It holds no local proxy token.
    Token,
}

/// What is told of an error.
pub open spec fn error_text(error: StorageError) -> Seq<char> {
    match error {
        StorageError::Irregular => "expected a regular private file"@,
        StorageError::Permissions =>
            "managed credential file must have owner-only permissions (0600)"@,
        StorageError::TooLarge => "managed credential file exceeds size limit"@,
        StorageError::Random => "secure random generation failed"@,
        StorageError::Token => "invalid local proxy token"@,
    }
}

impl StorageError {
    /// What is told of the error.
    pub fn message(self) -> (text: &'static str)
        ensures
            text@ == error_text(self),
    {
        match self {
            StorageError::Irregular => "expected a regular private file",
            StorageError::Permissions =>
                "managed credential file must have owner-only permissions (0600)",
            StorageError::TooLarge => "managed credential file exceeds size limit",
            StorageError::Random => "secure random generation failed",
            StorageError::Token => "invalid local proxy token",
        }
    }
}

/// A file as it was opened: whether it is a regular file, its mode where files have one, and its
/// bytes up to one more than the limit.
pub struct PrivateFile {
    pub regular: bool,
    pub mode: Option<u32>,
    pub bytes: Vec<u8>,
}

/// Why a file is not safe to use.
pub open spec fn file_error(regular: bool, mode: Option<u32>) -> Option<StorageError> {
    if !regular {
        Some(StorageError::Irregular)
    } else if mode matches Some(bits) && bits & OTHERS != 0 {
        Some(StorageError::Permissions)
    } else {
        None
    }
}

/// Checks that a file is a regular file that only its owner may use.
pub fn check_file(regular: bool, mode: Option<u32>) -> (result: Result<(), StorageError>)
    ensures
        result == match file_error(regular, mode) {
            Some(error) => Err::<(), StorageError>(error),
            None => Ok(()),
        },
{
    if !regular {
        return Err(StorageError::Irregular);
    }
    if let Some(bits) = mode {
        if bits & OTHERS != 0 {
            return Err(StorageError::Permissions);
        }
    }
    Ok(())
}

/// The bytes that are taken from a file.
pub open spec fn private_bytes(regular: bool, mode: Option<u32>, bytes: Seq<u8>) -> Result<
    Seq<u8>,
    StorageError,
> {
    match file_error(regular, mode) {
        Some(error) => Err(error),
        None => if bytes.len() > FILE_LIMIT {
            Err(StorageError::TooLarge)
        } else {
            Ok(bytes)
        },
    }
}

/// Takes the bytes of a private file, where it is safe to use and not too large.
pub fn read_private(file: PrivateFile) -> (result: Result<Vec<u8>, StorageError>)
    ensures
        match result {
            Ok(bytes) => private_bytes(file.regular, file.mode, file.bytes@) == Ok::<
                Seq<u8>,
                StorageError,
            >(bytes@),
            Err(error) => private_bytes(file.regular, file.mode, file.bytes@) == Err::<
                Seq<u8>,
                StorageError,
            >(error),
        },
{
    match check_file(file.regular, file.mode) {
        Err(error) => return Err(error),
        Ok(()) => {},
    }
    if file.bytes.len() > FILE_LIMIT {
        return Err(StorageError::TooLarge);
    }
    Ok(file.bytes)
}

/// The mode of a private file once it was made, where the system takes the bits of a mask out.
pub open spec fn made_with(mask: u32) -> u32 {
    REGULAR | (OWNER_ONLY & !mask)
}

/// A private file that was written anew reads back as what was written, whatever the mask of the
/// process is, and whatever stood in its place before.
pub proof fn written_file_is_read_back(bytes: Seq<u8>, mask: u32)
    requires
        bytes.len() <= FILE_LIMIT,
    ensures
        private_bytes(true, Some(made_with(mask)), bytes) == Ok::<Seq<u8>, StorageError>(bytes),
{
    assert((0o100000u32 | (0o600u32 & !mask)) & 0o077u32 == 0) by (bit_vector);
}

/// Whether a file may be replaced: it is missing, or a regular file that is no link.
pub fn may_replace(present: bool, regular: bool, link: bool) -> (yes: bool)
    ensures
        yes == (!present || (regular && !link)),
{
    !present || (regular && !link)
}

/// Random bytes.
///
/// Calls `fill` of `ring::rand::SystemRandom` on 32 bytes. Nothing is claimed of the bytes; the
/// system may have none to give.
#[verifier::external_body]
fn random_bytes() -> (bytes: Option<Vec<u8>>)
    ensures
        bytes matches Some(found) ==> found@.len() == 32,
{
    let mut bytes = vec![0u8; 32];
    ring::rand::SystemRandom::new().fill(&mut bytes).ok()?;
    Some(bytes)
}

/// A random text of 43 letters of the URL-safe base64 alphabet: 32 bytes.
pub open spec fn is_random_text(text: Seq<char>) -> bool {
    exists|bytes: Seq<u8>| bytes.len() == 32 && text == #[trigger] crate::codec::encoded(bytes)
}

/// A random text.
pub fn random_string() -> (result: Result<String, StorageError>)
    ensures
        match result {
            Ok(text) => is_random_text(text@) && text@.len() == 43,
            Err(error) => error == StorageError::Random,
        },
{
    match random_bytes() {
        Some(bytes) => Ok(encode(bytes.as_slice())),
        None => Err(StorageError::Random),
    }
}

/// Accepts what a token file holds as the local proxy token; `None` stands for what is no text.
pub fn accept_local_token(text: Option<String>) -> (result: Result<String, StorageError>)
    ensures
        match result {
            Ok(token) => text == Some(token) && crate::config::valid_token(token@),
            Err(error) => error == StorageError::Token && !(text matches Some(token)
                && crate::config::valid_token(token@)),
        },
{
    match text {
        Some(token) => if is_valid_token(token.as_str()) {
            Ok(token)
        } else {
            Err(StorageError::Token)
        },
        None => Err(StorageError::Token),
    }
}

proof fn lemma_letter_is_ascii(text: Seq<char>)
    requires
        forall|i: int| 0 <= i < text.len() ==> crate::codec::is_letter(#[trigger] text[i]),
    ensures
        crate::text::utf8(text).len() == text.len(),
        crate::text::visible_ascii(text),
{
    vstd::utf8::is_ascii_chars_encode_utf8(text);
}

/// A random text is a local proxy token.
pub proof fn random_text_is_a_token(text: Seq<char>)
    requires
        is_random_text(text),
    ensures
        crate::config::valid_token(text),
{
    let bytes = choose|bytes: Seq<u8>|
        bytes.len() == 32 && text == #[trigger] crate::codec::encoded(bytes);
    assert(text.len() == 43);
    assert forall|i: int| 0 <= i < text.len() implies crate::codec::is_letter(#[trigger] text[i]) by {
        crate::codec::encoded_holds_letters(bytes, i);
    }
    lemma_letter_is_ascii(text);
}

/// A private file is read exactly where it is a regular file, gives nothing to its group or to
/// others, and has at most 1 MiB; what is read is what it holds.
pub proof fn private_files_are_read(regular: bool, mode: Option<u32>, bytes: Seq<u8>)
    ensures
        private_bytes(regular, mode, bytes) is Ok <==> {
            &&& regular
            &&& mode is Some ==> mode->Some_0 & 0o077 == 0
            &&& bytes.len() <= 1024 * 1024
        },
        private_bytes(regular, mode, bytes) matches Ok(read) ==> read == bytes,
        private_bytes(regular, mode, bytes) == Err::<Seq<u8>, StorageError>(StorageError::Irregular)
            <==> !regular,
        private_bytes(regular, mode, bytes) == Err::<Seq<u8>, StorageError>(
            StorageError::Permissions,
        ) <==> regular && mode is Some && mode->Some_0 & 0o077 != 0,
        OWNER_ONLY == 0o600,
        REGULAR == 0o100000,
{
}

/// What is said of a private file that cannot be used.
pub proof fn file_errors_are_worded()
    ensures
        error_text(StorageError::Irregular) == "expected a regular private file"@,
        error_text(StorageError::Permissions)
            == "managed credential file must have owner-only permissions (0600)"@,
        error_text(StorageError::TooLarge) == "managed credential file exceeds size limit"@,
        error_text(StorageError::Random) == "secure random generation failed"@,
        error_text(StorageError::Token) == "invalid local proxy token"@,
{
}

} // verus!
