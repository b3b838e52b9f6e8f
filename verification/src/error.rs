//! The errors of vault operations, with the messages the command line shows.
use crate::crypto::{crypto_error_text, CryptoError};
use vstd::prelude::*;

verus! {

/// What went wrong, with the names involved.
#[derive(Debug)]
pub enum VaultError {
    Crypto(CryptoError),
    /// A local vault was given a group other than its single one.
    LocalGroupOnly,
    /// No group was given and no linked directory encloses the working directory.
    NoLinkedGroup,
    /// The working directory was not known.
    NoWorkingDirectory,
    NoGroupNamed(String),
    GroupNotFound(String),
    NoTagNamed(String, String),
    TagNotProtected,
    CorruptedTag,
    /// A stored key decrypted to something that is not 32 bytes long.
    CorruptedKey,
    WrongTagPassword,
    WrongMasterPassword,
    /// The password does not derive the vault's public key.
    AuthenticationFailed,
    LocalCannotLink,
    ReservedTag,
    TagExists(String, String),
    TagProtected(String),
    TagKeyRequired(String),
    InvalidUtf8,
    EntryNotFound(String, String),
    GroupHasProtectedTags(String),
    CannotRemoveBase,
    NoEntryInTag(String, String, String),
    NoEntryInGroup(String, String),
    UnprotectedTagRotation,
    TagPasswordRequired,
    UnknownGroup,
    UnknownTag,
    PublicKeyLength,
    CorruptedPublicKey,
    CorruptedSignature,
    SealTampered,
    TokenRevoked(String),
    TokenValueNotUtf8,
    /// A token is not three dot-separated parts.
    InvalidTokenFormat,
    /// A part of a token is not URL-safe base64.
    TokenEncoding,
    /// A token was issued by another vault.
    TokenWrongVault,
    /// A token's key or signature has the wrong length.
    TokenKeyLength,
    /// A token's key is not a valid public key.
    TokenInvalidKey,
    TokenSignatureFailed,
    TokenCompression,
    TokenDecompression,
    TokenExpired,
    /// The token's scope, and the scope of the request.
    TokenScopeMismatch(String, String),
}

/// The model of an error: its kind with the names it carries as character sequences.
pub enum ErrorModel {
    Crypto(CryptoError),
    LocalGroupOnly,
    NoLinkedGroup,
    NoWorkingDirectory,
    NoGroupNamed(Seq<char>),
    GroupNotFound(Seq<char>),
    NoTagNamed(Seq<char>, Seq<char>),
    TagNotProtected,
    CorruptedTag,
    CorruptedKey,
    WrongTagPassword,
    WrongMasterPassword,
    AuthenticationFailed,
    LocalCannotLink,
    ReservedTag,
    TagExists(Seq<char>, Seq<char>),
    TagProtected(Seq<char>),
    TagKeyRequired(Seq<char>),
    InvalidUtf8,
    EntryNotFound(Seq<char>, Seq<char>),
    GroupHasProtectedTags(Seq<char>),
    CannotRemoveBase,
    NoEntryInTag(Seq<char>, Seq<char>, Seq<char>),
    NoEntryInGroup(Seq<char>, Seq<char>),
    UnprotectedTagRotation,
    TagPasswordRequired,
    UnknownGroup,
    UnknownTag,
    PublicKeyLength,
    CorruptedPublicKey,
    CorruptedSignature,
    SealTampered,
    TokenRevoked(Seq<char>),
    TokenValueNotUtf8,
    InvalidTokenFormat,
    TokenEncoding,
    TokenWrongVault,
    TokenKeyLength,
    TokenInvalidKey,
    TokenSignatureFailed,
    TokenCompression,
    TokenDecompression,
    TokenExpired,
    TokenScopeMismatch(Seq<char>, Seq<char>),
}

impl View for VaultError {
    type V = ErrorModel;

    open spec fn view(&self) -> ErrorModel {
        match self {
            VaultError::Crypto(e) => ErrorModel::Crypto(*e),
            VaultError::LocalGroupOnly => ErrorModel::LocalGroupOnly,
            VaultError::NoLinkedGroup => ErrorModel::NoLinkedGroup,
            VaultError::NoWorkingDirectory => ErrorModel::NoWorkingDirectory,
            VaultError::NoGroupNamed(g) => ErrorModel::NoGroupNamed(g@),
            VaultError::GroupNotFound(g) => ErrorModel::GroupNotFound(g@),
            VaultError::NoTagNamed(t, g) => ErrorModel::NoTagNamed(t@, g@),
            VaultError::TagNotProtected => ErrorModel::TagNotProtected,
            VaultError::CorruptedTag => ErrorModel::CorruptedTag,
            VaultError::CorruptedKey => ErrorModel::CorruptedKey,
            VaultError::WrongTagPassword => ErrorModel::WrongTagPassword,
            VaultError::WrongMasterPassword => ErrorModel::WrongMasterPassword,
            VaultError::AuthenticationFailed => ErrorModel::AuthenticationFailed,
            VaultError::LocalCannotLink => ErrorModel::LocalCannotLink,
            VaultError::ReservedTag => ErrorModel::ReservedTag,
            VaultError::TagExists(t, g) => ErrorModel::TagExists(t@, g@),
            VaultError::TagProtected(t) => ErrorModel::TagProtected(t@),
            VaultError::TagKeyRequired(t) => ErrorModel::TagKeyRequired(t@),
            VaultError::InvalidUtf8 => ErrorModel::InvalidUtf8,
            VaultError::EntryNotFound(n, t) => ErrorModel::EntryNotFound(n@, t@),
            VaultError::GroupHasProtectedTags(g) => ErrorModel::GroupHasProtectedTags(g@),
            VaultError::CannotRemoveBase => ErrorModel::CannotRemoveBase,
            VaultError::NoEntryInTag(n, t, g) => ErrorModel::NoEntryInTag(n@, t@, g@),
            VaultError::NoEntryInGroup(n, g) => ErrorModel::NoEntryInGroup(n@, g@),
            VaultError::UnprotectedTagRotation => ErrorModel::UnprotectedTagRotation,
            VaultError::TagPasswordRequired => ErrorModel::TagPasswordRequired,
            VaultError::UnknownGroup => ErrorModel::UnknownGroup,
            VaultError::UnknownTag => ErrorModel::UnknownTag,
            VaultError::PublicKeyLength => ErrorModel::PublicKeyLength,
            VaultError::CorruptedPublicKey => ErrorModel::CorruptedPublicKey,
            VaultError::CorruptedSignature => ErrorModel::CorruptedSignature,
            VaultError::SealTampered => ErrorModel::SealTampered,
            VaultError::TokenRevoked(v) => ErrorModel::TokenRevoked(v@),
            VaultError::TokenValueNotUtf8 => ErrorModel::TokenValueNotUtf8,
            VaultError::InvalidTokenFormat => ErrorModel::InvalidTokenFormat,
            VaultError::TokenEncoding => ErrorModel::TokenEncoding,
            VaultError::TokenWrongVault => ErrorModel::TokenWrongVault,
            VaultError::TokenKeyLength => ErrorModel::TokenKeyLength,
            VaultError::TokenInvalidKey => ErrorModel::TokenInvalidKey,
            VaultError::TokenSignatureFailed => ErrorModel::TokenSignatureFailed,
            VaultError::TokenCompression => ErrorModel::TokenCompression,
            VaultError::TokenDecompression => ErrorModel::TokenDecompression,
            VaultError::TokenExpired => ErrorModel::TokenExpired,
            VaultError::TokenScopeMismatch(a, b) => ErrorModel::TokenScopeMismatch(a@, b@),
        }
    }
}

/// The message shown for an error.
pub open spec fn error_text(m: ErrorModel) -> Seq<char> {
    match m {
        ErrorModel::Crypto(e) => crypto_error_text(e),
        ErrorModel::LocalGroupOnly => "Local vaults do not support multiple groups. Omit --group."@,
        ErrorModel::NoLinkedGroup => "No group linked to current directory. Run 'envseal link <group>' or pass --group."@,
        ErrorModel::NoWorkingDirectory => "Could not determine the current directory"@,
        ErrorModel::NoGroupNamed(g) => "No group named '"@ + g + "'"@,
        ErrorModel::GroupNotFound(g) => "Group '"@ + g + "' not found"@,
        ErrorModel::NoTagNamed(t, g) => "No tag named '"@ + t + "' in group '"@ + g + "'"@,
        ErrorModel::TagNotProtected => "Tag is not protected"@,
        ErrorModel::CorruptedTag => "Corrupted tag: missing wrapped DEK"@,
        ErrorModel::CorruptedKey => "Corrupted key: decrypted key material is not 32 bytes long"@,
        ErrorModel::WrongTagPassword => "Wrong tag password"@,
        ErrorModel::WrongMasterPassword => "Wrong master password"@,
        ErrorModel::AuthenticationFailed => "Authentication failed: Wrong master password (master key does not match vault public key)"@,
        ErrorModel::LocalCannotLink => "Local vaults cannot configure linking. Linking is only used for the global vault."@,
        ErrorModel::ReservedTag => "Cannot create tag named 'base': 'base' is a reserved keyword"@,
        ErrorModel::TagExists(t, g) => "Tag '"@ + t + "' already exists in group '"@ + g + "'"@,
        ErrorModel::TagProtected(t) => "Tag '"@ + t + "' is protected! Password required to modify it"@,
        ErrorModel::TagKeyRequired(t) => "Password required for protected tag '"@ + t + "'"@,
        ErrorModel::InvalidUtf8 => "Invalid UTF-8 in decrypted value"@,
        ErrorModel::EntryNotFound(n, t) => "No entry '"@ + n + "' found in tag '"@ + t + "' or base"@,
        ErrorModel::GroupHasProtectedTags(g) => "Group '"@ + g + "' contains protected tags. Tag key or explicit deletion required."@,
        ErrorModel::CannotRemoveBase => "Cannot remove the reserved default 'base' tag completely"@,
        ErrorModel::NoEntryInTag(n, t, g) => "No entry '"@ + n + "' in tag '"@ + t + "' in group '"@ + g + "'"@,
        ErrorModel::NoEntryInGroup(n, g) => "No entry '"@ + n + "' in group '"@ + g + "'"@,
        ErrorModel::UnprotectedTagRotation => "Cannot independently rotate an unprotected tag"@,
        ErrorModel::TagPasswordRequired => "Tag password required"@,
        ErrorModel::UnknownGroup => "Group not found"@,
        ErrorModel::UnknownTag => "Tag not found"@,
        ErrorModel::PublicKeyLength => "Corrupted public key in vault: could not convert slice to array"@,
        ErrorModel::CorruptedPublicKey => "Corrupted public key in vault"@,
        ErrorModel::CorruptedSignature => "Corrupted signature format in vault"@,
        ErrorModel::SealTampered => "SEAL TAMPERED: Ed25519 signature verification failed"@,
        ErrorModel::TokenRevoked(v) => "Decryption failed for '"@ + v + "'. Token is revoked or invalid."@,
        ErrorModel::TokenValueNotUtf8 => "Decrypted value is not valid UTF-8"@,
        ErrorModel::InvalidTokenFormat => "Invalid token format!!"@,
        ErrorModel::TokenEncoding => "Invalid token encoding: not URL-safe base64"@,
        ErrorModel::TokenWrongVault => "ACCESS DENIED: Token does not belong to this vault!"@,
        ErrorModel::TokenKeyLength => "could not convert slice to array"@,
        ErrorModel::TokenInvalidKey => "signature error: invalid public key"@,
        ErrorModel::TokenSignatureFailed => "ACCESS DENIED: Token signature verification failed!!"@,
        ErrorModel::TokenCompression => "Failed to compress token payload!"@,
        ErrorModel::TokenDecompression => "Failed to decompress token payload!"@,
        ErrorModel::TokenExpired => "Token expired, Create a new one to continue using!!"@,
        ErrorModel::TokenScopeMismatch(a, b) => "Token scope mismatch: token is scoped for '"@ + a + "', but active scope is '"@ + b + "'"@,
    }
}

impl VaultError {
    /// The message shown to the user; see `error_text`.
    pub fn message(&self) -> (s: String)
        ensures
            s@ == error_text(self@),
    {
        match self {
            VaultError::Crypto(e) => e.message(),
            VaultError::LocalGroupOnly => String::from_str("Local vaults do not support multiple groups. Omit --group."),
            VaultError::NoLinkedGroup => String::from_str("No group linked to current directory. Run 'envseal link <group>' or pass --group."),
            VaultError::NoWorkingDirectory => String::from_str("Could not determine the current directory"),
            VaultError::NoGroupNamed(g) => {
                let mut s = String::from_str("No group named '");
                s.append(g.as_str());
                s.append("'");
                s
            },
            VaultError::GroupNotFound(g) => {
                let mut s = String::from_str("Group '");
                s.append(g.as_str());
                s.append("' not found");
                s
            },
            VaultError::NoTagNamed(t, g) => {
                let mut s = String::from_str("No tag named '");
                s.append(t.as_str());
                s.append("' in group '");
                s.append(g.as_str());
                s.append("'");
                s
            },
            VaultError::TagNotProtected => String::from_str("Tag is not protected"),
            VaultError::CorruptedTag => String::from_str("Corrupted tag: missing wrapped DEK"),
            VaultError::CorruptedKey => String::from_str("Corrupted key: decrypted key material is not 32 bytes long"),
            VaultError::WrongTagPassword => String::from_str("Wrong tag password"),
            VaultError::WrongMasterPassword => String::from_str("Wrong master password"),
            VaultError::AuthenticationFailed => String::from_str("Authentication failed: Wrong master password (master key does not match vault public key)"),
            VaultError::LocalCannotLink => String::from_str("Local vaults cannot configure linking. Linking is only used for the global vault."),
            VaultError::ReservedTag => String::from_str("Cannot create tag named 'base': 'base' is a reserved keyword"),
            VaultError::TagExists(t, g) => {
                let mut s = String::from_str("Tag '");
                s.append(t.as_str());
                s.append("' already exists in group '");
                s.append(g.as_str());
                s.append("'");
                s
            },
            VaultError::TagProtected(t) => {
                let mut s = String::from_str("Tag '");
                s.append(t.as_str());
                s.append("' is protected! Password required to modify it");
                s
            },
            VaultError::TagKeyRequired(t) => {
                let mut s = String::from_str("Password required for protected tag '");
                s.append(t.as_str());
                s.append("'");
                s
            },
            VaultError::InvalidUtf8 => String::from_str("Invalid UTF-8 in decrypted value"),
            VaultError::EntryNotFound(n, t) => {
                let mut s = String::from_str("No entry '");
                s.append(n.as_str());
                s.append("' found in tag '");
                s.append(t.as_str());
                s.append("' or base");
                s
            },
            VaultError::GroupHasProtectedTags(g) => {
                let mut s = String::from_str("Group '");
                s.append(g.as_str());
                s.append("' contains protected tags. Tag key or explicit deletion required.");
                s
            },
            VaultError::CannotRemoveBase => String::from_str("Cannot remove the reserved default 'base' tag completely"),
            VaultError::NoEntryInTag(n, t, g) => {
                let mut s = String::from_str("No entry '");
                s.append(n.as_str());
                s.append("' in tag '");
                s.append(t.as_str());
                s.append("' in group '");
                s.append(g.as_str());
                s.append("'");
                s
            },
            VaultError::NoEntryInGroup(n, g) => {
                let mut s = String::from_str("No entry '");
                s.append(n.as_str());
                s.append("' in group '");
                s.append(g.as_str());
                s.append("'");
                s
            },
            VaultError::UnprotectedTagRotation => String::from_str("Cannot independently rotate an unprotected tag"),
            VaultError::TagPasswordRequired => String::from_str("Tag password required"),
            VaultError::UnknownGroup => String::from_str("Group not found"),
            VaultError::UnknownTag => String::from_str("Tag not found"),
            VaultError::PublicKeyLength => String::from_str("Corrupted public key in vault: could not convert slice to array"),
            VaultError::CorruptedPublicKey => String::from_str("Corrupted public key in vault"),
            VaultError::CorruptedSignature => String::from_str("Corrupted signature format in vault"),
            VaultError::SealTampered => String::from_str("SEAL TAMPERED: Ed25519 signature verification failed"),
            VaultError::TokenRevoked(v) => {
                let mut s = String::from_str("Decryption failed for '");
                s.append(v.as_str());
                s.append("'. Token is revoked or invalid.");
                s
            },
            VaultError::TokenValueNotUtf8 => String::from_str("Decrypted value is not valid UTF-8"),
            VaultError::InvalidTokenFormat => String::from_str("Invalid token format!!"),
            VaultError::TokenEncoding => String::from_str("Invalid token encoding: not URL-safe base64"),
            VaultError::TokenWrongVault => String::from_str("ACCESS DENIED: Token does not belong to this vault!"),
            VaultError::TokenKeyLength => String::from_str("could not convert slice to array"),
            VaultError::TokenInvalidKey => String::from_str("signature error: invalid public key"),
            VaultError::TokenSignatureFailed => String::from_str("ACCESS DENIED: Token signature verification failed!!"),
            VaultError::TokenCompression => String::from_str("Failed to compress token payload!"),
            VaultError::TokenDecompression => String::from_str("Failed to decompress token payload!"),
            VaultError::TokenExpired => String::from_str("Token expired, Create a new one to continue using!!"),
            VaultError::TokenScopeMismatch(a, b) => {
                let mut s = String::from_str("Token scope mismatch: token is scoped for '");
                s.append(a.as_str());
                s.append("', but active scope is '");
                s.append(b.as_str());
                s.append("'");
                s
            },
        }
    }
}

} // verus!
