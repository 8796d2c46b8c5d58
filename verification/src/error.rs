//! Error types of the daemon core.

use vstd::prelude::*;
use vstd::string::StringExecFns;

verus! {

/// Errors of the persistence facade.
#[derive(Debug)]
pub enum DatabaseError {
    /// No row with the requested key.
    NotFound,
    /// An insert would repeat an existing primary key.
    DuplicateKey,
    /// A message names a contact that is not in the store.
    ForeignKeyMissing,
    /// The auto-increment id space is used up.
    IdExhausted,
    /// An integer id was requested where the key is textual, or vice versa.
    InvalidPrimaryKeyType,
}

/// Errors of the configuration table.
#[derive(Debug)]
pub enum ConfigError {
    /// The key is not one of the recognized flags.
    UnknownKey,
}

/// Errors of signed payload handling.
#[derive(Debug)]
pub enum PayloadError {
    /// The bytes are not a canonical signed payload.
    EncodingInvalid,
    /// A key is not 32 hex-encoded bytes, or is rejected by the curve.
    KeyMalformed,
    /// The inputs are well formed but the signature does not verify.
    SignatureInvalid,
}

/// Errors of the ratchet subsystem.
#[derive(Debug)]
pub enum RatchetError {
    /// The `to` field of a handshake does not name this peer.
    InvalidHandshakeTarget,
    /// A handshake signature is malformed or does not verify.
    SignatureInvalid,
    /// AEAD verification of an incoming ciphertext failed.
    MessageDecryptError,
    /// A key is not exactly 32 bytes.
    InvalidKeyLength,
}

/// Errors of the identity manager.
#[derive(Debug)]
pub enum ClientError {
    /// A stored key does not decode as hex.
    HexInvalid,
    /// A stored key does not decode to 32 bytes.
    InvalidKeyLength,
    /// The stored public key is rejected by the curve.
    KeyInvalid,
}

/// Errors of command handling.
#[derive(Debug)]
pub enum RpcError {
    /// The request line is not a canonical command.
    MalformedCommand,
    /// The persistence facade failed.
    DatabaseError(DatabaseError),
    /// The configuration table refused the key.
    ConfigError(ConfigError),
}

/// The wording of an error reply for a command that failed.
pub open spec fn spec_rpc_error_message(e: RpcError) -> Seq<char> {
    match e {
        RpcError::MalformedCommand => "malformed command"@,
        RpcError::DatabaseError(DatabaseError::NotFound) => "not found"@,
        RpcError::DatabaseError(DatabaseError::DuplicateKey) => "duplicate key"@,
        RpcError::DatabaseError(DatabaseError::ForeignKeyMissing) => "unknown contact"@,
        RpcError::DatabaseError(DatabaseError::IdExhausted) => "id space exhausted"@,
        RpcError::DatabaseError(DatabaseError::InvalidPrimaryKeyType) => "invalid primary key type"@,
        RpcError::ConfigError(ConfigError::UnknownKey) => "unknown config key"@,
    }
}

impl RpcError {
    /// The wording used in an `{"error": ...}` reply.
    pub fn message(&self) -> (r: String)
        ensures
            r@ == spec_rpc_error_message(*self),
    {
        match self {
            RpcError::MalformedCommand => String::from_str("malformed command"),
            RpcError::DatabaseError(DatabaseError::NotFound) => String::from_str("not found"),
            RpcError::DatabaseError(DatabaseError::DuplicateKey) => String::from_str(
                "duplicate key",
            ),
            RpcError::DatabaseError(DatabaseError::ForeignKeyMissing) => String::from_str(
                "unknown contact",
            ),
            RpcError::DatabaseError(DatabaseError::IdExhausted) => String::from_str(
                "id space exhausted",
            ),
            RpcError::DatabaseError(DatabaseError::InvalidPrimaryKeyType) => String::from_str(
                "invalid primary key type",
            ),
            RpcError::ConfigError(ConfigError::UnknownKey) => String::from_str(
                "unknown config key",
            ),
        }
    }
}

} // verus!
