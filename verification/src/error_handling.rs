//! Typed errors reported by the engine.
//!
//! Every failure bubbles up as a [`WarpRejections`] value; the boundary
//! layer is responsible for turning these into transport-level responses.

use vstd::prelude::*;

verus! {

/// Credential-computation failures (not a verify-false result).
#[derive(Debug, Clone, PartialEq, Eq)]
pub enum AuthError {
    /// Deriving a salted hash failed.
    HasherError,
    /// Recomputing a hash during verification failed.
    VerifyError,
}

/// Storage-backend failures.
#[derive(Debug, Clone, PartialEq, Eq)]
pub enum SqlxError {
    InsertUserError,
    CreateDBError,
    CreateTableError,
    FetchUserError,
    DBConnectionError,
    CheckLoginError,
    SelectAllUsersError,
    VerifyPassError,
    HasherError,
    Other,
}

/// The closed enumeration of error kinds the engine emits.
#[derive(Debug, Clone, PartialEq, Eq)]
pub enum WarpRejections {
    /// A stored payload does not decode to the expected document shape.
    SerializationError,
    AutocompleteError,
    UTF8Error,
    BodyDeserializeError,
    /// Credential computation failed.
    AuthRejection(AuthError),
    /// The storage backend failed.
    SqlxRejection(SqlxError),
    /// No user is registered under the given username.
    UserNotExist,
    /// No group exists under the given identifier.
    GroupNotExist,
    /// The named user is not a member of the group.
    UserNotInGroup,
    /// A supplied group identifier is not well-formed.
    UuidError,
    /// Password verification returned false: invalid credentials.
    AuthFailure,
    /// Uniqueness violation: the key is already taken.
    Conflict,
    Other(String),
}

/// The message text reported for each error kind.
pub open spec fn message_spec(e: WarpRejections) -> Seq<char> {
    match e {
        WarpRejections::SerializationError => "SerializationError"@,
        WarpRejections::AutocompleteError => "AutocompleteError"@,
        WarpRejections::UTF8Error => "UTF8Error"@,
        WarpRejections::BodyDeserializeError => "BodyDeserializeError"@,
        WarpRejections::AuthRejection(AuthError::HasherError) => "HasherError"@,
        WarpRejections::AuthRejection(AuthError::VerifyError) => "VerifyError"@,
        WarpRejections::SqlxRejection(_) => "SqlxError"@,
        WarpRejections::UserNotExist => "UserNotExist"@,
        WarpRejections::GroupNotExist => "GroupNotExist"@,
        WarpRejections::UserNotInGroup => "UserNotInGroup"@,
        WarpRejections::UuidError => "UuidError"@,
        WarpRejections::AuthFailure => "AuthFailure"@,
        WarpRejections::Conflict => "Conflict"@,
        WarpRejections::Other(m) => m@,
    }
}

impl WarpRejections {
    /// Human-readable message for this error, as the boundary layer
    /// reports it.
    pub fn message(&self) -> (r: String)
        ensures
            r@ == message_spec(*self),
    {
        match self {
            WarpRejections::SerializationError => String::from_str("SerializationError"),
            WarpRejections::AutocompleteError => String::from_str("AutocompleteError"),
            WarpRejections::UTF8Error => String::from_str("UTF8Error"),
            WarpRejections::BodyDeserializeError => String::from_str("BodyDeserializeError"),
            WarpRejections::AuthRejection(AuthError::HasherError) => String::from_str(
                "HasherError",
            ),
            WarpRejections::AuthRejection(AuthError::VerifyError) => String::from_str(
                "VerifyError",
            ),
            WarpRejections::SqlxRejection(_) => String::from_str("SqlxError"),
            WarpRejections::UserNotExist => String::from_str("UserNotExist"),
            WarpRejections::GroupNotExist => String::from_str("GroupNotExist"),
            WarpRejections::UserNotInGroup => String::from_str("UserNotInGroup"),
            WarpRejections::UuidError => String::from_str("UuidError"),
            WarpRejections::AuthFailure => String::from_str("AuthFailure"),
            WarpRejections::Conflict => String::from_str("Conflict"),
            WarpRejections::Other(m) => m.clone(),
        }
    }

    /// The transport status class for this error: every engine error maps
    /// to a client-error status, as the rejection handler does.
    pub fn status_code(&self) -> (r: u16)
        ensures
            r == 400u16,
    {
        400
    }
}

} // verus!
