//! Application errors and the codes the frontend branches on.

use vstd::prelude::*;

use crate::text::push_str;

verus! {

/// An error reported to the frontend as `{ code, message }`.
#[derive(Debug)]
pub enum AppError {
    NoDevice(String),
    InvalidKey,
    Keyring(String),
    Audio(String),
    Network(String),
    Internal(String),
}

/// The machine-readable code of an error.
pub open spec fn error_code(e: AppError) -> Seq<char> {
    match e {
        AppError::NoDevice(_) => "no_device"@,
        AppError::InvalidKey => "invalid_key"@,
        AppError::Keyring(_) => "keyring"@,
        AppError::Audio(_) => "device_lost"@,
        AppError::Network(_) => "network"@,
        AppError::Internal(_) => "internal"@,
    }
}

/// The human-readable message of an error.
pub open spec fn error_message(e: AppError) -> Seq<char> {
    match e {
        AppError::NoDevice(d) => "no audio device: "@ + d@,
        AppError::InvalidKey => "invalid or missing API key"@,
        AppError::Keyring(d) => "credential storage error: "@ + d@,
        AppError::Audio(d) => "audio error: "@ + d@,
        AppError::Network(d) => "network error: "@ + d@,
        AppError::Internal(d) => "internal error: "@ + d@,
    }
}

impl AppError {
    /// The machine-readable code of this error.
    pub fn code(&self) -> (r: &'static str)
        ensures
            r@ == error_code(*self),
    {
        match self {
            AppError::NoDevice(_) => "no_device",
            AppError::InvalidKey => "invalid_key",
            AppError::Keyring(_) => "keyring",
            AppError::Audio(_) => "device_lost",
            AppError::Network(_) => "network",
            AppError::Internal(_) => "internal",
        }
    }

    /// The human-readable message of this error.
    pub fn message(&self) -> (r: String)
        ensures
            r@ == error_message(*self),
    {
        let (prefix, detail): (&str, &str) = match self {
            AppError::NoDevice(d) => ("no audio device: ", d.as_str()),
            AppError::InvalidKey => ("invalid or missing API key", ""),
            AppError::Keyring(d) => ("credential storage error: ", d.as_str()),
            AppError::Audio(d) => ("audio error: ", d.as_str()),
            AppError::Network(d) => ("network error: ", d.as_str()),
            AppError::Internal(d) => ("internal error: ", d.as_str()),
        };
        proof {
            reveal_strlit("");
        }
        let mut r = prefix.to_owned();
        push_str(&mut r, detail);
        assert(r@ =~= error_message(*self));
        r
    }
}

} // verus!
