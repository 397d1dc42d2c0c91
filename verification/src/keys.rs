//! OpenAI API key storage in the operating system's credential store.
//! The key never touches a config file and is never sent to the frontend.

use keyring::Entry;

use vstd::prelude::*;

use crate::error::AppError;
use crate::text::{has_prefix, text_starts_with, trim, trim_text};

verus! {

#[verifier::external_type_specification]
#[verifier::external_body]
pub struct ExEntry(Entry);

#[verifier::external_type_specification]
#[verifier::external_body]
pub struct ExKeyringError(keyring::Error);

/// `keyring::Entry::new`: an entry of the default credential store; the
/// outcome depends on the platform store, so nothing is stated of it.
#[verifier::external_body]
fn keyring_entry_new(service: &str, user: &str) -> Result<Entry, keyring::Error> {
    Entry::new(service, user)
}

/// `keyring::Entry::set_password`; its outcome depends on the store.
#[verifier::external_body]
fn entry_set_password(entry: &Entry, password: &str) -> Result<(), keyring::Error> {
    entry.set_password(password)
}

/// How a read or a deletion in the credential store failed.
#[derive(Debug)]
pub enum StoreError {
    /// No credential is saved under the entry (`keyring::Error::NoEntry`).
    NoEntry,
    /// Any other failure of the store.
    Other(keyring::Error),
}

/// `keyring::Entry::get_password`, with `keyring::Error::NoEntry` told apart
/// from the other errors; which outcome comes depends on the store, so
/// nothing is stated of it.
#[verifier::external_body]
fn entry_get_password(entry: &Entry) -> Result<String, StoreError> {
    match entry.get_password() {
        Ok(k) => Ok(k),
        Err(keyring::Error::NoEntry) => Err(StoreError::NoEntry),
        Err(e) => Err(StoreError::Other(e)),
    }
}

/// `keyring::Entry::delete_credential`, with `keyring::Error::NoEntry` told
/// apart from the other errors; which outcome comes depends on the store,
/// so nothing is stated of it.
#[verifier::external_body]
fn entry_delete_credential(entry: &Entry) -> Result<(), StoreError> {
    match entry.delete_credential() {
        Ok(()) => Ok(()),
        Err(keyring::Error::NoEntry) => Err(StoreError::NoEntry),
        Err(e) => Err(StoreError::Other(e)),
    }
}

/// The `Display` text of a keyring error; nothing is stated of it.
#[verifier::external_body]
fn keyring_error_text(e: &keyring::Error) -> String {
    e.to_string()
}

/// Credential-store service name.
pub const SERVICE: &'static str = "live-translate";

/// Credential-store user name.
pub const USER: &'static str = "openai_api_key";

fn entry() -> (r: Result<Entry, AppError>)
    ensures
        r matches Err(e) ==> e is Keyring,
{
    match keyring_entry_new(SERVICE, USER) {
        Ok(e) => Ok(e),
        Err(e) => Err(AppError::Keyring(keyring_error_text(&e))),
    }
}

/// A key is accepted when, trimmed, it is at least 8 bytes long and starts
/// with `sk-`.
pub open spec fn key_acceptable(key: Seq<char>) -> bool {
    let k = trim(key);
    (vstd::utf8::encode_utf8(k).len() as usize) >= 8 && has_prefix(k, "sk-"@)
}

/// The message for a key that does not look like an OpenAI key.
pub open spec fn malformed_key_message() -> Seq<char> {
    "that does not look like an OpenAI API key (expected it to start with sk-)"@
}

/// The key to save for what the user entered: the entered text trimmed,
/// when it looks like an OpenAI key; otherwise the error shown to the user.
pub fn key_to_store(key: &str) -> (r: Result<String, AppError>)
    ensures
        match r {
            Ok(k) => key_acceptable(key@) && k@ == trim(key@),
            Err(e) => !key_acceptable(key@) && (e matches AppError::Internal(m) && m@
                == malformed_key_message()),
        },
{
    let k = trim_text(key);
    if k.as_str().len() < 8 || !text_starts_with(k.as_str(), "sk-") {
        return Err(
            AppError::Internal(
                "that does not look like an OpenAI API key (expected it to start with sk-)".to_owned(),
            ),
        );
    }
    Ok(k)
}

/// Validates and saves an API key in the credential store: what is written
/// is [`key_to_store`] of the entered text.
pub fn set_api_key(key: &str) -> (r: Result<(), AppError>)
    ensures
        !key_acceptable(key@) <==> (r matches Err(AppError::Internal(m))
            && m@ == malformed_key_message()),
        key_acceptable(key@) ==> (r is Ok || r matches Err(AppError::Keyring(_))),
{
    let k = match key_to_store(key) {
        Ok(k) => k,
        Err(e) => {
            return Err(e);
        },
    };
    let e = match entry() {
        Ok(e) => e,
        Err(err) => {
            return Err(err);
        },
    };
    match entry_set_password(&e, k.as_str()) {
        Ok(()) => Ok(()),
        Err(err) => Err(AppError::Keyring(keyring_error_text(&err))),
    }
}

/// The outcome of reading the key from what the store reported: the key,
/// `InvalidKey` when none is saved, `Keyring` for any other failure.
pub fn key_from_store(r: Result<String, StoreError>) -> (out: Result<String, AppError>)
    ensures
        match r {
            Ok(k) => out matches Ok(x) && x@ == k@,
            Err(StoreError::NoEntry) => out matches Err(AppError::InvalidKey),
            Err(StoreError::Other(_)) => out matches Err(AppError::Keyring(_)),
        },
{
    match r {
        Ok(k) => Ok(k),
        Err(StoreError::NoEntry) => Err(AppError::InvalidKey),
        Err(StoreError::Other(e)) => Err(AppError::Keyring(keyring_error_text(&e))),
    }
}

/// The outcome of deleting the key from what the store reported: deleting a
/// key that is not there succeeds; any other failure is `Keyring`.
pub fn deletion_result(r: Result<(), StoreError>) -> (out: Result<(), AppError>)
    ensures
        match r {
            Ok(()) => out is Ok,
            Err(StoreError::NoEntry) => out is Ok,
            Err(StoreError::Other(_)) => out matches Err(AppError::Keyring(_)),
        },
{
    match r {
        Ok(()) => Ok(()),
        Err(StoreError::NoEntry) => Ok(()),
        Err(StoreError::Other(e)) => Err(AppError::Keyring(keyring_error_text(&e))),
    }
}

/// Reads the saved API key: [`key_from_store`] of what the store reports.
pub fn get_api_key() -> (r: Result<String, AppError>)
    ensures
        r matches Err(e) ==> (e is InvalidKey || e is Keyring),
{
    let e = match entry() {
        Ok(e) => e,
        Err(err) => {
            return Err(err);
        },
    };
    key_from_store(entry_get_password(&e))
}

/// Whether a key is saved and readable.
pub fn has_api_key() -> bool {
    match entry() {
        Ok(e) => match entry_get_password(&e) {
            Ok(_) => true,
            Err(_) => false,
        },
        Err(_) => false,
    }
}

/// Deletes the saved key: [`deletion_result`] of what the store reports,
/// so deleting a key that is not there succeeds.
pub fn delete_api_key() -> (r: Result<(), AppError>)
    ensures
        r matches Err(e) ==> e is Keyring,
{
    let e = match entry() {
        Ok(e) => e,
        Err(err) => {
            return Err(err);
        },
    };
    deletion_result(entry_delete_credential(&e))
}

} // verus!
