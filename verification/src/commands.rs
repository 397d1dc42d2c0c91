//! Decisions behind the frontend commands: the API-key test verdict, the
//! overlay window size per mode, and which shortcut actions exist.

use vstd::prelude::*;

use crate::text::{push_str, text_eq};

verus! {

/// Result of testing the saved API key against the models endpoint.
#[derive(Debug)]
pub struct TestApiKeyResult {
    pub ok: bool,
    pub error: Option<String>,
}

/// What a key test found.
#[derive(Debug)]
pub enum KeyCheck {
    /// No key is saved.
    NoKey,
    /// The endpoint answered with `code`; `text` is the status as displayed
    /// (`"404 Not Found"`).
    Status { code: u16, text: String },
    /// The request failed; `message` describes why.
    NetworkError { message: String },
}

/// The verdict of a key test.
pub open spec fn key_test_spec(check: KeyCheck) -> (bool, Option<Seq<char>>) {
    match check {
        KeyCheck::NoKey => (false, Some("no API key saved"@)),
        KeyCheck::Status { code, text } => if 200 <= code && code <= 299 {
            (true, None)
        } else if code == 401 {
            (false, Some("OpenAI rejected this key (401 Unauthorized)"@))
        } else {
            (false, Some("unexpected response: HTTP "@ + text@))
        },
        KeyCheck::NetworkError { message } => (false, Some("network error: "@ + message@)),
    }
}

/// Turns what a key test found into the verdict shown in Settings.
pub fn test_key_result(check: KeyCheck) -> (r: TestApiKeyResult)
    ensures
        (r.ok, match r.error {
            Some(e) => Some(e@),
            None => None,
        }) == key_test_spec(check),
{
    match check {
        KeyCheck::NoKey => TestApiKeyResult { ok: false, error: Some("no API key saved".to_owned()) },
        KeyCheck::Status { code, text } => {
            if 200 <= code && code <= 299 {
                TestApiKeyResult { ok: true, error: None }
            } else if code == 401 {
                TestApiKeyResult {
                    ok: false,
                    error: Some("OpenAI rejected this key (401 Unauthorized)".to_owned()),
                }
            } else {
                let mut m = "unexpected response: HTTP ".to_owned();
                push_str(&mut m, text.as_str());
                TestApiKeyResult { ok: false, error: Some(m) }
            }
        },
        KeyCheck::NetworkError { message } => {
            let mut m = "network error: ".to_owned();
            push_str(&mut m, message.as_str());
            TestApiKeyResult { ok: false, error: Some(m) }
        },
    }
}

/// Overlay window size (logical pixels) for a display mode: `"interview"`
/// is wide and short, every other mode tall.
pub fn overlay_size(mode: &str) -> (r: (u32, u32))
    ensures
        r == (if mode@ == "interview"@ {
            (720u32, 190u32)
        } else {
            (440u32, 520u32)
        }),
{
    if text_eq(mode, "interview") {
        (720, 190)
    } else {
        (440, 520)
    }
}

/// The shortcut actions the frontend knows how to perform.
pub open spec fn known_action(a: Seq<char>) -> bool {
    a == "toggle_overlay"@ || a == "start_stop"@ || a == "swap_direction"@ || a
        == "pause_resume"@ || a == "clear_history"@
}

/// Whether a shortcut action name is one of the known actions.
pub fn is_known_action(action: &str) -> (r: bool)
    ensures
        r == known_action(action@),
{
    text_eq(action, "toggle_overlay") || text_eq(action, "start_stop") || text_eq(
        action,
        "swap_direction",
    ) || text_eq(action, "pause_resume") || text_eq(action, "clear_history")
}

} // verus!
