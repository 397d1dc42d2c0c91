//! Event payloads sent to the frontend, pipeline states, and the clock.

use std::time::{Duration, SystemTime, SystemTimeError};

use vstd::prelude::*;

use crate::state::Source;

verus! {

#[verifier::external_type_specification]
#[verifier::external_body]
pub struct ExSystemTime(SystemTime);

#[verifier::external_type_specification]
#[verifier::external_body]
pub struct ExSystemTimeError(SystemTimeError);

/// `SystemTime::now`: the current wall-clock time; nothing is promised of it.
#[verifier::external_body]
fn system_time_now() -> SystemTime {
    SystemTime::now()
}

/// `SystemTime::duration_since(UNIX_EPOCH)`: the time elapsed since the Unix
/// epoch, or an error when the clock is set before it.
#[verifier::external_body]
fn since_unix_epoch(t: SystemTime) -> Result<Duration, SystemTimeError> {
    t.duration_since(std::time::UNIX_EPOCH)
}

/// `Duration::as_millis`: the whole milliseconds of a duration; this
/// library states nothing of the value.
#[verifier::external_body]
fn duration_millis(d: &Duration) -> u128 {
    d.as_millis()
}

/// `Duration::subsec_nanos`: the fractional part in nanoseconds, which the
/// documentation bounds below one billion.
#[verifier::external_body]
fn duration_subsec_nanos(d: &Duration) -> (n: u32)
    ensures
        n < 1_000_000_000,
{
    d.subsec_nanos()
}

/// The duration of `us` microseconds.
pub uninterp spec fn duration_of_micros(us: u64) -> Duration;

/// `Duration::from_micros`.
#[verifier::external_body]
pub(crate) fn duration_from_micros(us: u64) -> (d: Duration)
    ensures
        d == duration_of_micros(us),
{
    Duration::from_micros(us)
}

/// The timestamp [`millis_or_zero`] gives for a clock reading.
pub open spec fn millis_or_zero_spec(since: Option<u128>) -> u64 {
    match since {
        Some(ms) => ms as u64,
        None => 0u64,
    }
}

/// A timestamp in milliseconds from the clock's reading: the whole
/// milliseconds since the Unix epoch (`since`), truncated to 64 bits, or 0
/// when the clock reads before the epoch (`None`).
pub fn millis_or_zero(since: Option<u128>) -> (r: u64)
    ensures
        r == millis_or_zero_spec(since),
{
    match since {
        Some(ms) => ms as u64,
        None => 0,
    }
}

/// Milliseconds since the Unix epoch, or 0 when the clock reads earlier.
/// The clock's reading is outside the library: the result is
/// [`millis_or_zero`] of whatever it read.
pub fn now_ms() -> u64 {
    let t = system_time_now();
    let since = match since_unix_epoch(t) {
        Ok(d) => Some(duration_millis(&d)),
        Err(_) => None,
    };
    millis_or_zero(since)
}

/// The sub-second nanoseconds of the wall clock (0 when it reads before the
/// epoch): a cheap source of jitter.
pub fn clock_subsec_nanos() -> (n: u32)
    ensures
        n < 1_000_000_000,
{
    let t = system_time_now();
    match since_unix_epoch(t) {
        Ok(d) => duration_subsec_nanos(&d),
        Err(_) => 0,
    }
}

/// What a per-source pipeline is doing.
#[derive(Clone, Copy, Debug, PartialEq, Eq, Structural)]
pub enum PipelineState {
    Idle,
    Starting,
    Listening,
    Speech,
    Paused,
    Reconnecting,
    Error,
}

impl PipelineState {
    /// The lowercase name the frontend receives.
    pub fn name(&self) -> (r: &'static str)
        ensures
            r@ == pipeline_state_name(*self),
    {
        match self {
            PipelineState::Idle => "idle",
            PipelineState::Starting => "starting",
            PipelineState::Listening => "listening",
            PipelineState::Speech => "speech",
            PipelineState::Paused => "paused",
            PipelineState::Reconnecting => "reconnecting",
            PipelineState::Error => "error",
        }
    }

    /// The state reported when a pipeline is paused or resumed.
    pub fn after_pause(paused: bool) -> (r: PipelineState)
        ensures
            r == (if paused {
                PipelineState::Paused
            } else {
                PipelineState::Listening
            }),
    {
        if paused {
            PipelineState::Paused
        } else {
            PipelineState::Listening
        }
    }
}

/// The lowercase name of a pipeline state.
pub open spec fn pipeline_state_name(s: PipelineState) -> Seq<char> {
    match s {
        PipelineState::Idle => "idle"@,
        PipelineState::Starting => "starting"@,
        PipelineState::Listening => "listening"@,
        PipelineState::Speech => "speech"@,
        PipelineState::Paused => "paused"@,
        PipelineState::Reconnecting => "reconnecting"@,
        PipelineState::Error => "error"@,
    }
}

/// A partial or final transcript of one segment.
#[derive(Debug)]
pub struct TranscriptPayload {
    pub source: Source,
    pub segment_id: String,
    pub text: String,
    pub ts: u64,
}

/// A streamed fragment of a translation.
#[derive(Debug)]
pub struct TranslationDeltaPayload {
    pub source: Source,
    pub segment_id: String,
    pub delta: String,
}

/// A finished translation.
#[derive(Debug)]
pub struct TranslationFinalPayload {
    pub source: Source,
    pub segment_id: String,
    pub text: String,
    pub target_lang: String,
}

/// A pipeline state change.
#[derive(Debug)]
pub struct PipelineStatusPayload {
    pub source: Source,
    pub state: PipelineState,
    pub detail: Option<String>,
}

/// An error shown to the user.
#[derive(Debug)]
pub struct AppErrorPayload {
    pub code: String,
    pub message: String,
    pub source: Option<Source>,
    pub recoverable: bool,
}

} // verus!
