//! Per-source pipeline configuration, capture-failure recovery, and the
//! registry of running pipelines.

use vstd::prelude::*;

use crate::error::AppError;
use crate::state::{source_name, LangPair, Source, TranslationStyle};
use crate::text::push_str;

verus! {

/// Sample rate of the payload sent for transcription.
pub const OPENAI_SAMPLE_RATE: u32 = 24_000;

/// Capture respawns before the pipeline gives up on a lost device.
pub const CAPTURE_RETRIES: u32 = 3;

/// Everything a per-source pipeline needs to run.
#[derive(Debug)]
pub struct PipelineConfig {
    pub source: Source,
    pub device_id: Option<String>,
    pub api_key: String,
    pub stt_model: String,
    pub translation_model: String,
    pub use_server_vad: bool,
    pub style: TranslationStyle,
}

/// What the frontend sends to start a pipeline.
#[derive(Debug)]
pub struct StartPipelineParams {
    pub source: Source,
    pub device_id: Option<String>,
    pub direction: LangPair,
    pub stt_model: String,
    pub translation_model: String,
    pub use_server_vad: bool,
    pub translation_style: TranslationStyle,
}

/// What to do after the capture device failed.
#[derive(Debug, PartialEq, Eq)]
pub enum CaptureDecision {
    /// Report the device as lost and stop the pipeline.
    GiveUp,
    /// Respawn capture on this device (`None`: the current default).
    Retry { device_id: Option<String> },
}

/// Counts capture failures of one pipeline.
pub struct CaptureRecovery {
    retries: u32,
}

/// The decision for the `n`-th capture failure (counting from 1).
pub open spec fn capture_decision_spec(n: nat, configured: Option<String>) -> Option<
    Option<Seq<char>>,
> {
    if n > CAPTURE_RETRIES {
        None
    } else if n == CAPTURE_RETRIES {
        Some(None)
    } else {
        Some(
            match configured {
                Some(d) => Some(d@),
                None => None,
            },
        )
    }
}

/// A decision as mathematical values: `None` gives up, `Some(device)`
/// retries on the device.
pub open spec fn capture_decision_view(d: CaptureDecision) -> Option<Option<Seq<char>>> {
    match d {
        CaptureDecision::GiveUp => None,
        CaptureDecision::Retry { device_id } => Some(
            match device_id {
                Some(x) => Some(x@),
                None => None,
            },
        ),
    }
}

impl CaptureRecovery {
    /// Capture failures so far.
    pub closed spec fn failures(&self) -> nat {
        self.retries as nat
    }

    pub fn new() -> (r: Self)
        ensures
            r.failures() == 0,
    {
        CaptureRecovery { retries: 0 }
    }

    /// Records a capture failure and decides: retry on the configured device,
    /// the last retry on the default device, then give up.
    pub fn on_capture_error(&mut self, configured: &Option<String>) -> (d: CaptureDecision)
        requires
            old(self).failures() <= CAPTURE_RETRIES,
        ensures
            final(self).failures() == old(self).failures() + 1,
            capture_decision_view(d) == capture_decision_spec(final(self).failures(), *configured),
    {
        self.retries = self.retries + 1;
        if self.retries > CAPTURE_RETRIES {
            CaptureDecision::GiveUp
        } else if self.retries == CAPTURE_RETRIES {
            CaptureDecision::Retry { device_id: None }
        } else {
            CaptureDecision::Retry { device_id: configured.clone() }
        }
    }
}

/// A pipeline survives at most `CAPTURE_RETRIES` device losses: the first
/// ones retry the configured device, the last retry uses the default
/// device, and the next loss gives up.
pub proof fn lemma_capture_retries_bounded(n: nat, configured: Option<String>)
    requires
        n >= 1,
    ensures
        n <= CAPTURE_RETRIES <==> capture_decision_spec(n, configured) is Some,
        n == CAPTURE_RETRIES ==> capture_decision_spec(n, configured) == Some(
            None::<Seq<char>>,
        ),
{
}

/// The running pipelines, at most one per source.
pub struct PipelineRegistry<H> {
    system: Option<H>,
    mic: Option<H>,
}

impl<H> PipelineRegistry<H> {
    spec fn slot(&self, s: Source) -> Option<H> {
        match s {
            Source::System => self.system,
            Source::Mic => self.mic,
        }
    }

    /// The handles of the running pipelines by source.
    pub closed spec fn handles(&self) -> Map<Source, H> {
        Map::new(|s: Source| self.slot(s) is Some, |s: Source| self.slot(s)->0)
    }

    pub fn new() -> (r: Self)
        ensures
            r.handles() == Map::<Source, H>::empty(),
    {
        let r = PipelineRegistry { system: None, mic: None };
        assert(r.handles() =~= Map::<Source, H>::empty());
        r
    }

    /// Whether a pipeline for `source` is running.
    pub fn contains(&self, source: Source) -> (b: bool)
        ensures
            b == self.handles().dom().contains(source),
    {
        match source {
            Source::System => self.system.is_some(),
            Source::Mic => self.mic.is_some(),
        }
    }

    /// Registers the handle of the pipeline of `source`.
    pub fn insert(&mut self, source: Source, handle: H)
        ensures
            final(self).handles() == old(self).handles().insert(source, handle),
    {
        match source {
            Source::System => {
                self.system = Some(handle);
            },
            Source::Mic => {
                self.mic = Some(handle);
            },
        }
        assert(self.handles() =~= old(self).handles().insert(source, handle));
    }

    /// Unregisters the pipeline of `source`, handing back its handle.
    pub fn remove(&mut self, source: Source) -> (r: Option<H>)
        ensures
            final(self).handles() == old(self).handles().remove(source),
            r == (if old(self).handles().dom().contains(source) {
                Some(old(self).handles()[source])
            } else {
                None
            }),
    {
        let r = match source {
            Source::System => self.system.take(),
            Source::Mic => self.mic.take(),
        };
        assert(self.handles() =~= old(self).handles().remove(source));
        r
    }

    /// The handle of the pipeline of `source`.
    pub fn get(&self, source: Source) -> (r: Option<&H>)
        ensures
            r == (if self.handles().dom().contains(source) {
                Some(&self.handles()[source])
            } else {
                None
            }),
    {
        match source {
            Source::System => self.system.as_ref(),
            Source::Mic => self.mic.as_ref(),
        }
    }
}

/// The detail of the error a command reports for a source whose pipeline is
/// not running: `"<source> pipeline is not running"`.
pub open spec fn not_running_detail(s: Source) -> Seq<char> {
    source_name(s) + " pipeline is not running"@
}

/// The running pipelines after a start of `s` with handle `h`: registered
/// unless one for `s` is already running.
pub open spec fn start_spec<H>(m: Map<Source, H>, s: Source, h: H) -> Map<Source, H> {
    if m.dom().contains(s) {
        m
    } else {
        m.insert(s, h)
    }
}

impl<H> PipelineRegistry<H> {
    /// Registers `handle` for `source` unless a pipeline for it is already
    /// running, in which case nothing changes (the handle is dropped).
    /// Returns whether it was registered.
    pub fn insert_if_absent(&mut self, source: Source, handle: H) -> (started: bool)
        ensures
            started == !old(self).handles().dom().contains(source),
            final(self).handles() == start_spec(old(self).handles(), source, handle),
    {
        if self.contains(source) {
            false
        } else {
            self.insert(source, handle);
            true
        }
    }

    /// The handle of the running pipeline of `source`, or the internal error
    /// a command on a source that is not running reports.
    pub fn running(&self, source: Source) -> (r: Result<&H, AppError>)
        ensures
            match r {
                Ok(h) => self.handles().dom().contains(source) && *h == self.handles()[source],
                Err(e) => !self.handles().dom().contains(source) && (e matches AppError::Internal(
                    d,
                ) && d@ == not_running_detail(source)),
            },
    {
        match self.get(source) {
            Some(h) => Ok(h),
            None => {
                let mut d = source.to_text();
                push_str(&mut d, " pipeline is not running");
                Err(AppError::Internal(d))
            },
        }
    }
}

/// Starting a pipeline for a source that is already running changes nothing:
/// after a start, a second start of the same source keeps the first handle,
/// and the other source is unaffected by either.
pub proof fn lemma_start_twice_keeps_first<H>(
    m: Map<Source, H>,
    s: Source,
    other: Source,
    first: H,
    second: H,
)
    requires
        other != s,
    ensures
        start_spec(start_spec(m, s, first), s, second) == start_spec(m, s, first),
        start_spec(m, s, first).dom().contains(s),
        !m.dom().contains(s) ==> start_spec(m, s, first)[s] == first,
        start_spec(start_spec(m, s, first), s, second).dom().contains(other) == m.dom().contains(
            other,
        ),
{
}

/// Registering a pipeline and then looking its source up finds it; removing
/// it hands the same handle back and leaves the other source untouched.
pub proof fn lemma_registry_roundtrip<H>(m: Map<Source, H>, s: Source, other: Source, h: H)
    requires
        other != s,
    ensures
        m.insert(s, h).dom().contains(s),
        m.insert(s, h)[s] == h,
        !m.insert(s, h).remove(s).dom().contains(s),
        m.insert(s, h).remove(s).dom().contains(other) == m.dom().contains(other),
{
}

} // verus!
