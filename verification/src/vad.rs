//! Voice-activity filter.
//!
//! A speech detector classifies 512-sample windows of 16 kHz audio (32 ms);
//! the filter decides which of the matching 768-sample windows of 24 kHz PCM16
//! audio are worth sending for transcription. Silence never leaves the
//! machine. A pre-roll ring keeps the ~400 ms before speech onset so word
//! beginnings are not clipped, and a hangover keeps sending through short
//! pauses. Segments are force-split after ~25 s.

use std::collections::VecDeque;

use vstd::prelude::*;

use crate::state::{source_name, Source};
use crate::text::{decimal, lemma_decimal_injective, push_decimal, push_str};

verus! {

/// Sample rate of the detector branch.
pub const VAD_SAMPLE_RATE: u32 = 16_000;

/// Samples per detector window at 16 kHz (32 ms).
pub const VAD_WINDOW_16K: usize = 512;

/// Samples per payload window at 24 kHz (the same 32 ms).
pub const WINDOW_24K: usize = 768;

/// Consecutive speech windows needed to open the filter (~96 ms).
pub const ONSET_WINDOWS: u32 = 3;

/// Consecutive silent windows that close the filter (~700 ms).
pub const HANGOVER_WINDOWS: u32 = 22;

/// Pre-roll kept while idle: 400 ms at 24 kHz.
pub const PREROLL_SAMPLES_24K: usize = 9_600;

/// Payload flush threshold during speech: 100 ms at 24 kHz.
pub const EMIT_EVERY_24K: usize = 2_400;

/// Windows after which a segment is force-split (25 s of 32 ms windows).
pub const MAX_SEGMENT_WINDOWS: u32 = 781;

/// What a detector says about one window.
///
/// `Speech` is a speech probability above the onset threshold (0.5),
/// `Silence` one below the hangover threshold (0.35), `Uncertain` anything
/// in between.
#[derive(Clone, Copy, Debug, PartialEq, Eq, Structural)]
pub enum VoiceActivity {
    Speech,
    Uncertain,
    Silence,
}

/// A speech detector over windows of `S` samples.
pub trait VadEngine<S> {
    /// Classifies one 512-sample 16 kHz window.
    fn classify(&mut self, window: &[S]) -> VoiceActivity;
}

/// What the filter emits.
#[derive(Debug, PartialEq)]
pub enum SegmentEvent {
    /// A new speech segment begins.
    Start { id: String },
    /// 24 kHz mono PCM16 payload belonging to a segment.
    Audio { id: String, pcm: Vec<i16> },
    /// The segment is over.
    End { id: String },
}

/// A segment event as mathematical values.
pub enum SegmentEventView {
    Start(Seq<char>),
    Audio(Seq<char>, Seq<i16>),
    End(Seq<char>),
}

impl View for SegmentEvent {
    type V = SegmentEventView;

    open spec fn view(&self) -> SegmentEventView {
        match self {
            SegmentEvent::Start { id } => SegmentEventView::Start(id@),
            SegmentEvent::Audio { id, pcm } => SegmentEventView::Audio(id@, pcm@),
            SegmentEvent::End { id } => SegmentEventView::End(id@),
        }
    }
}

/// The views of a sequence of events.
pub open spec fn events_view(v: Seq<SegmentEvent>) -> Seq<SegmentEventView> {
    v.map_values(|e: SegmentEvent| e@)
}

/// Whether the filter is waiting for speech or inside a segment.
#[derive(Clone, Copy, Debug, PartialEq, Eq, Structural)]
pub enum GateState {
    Idle,
    Speech,
}

/// The filter's decision state as mathematical values.
#[verifier::ext_equal]
pub struct GateModel {
    pub state: GateState,
    pub preroll: Seq<i16>,
    pub pending: Seq<i16>,
    pub consec_speech: nat,
    pub consec_silence: nat,
    pub windows_in_segment: nat,
    pub seg_seq: nat,
    pub current_id: Seq<char>,
}

/// The id of the `n`-th segment of a source: `"<source>-seg-<n>"`.
pub open spec fn segment_id_for(source: Source, n: nat) -> Seq<char> {
    source_name(source) + "-seg-"@ + decimal(n)
}

/// The last `cap` elements of `s` (all of `s` when it is shorter).
pub open spec fn keep_last(s: Seq<i16>, cap: nat) -> Seq<i16> {
    if s.len() <= cap {
        s
    } else {
        s.skip(s.len() - cap)
    }
}

/// The invariant of the filter's decision state.
pub open spec fn model_wf(m: GateModel, source: Source) -> bool {
    &&& m.preroll.len() <= PREROLL_SAMPLES_24K
    &&& match m.state {
        GateState::Idle => m.consec_speech < ONSET_WINDOWS && m.pending.len() == 0,
        GateState::Speech => {
            &&& m.consec_speech == 0
            &&& m.consec_silence < HANGOVER_WINDOWS
            &&& m.windows_in_segment < MAX_SEGMENT_WINDOWS
            &&& m.pending.len() < EMIT_EVERY_24K
            &&& m.preroll.len() == 0
            &&& m.seg_seq >= 1
            &&& m.current_id == segment_id_for(source, m.seg_seq)
        },
    }
}

/// The filter's decision for one window: new state and emitted events.
pub open spec fn step_spec(m: GateModel, source: Source, act: VoiceActivity, w: Seq<i16>) -> (
    GateModel,
    Seq<SegmentEventView>,
) {
    match m.state {
        GateState::Idle => {
            let pre = keep_last(m.preroll + w, PREROLL_SAMPLES_24K as nat);
            let cs: nat = if act == VoiceActivity::Speech {
                m.consec_speech + 1
            } else {
                0
            };
            if cs >= ONSET_WINDOWS {
                let n = m.seg_seq + 1;
                let id = segment_id_for(source, n);
                (
                    GateModel {
                        state: GateState::Speech,
                        preroll: Seq::empty(),
                        pending: m.pending,
                        consec_speech: 0,
                        consec_silence: 0,
                        windows_in_segment: 0,
                        seg_seq: n,
                        current_id: id,
                    },
                    seq![SegmentEventView::Start(id), SegmentEventView::Audio(id, pre)],
                )
            } else {
                (
                    GateModel {
                        state: m.state,
                        preroll: pre,
                        pending: m.pending,
                        consec_speech: cs,
                        consec_silence: m.consec_silence,
                        windows_in_segment: m.windows_in_segment,
                        seg_seq: m.seg_seq,
                        current_id: m.current_id,
                    },
                    Seq::empty(),
                )
            }
        },
        GateState::Speech => {
            let id = m.current_id;
            let pending1 = m.pending + w;
            let wis = m.windows_in_segment + 1;
            let csil: nat = if act == VoiceActivity::Silence {
                m.consec_silence + 1
            } else {
                0
            };
            let flush = pending1.len() >= EMIT_EVERY_24K;
            let ev1 = if flush {
                seq![SegmentEventView::Audio(id, pending1)]
            } else {
                Seq::empty()
            };
            let pending2 = if flush {
                Seq::empty()
            } else {
                pending1
            };
            if csil >= HANGOVER_WINDOWS || wis >= MAX_SEGMENT_WINDOWS {
                let ev2 = if pending2.len() > 0 {
                    seq![SegmentEventView::Audio(id, pending2)]
                } else {
                    Seq::empty()
                };
                (
                    GateModel {
                        state: GateState::Idle,
                        preroll: Seq::empty(),
                        pending: Seq::empty(),
                        consec_speech: 0,
                        consec_silence: 0,
                        windows_in_segment: wis,
                        seg_seq: m.seg_seq,
                        current_id: id,
                    },
                    ev1 + ev2 + seq![SegmentEventView::End(id)],
                )
            } else {
                (
                    GateModel {
                        state: m.state,
                        preroll: m.preroll,
                        pending: pending2,
                        consec_speech: m.consec_speech,
                        consec_silence: csil,
                        windows_in_segment: wis,
                        seg_seq: m.seg_seq,
                        current_id: id,
                    },
                    ev1,
                )
            }
        },
    }
}

/// The filter's decisions over a sequence of windows, in order.
pub open spec fn run_spec(
    m: GateModel,
    source: Source,
    acts: Seq<VoiceActivity>,
    ws: Seq<Seq<i16>>,
) -> (GateModel, Seq<SegmentEventView>)
    decreases acts.len(),
{
    if acts.len() == 0 || ws.len() == 0 {
        (m, Seq::empty())
    } else {
        let (m1, e1) = run_spec(m, source, acts.drop_last(), ws.drop_last());
        let (m2, e2) = step_spec(m1, source, acts.last(), ws.last());
        (m2, e1 + e2)
    }
}

/// The first `k` consecutive windows of `len` samples of `s`.
pub open spec fn windows_of<T>(s: Seq<T>, len: nat, k: nat) -> Seq<Seq<T>> {
    Seq::new(k, |i: int| s.subrange(i * len, (i + 1) * len))
}

fn append_copies<T: Copy>(v: &mut Vec<T>, s: &[T])
    ensures
        final(v)@ == old(v)@ + s@,
{
    let mut i: usize = 0;
    while i < s.len()
        invariant
            i <= s.len(),
            v@ == old(v)@ + s@.take(i as int),
        decreases s.len() - i,
    {
        v.push(s[i]);
        i = i + 1;
        assert(s@.take(i as int) == s@.take(i - 1).push(s@[i - 1]));
    }
    assert(s@.take(s.len() as int) == s@);
}

fn copy_range<T: Copy>(v: &Vec<T>, lo: usize, hi: usize) -> (r: Vec<T>)
    requires
        lo <= hi <= v.len(),
    ensures
        r@ == v@.subrange(lo as int, hi as int),
{
    let mut r: Vec<T> = Vec::new();
    let mut i = lo;
    while i < hi
        invariant
            lo <= i <= hi <= v.len(),
            r@ == v@.subrange(lo as int, i as int),
        decreases hi - i,
    {
        r.push(v[i]);
        i = i + 1;
    }
    r
}

/// Voice-activity filter over a detector `E` of sample type `S`.
pub struct VadGate<S, E> {
    engine: E,
    source: Source,
    state: GateState,
    buf16: Vec<S>,
    buf24: Vec<i16>,
    preroll: VecDeque<i16>,
    pending: Vec<i16>,
    consec_speech: u32,
    consec_silence: u32,
    windows_in_segment: u32,
    seg_seq: u64,
    current_id: String,
    log: Ghost<Seq<(Seq<S>, VoiceActivity)>>,
}

impl<S, E> VadGate<S, E> {
    /// The filter's decision state.
    pub closed spec fn model(&self) -> GateModel {
        GateModel {
            state: self.state,
            preroll: self.preroll@,
            pending: self.pending@,
            consec_speech: self.consec_speech as nat,
            consec_silence: self.consec_silence as nat,
            windows_in_segment: self.windows_in_segment as nat,
            seg_seq: self.seg_seq as nat,
            current_id: self.current_id@,
        }
    }

    /// The source whose segments this filter numbers.
    pub closed spec fn source_of(&self) -> Source {
        self.source
    }

    /// 16 kHz samples waiting for a complete window.
    pub closed spec fn buffered_16k(&self) -> Seq<S> {
        self.buf16@
    }

    /// 24 kHz samples waiting for a complete window.
    pub closed spec fn buffered_24k(&self) -> Seq<i16> {
        self.buf24@
    }

    /// Every 16 kHz window handed to the detector so far, with its answer,
    /// in order.
    pub closed spec fn detector_log(&self) -> Seq<(Seq<S>, VoiceActivity)> {
        self.log@
    }

    /// The filter's invariant.
    pub closed spec fn wf(&self) -> bool {
        model_wf(self.model(), self.source)
    }

    /// A fresh, idle filter for `source`.
    pub fn new(engine: E, source: Source) -> (g: Self)
        ensures
            g.wf(),
            g.source_of() == source,
            g.buffered_16k().len() == 0,
            g.buffered_24k().len() == 0,
            g.model().state == GateState::Idle,
            g.model().preroll.len() == 0,
            g.model().consec_speech == 0,
            g.model().consec_silence == 0,
            g.model().seg_seq == 0,
            g.detector_log() == Seq::<(Seq<S>, VoiceActivity)>::empty(),
    {
        VadGate {
            engine,
            source,
            state: GateState::Idle,
            buf16: Vec::new(),
            buf24: Vec::new(),
            preroll: VecDeque::with_capacity(PREROLL_SAMPLES_24K),
            pending: Vec::new(),
            consec_speech: 0,
            consec_silence: 0,
            windows_in_segment: 0,
            seg_seq: 0,
            current_id: String::new(),
            log: Ghost(Seq::empty()),
        }
    }

    fn take_pending(&mut self) -> (r: Vec<i16>)
        ensures
            r@ == old(self).pending@,
            final(self).pending@.len() == 0,
            final(self).engine == old(self).engine,
            final(self).source == old(self).source,
            final(self).state == old(self).state,
            final(self).buf16 == old(self).buf16,
            final(self).buf24 == old(self).buf24,
            final(self).preroll == old(self).preroll,
            final(self).consec_speech == old(self).consec_speech,
            final(self).consec_silence == old(self).consec_silence,
            final(self).windows_in_segment == old(self).windows_in_segment,
            final(self).seg_seq == old(self).seg_seq,
            final(self).current_id == old(self).current_id,
            final(self).log == old(self).log,
    {
        let mut r: Vec<i16> = Vec::new();
        std::mem::swap(&mut r, &mut self.pending);
        r
    }

    fn drain_preroll(&mut self) -> (r: Vec<i16>)
        ensures
            r@ == old(self).preroll@,
            final(self).preroll@.len() == 0,
            final(self).engine == old(self).engine,
            final(self).source == old(self).source,
            final(self).state == old(self).state,
            final(self).buf16 == old(self).buf16,
            final(self).buf24 == old(self).buf24,
            final(self).pending == old(self).pending,
            final(self).consec_speech == old(self).consec_speech,
            final(self).consec_silence == old(self).consec_silence,
            final(self).windows_in_segment == old(self).windows_in_segment,
            final(self).seg_seq == old(self).seg_seq,
            final(self).current_id == old(self).current_id,
            final(self).log == old(self).log,
    {
        let mut r: Vec<i16> = Vec::new();
        let n = self.preroll.len();
        let mut i: usize = 0;
        while i < n
            invariant
                n == self.preroll@.len(),
                i <= n,
                r@ == self.preroll@.take(i as int),
                self.preroll == old(self).preroll,
            decreases n - i,
        {
            r.push(self.preroll[i]);
            i = i + 1;
            assert(self.preroll@.take(i as int) == self.preroll@.take(i - 1).push(
                self.preroll@[i - 1],
            ));
        }
        assert(self.preroll@.take(n as int) == self.preroll@);
        self.preroll.clear();
        r
    }

    proof fn lemma_keep_last_push(s: Seq<i16>, x: i16, cap: nat)
        requires
            s.len() <= cap,
            cap > 0,
        ensures
            keep_last(s + seq![x], cap) == if s.len() == cap {
                s.subrange(1, s.len() as int).push(x)
            } else {
                s.push(x)
            },
    {
        if s.len() == cap {
            assert(keep_last(s + seq![x], cap) =~= s.subrange(1, s.len() as int).push(x));
        } else {
            assert(s + seq![x] =~= s.push(x));
        }
    }

    /// Feeds one 24 kHz window into the pre-roll ring, evicting the oldest
    /// samples beyond its capacity.
    fn fill_preroll(&mut self, w24: &[i16])
        requires
            old(self).preroll@.len() <= PREROLL_SAMPLES_24K,
        ensures
            final(self).preroll@ == keep_last(
                old(self).preroll@ + w24@,
                PREROLL_SAMPLES_24K as nat,
            ),
            final(self).engine == old(self).engine,
            final(self).source == old(self).source,
            final(self).state == old(self).state,
            final(self).buf16 == old(self).buf16,
            final(self).buf24 == old(self).buf24,
            final(self).pending == old(self).pending,
            final(self).consec_speech == old(self).consec_speech,
            final(self).consec_silence == old(self).consec_silence,
            final(self).windows_in_segment == old(self).windows_in_segment,
            final(self).seg_seq == old(self).seg_seq,
            final(self).current_id == old(self).current_id,
            final(self).log == old(self).log,
    {
        let ghost cap = PREROLL_SAMPLES_24K as nat;
        let ghost p0 = old(self).preroll@;
        let mut i: usize = 0;
        while i < w24.len()
            invariant
                i <= w24.len(),
                self.preroll@ == keep_last(p0 + w24@.take(i as int), cap),
                self.preroll@.len() <= cap,
                cap == PREROLL_SAMPLES_24K,
                self.engine == old(self).engine,
                self.source == old(self).source,
                self.state == old(self).state,
                self.buf16 == old(self).buf16,
                self.buf24 == old(self).buf24,
                self.pending == old(self).pending,
                self.consec_speech == old(self).consec_speech,
                self.consec_silence == old(self).consec_silence,
                self.windows_in_segment == old(self).windows_in_segment,
                self.seg_seq == old(self).seg_seq,
                self.current_id == old(self).current_id,
                self.log == old(self).log,
            decreases w24.len() - i,
        {
            let ghost before = self.preroll@;
            let s = w24[i];
            if self.preroll.len() == PREROLL_SAMPLES_24K {
                self.preroll.pop_front();
            }
            self.preroll.push_back(s);
            proof {
                Self::lemma_keep_last_push(before, s, cap);
                let a = p0 + w24@.take(i as int);
                let b = p0 + w24@.take(i + 1);
                assert(b =~= a.push(s));
                if a.len() <= cap {
                    assert(before == a);
                    assert(before + seq![s] =~= b);
                } else {
                    assert(before =~= a.skip(a.len() - cap));
                    assert(keep_last(b, cap) =~= keep_last(before + seq![s], cap));
                }
            }
            i = i + 1;
        }
        assert(w24@.take(w24.len() as int) == w24@);
    }

    /// Appends the segment id for sequence number `n` to a fresh string.
    fn make_id(source: Source, n: u64) -> (id: String)
        ensures
            id@ == segment_id_for(source, n as nat),
    {
        let mut id = source.to_text();
        push_str(&mut id, "-seg-");
        push_decimal(&mut id, n);
        id
    }

    /// One window's decision: the detector said `act` about the 16 kHz
    /// window matching the 24 kHz window `w24`.
    pub fn step(&mut self, act: VoiceActivity, w24: &[i16]) -> (events: Vec<SegmentEvent>)
        requires
            old(self).wf(),
            old(self).model().seg_seq < u64::MAX,
        ensures
            final(self).wf(),
            final(self).source_of() == old(self).source_of(),
            final(self).buffered_16k() == old(self).buffered_16k(),
            final(self).buffered_24k() == old(self).buffered_24k(),
            final(self).detector_log() == old(self).detector_log(),
            (final(self).model(), events_view(events@)) == step_spec(
                old(self).model(),
                old(self).source_of(),
                act,
                w24@,
            ),
    {
        let mut events: Vec<SegmentEvent> = Vec::new();
        let ghost m0 = old(self).model();
        match self.state {
            GateState::Idle => {
                self.fill_preroll(w24);
                if act == VoiceActivity::Speech {
                    self.consec_speech = self.consec_speech + 1;
                } else {
                    self.consec_speech = 0;
                }
                if self.consec_speech >= ONSET_WINDOWS {
                    self.seg_seq = self.seg_seq + 1;
                    self.current_id = Self::make_id(self.source, self.seg_seq);
                    self.state = GateState::Speech;
                    self.consec_speech = 0;
                    self.consec_silence = 0;
                    self.windows_in_segment = 0;
                    events.push(SegmentEvent::Start { id: self.current_id.clone() });
                    let pcm = self.drain_preroll();
                    events.push(SegmentEvent::Audio { id: self.current_id.clone(), pcm });
                    proof {
                        let (m1, e1) = step_spec(m0, self.source, act, w24@);
                        assert(events_view(events@) =~= e1);
                        assert(self.preroll@ =~= Seq::<i16>::empty());
                        assert(self.model() =~= m1);
                    }
                } else {
                    proof {
                        let (m1, e1) = step_spec(m0, self.source, act, w24@);
                        assert(events_view(events@) =~= e1);
                        assert(self.model() =~= m1);
                    }
                }
            },
            GateState::Speech => {
                append_copies(&mut self.pending, w24);
                self.windows_in_segment = self.windows_in_segment + 1;
                if act == VoiceActivity::Silence {
                    self.consec_silence = self.consec_silence + 1;
                } else {
                    self.consec_silence = 0;
                }
                let ghost pending1 = self.pending@;
                if self.pending.len() >= EMIT_EVERY_24K {
                    let pcm = self.take_pending();
                    events.push(SegmentEvent::Audio { id: self.current_id.clone(), pcm });
                }
                let ghost ev1 = events_view(events@);
                let hangover_done = self.consec_silence >= HANGOVER_WINDOWS;
                let force_split = self.windows_in_segment >= MAX_SEGMENT_WINDOWS;
                if hangover_done || force_split {
                    if self.pending.len() > 0 {
                        let pcm = self.take_pending();
                        events.push(SegmentEvent::Audio { id: self.current_id.clone(), pcm });
                    }
                    events.push(SegmentEvent::End { id: self.current_id.clone() });
                    self.state = GateState::Idle;
                    self.consec_speech = 0;
                    self.consec_silence = 0;
                    self.preroll.clear();
                    proof {
                        let (m1, e1) = step_spec(m0, self.source, act, w24@);
                        assert(self.preroll@ =~= Seq::<i16>::empty());
                        assert(self.pending@ =~= Seq::<i16>::empty());
                        assert(events_view(events@) =~= e1);
                        assert(self.model() =~= m1);
                    }
                } else {
                    proof {
                        let (m1, e1) = step_spec(m0, self.source, act, w24@);
                        assert(events_view(events@) =~= e1);
                        assert(self.model() =~= m1);
                    }
                }
            },
        }
        events
    }
}


/// Windows paired with the detector's answers on them, in order.
pub open spec fn classified<S>(ws: Seq<Seq<S>>, acts: Seq<VoiceActivity>) -> Seq<(Seq<S>, VoiceActivity)> {
    Seq::new(acts.len(), |i: int| (ws[i], acts[i]))
}

/// Number of complete window pairs available in buffers of the given lengths.
pub open spec fn windows_ready(len16: nat, len24: nat) -> nat {
    let a = len16 / (VAD_WINDOW_16K as nat);
    let b = len24 / (WINDOW_24K as nat);
    if a <= b {
        a
    } else {
        b
    }
}

proof fn lemma_window_bounds(i: nat, k: nat, w: nat, len: nat)
    requires
        i < k,
        w > 0,
        k <= len / w,
    ensures
        w * (i + 1) <= len,
        w * i <= len,
        w * i + w == w * (i + 1),
{
    assert(w * (i + 1) <= w * k) by (nonlinear_arith)
        requires
            i < k,
            w > 0,
    ;
    assert(w * k <= len) by (nonlinear_arith)
        requires
            k <= len / w,
            w > 0,
    ;
    assert(w * i + w == w * (i + 1)) by (nonlinear_arith);
    assert(w * i <= w * (i + 1)) by (nonlinear_arith)
        requires
            w > 0,
    ;
}

impl<S: Copy, E: VadEngine<S>> VadGate<S, E> {
    /// Feeds matching chunks of 16 kHz detector samples and 24 kHz PCM16
    /// payload samples; every complete pair of windows is classified by the
    /// detector and decided by [`VadGate::step`], in order. Returns the
    /// events that became ready; incomplete windows stay buffered. The
    /// detector is handed each complete 16 kHz window once, in order, and
    /// its answers are the decisions taken (recorded in
    /// [`VadGate::detector_log`]); what it answers is its own.
    pub fn push(&mut self, s16: &[S], s24: &[i16]) -> (events: Vec<SegmentEvent>)
        requires
            old(self).wf(),
            old(self).model().seg_seq + old(self).buffered_24k().len() + s24@.len() < u64::MAX,
        ensures
            final(self).wf(),
            final(self).source_of() == old(self).source_of(),
            ({
                let all16 = old(self).buffered_16k() + s16@;
                let all24 = old(self).buffered_24k() + s24@;
                let k = windows_ready(all16.len(), all24.len());
                &&& final(self).buffered_16k() == all16.skip(VAD_WINDOW_16K * k)
                &&& final(self).buffered_24k() == all24.skip(WINDOW_24K * k)
                &&& exists|acts: Seq<VoiceActivity>|
                    acts.len() == k && #[trigger] run_spec(
                        old(self).model(),
                        old(self).source_of(),
                        acts,
                        windows_of(all24, WINDOW_24K as nat, k),
                    ) == (final(self).model(), events_view(events@))
                        && final(self).detector_log() == old(self).detector_log() + classified(
                        windows_of(all16, VAD_WINDOW_16K as nat, k),
                        acts,
                    )
            }),
    {
        let ghost m0 = self.model();
        let ghost src = self.source;
        let ghost log0 = self.log@;
        append_copies(&mut self.buf16, s16);
        append_copies(&mut self.buf24, s24);
        let ghost all16 = self.buf16@;
        let ghost all24 = self.buf24@;
        let a = self.buf16.len() / VAD_WINDOW_16K;
        let b = self.buf24.len() / WINDOW_24K;
        let k = if a <= b {
            a
        } else {
            b
        };
        let mut events: Vec<SegmentEvent> = Vec::new();
        let ghost mut acts: Seq<VoiceActivity> = Seq::empty();
        let mut i: usize = 0;
        assert(events_view(events@) =~= Seq::<SegmentEventView>::empty());
        while i < k
            invariant
                i <= k,
                k == windows_ready(all16.len(), all24.len()),
                k <= all16.len() / (VAD_WINDOW_16K as nat),
                k <= all24.len() / (WINDOW_24K as nat),
                self.buf16@ == all16,
                self.buf24@ == all24,
                m0.seg_seq + all24.len() < u64::MAX,
                self.wf(),
                self.source == src,
                self.model().seg_seq <= m0.seg_seq + i,
                acts.len() == i,
                run_spec(m0, src, acts, windows_of(all24, WINDOW_24K as nat, i as nat)) == (
                    self.model(),
                    events_view(events@),
                ),
                self.log@ == log0 + classified(windows_of(all16, VAD_WINDOW_16K as nat, i as nat), acts),
            decreases k - i,
        {
            proof {
                lemma_window_bounds(i as nat, k as nat, VAD_WINDOW_16K as nat, all16.len());
                lemma_window_bounds(i as nat, k as nat, WINDOW_24K as nat, all24.len());
                assert(k <= all24.len()) by (nonlinear_arith)
                    requires
                        k <= all24.len() / (WINDOW_24K as nat),
                ;
                assert(all16.len() == self.buf16.len());
                assert(VAD_WINDOW_16K * (i + 1) <= self.buf16.len());
                assert(WINDOW_24K * (i + 1) <= self.buf24.len());
            }
            let w16 = copy_range(&self.buf16, VAD_WINDOW_16K * i, VAD_WINDOW_16K * (i + 1));
            let act = self.engine.classify(w16.as_slice());
            proof {
                self.log@ = self.log@.push((w16@, act));
            }
            let w24 = copy_range(&self.buf24, WINDOW_24K * i, WINDOW_24K * (i + 1));
            let ghost ev_before = events_view(events@);
            let mut ev = self.step(act, w24.as_slice());
            let ghost ev_step = events_view(ev@);
            events.append(&mut ev);
            proof {
                let ws0 = windows_of(all24, WINDOW_24K as nat, i as nat);
                let ws1 = windows_of(all24, WINDOW_24K as nat, (i + 1) as nat);
                let acts1 = acts.push(act);
                assert(acts1.drop_last() =~= acts);
                assert(ws1.drop_last() =~= ws0);
                assert(ws1.last() == w24@);
                let v0 = windows_of(all16, VAD_WINDOW_16K as nat, i as nat);
                let v1 = windows_of(all16, VAD_WINDOW_16K as nat, (i + 1) as nat);
                assert(v1[i as int] == w16@);
                assert(classified(v1, acts1) =~= classified(v0, acts).push((w16@, act)));
                assert(events_view(events@) =~= ev_before + ev_step);
                acts = acts1;
            }
            i = i + 1;
        }
        self.buf16 = copy_range(&self.buf16, VAD_WINDOW_16K * k, self.buf16.len());
        self.buf24 = copy_range(&self.buf24, WINDOW_24K * k, self.buf24.len());
        proof {
            assert(self.buf16@ =~= all16.skip(VAD_WINDOW_16K * k));
            assert(self.buf24@ =~= all24.skip(WINDOW_24K * k));
            assert(run_spec(m0, src, acts, windows_of(all24, WINDOW_24K as nat, k as nat)) == (
                self.model(),
                events_view(events@),
            ));
            assert(self.log@ == log0 + classified(
                windows_of(all16, VAD_WINDOW_16K as nat, k as nat),
                acts,
            ));
        }
        events
    }
}


impl<S, E> VadGate<S, E> {
    /// Whether [`VadGate::push`] may be given `n24` more payload samples:
    /// the segment counter cannot run out on them.
    pub fn can_accept(&self, n24: usize) -> (r: bool)
        ensures
            r == (self.model().seg_seq + self.buffered_24k().len() + n24 < u64::MAX),
    {
        let room = u64::MAX - self.seg_seq;
        (self.buf24.len() as u128) + (n24 as u128) < (room as u128)
    }
}

/// The ids of the `Start` events, in order.
pub open spec fn start_ids(evs: Seq<SegmentEventView>) -> Seq<Seq<char>>
    decreases evs.len(),
{
    if evs.len() == 0 {
        Seq::empty()
    } else {
        let rest = start_ids(evs.drop_last());
        match evs.last() {
            SegmentEventView::Start(id) => rest.push(id),
            _ => rest,
        }
    }
}

/// The payload samples of the `Audio` events, concatenated in order.
pub open spec fn audio_of(evs: Seq<SegmentEventView>) -> Seq<i16>
    decreases evs.len(),
{
    if evs.len() == 0 {
        Seq::empty()
    } else {
        let rest = audio_of(evs.drop_last());
        match evs.last() {
            SegmentEventView::Audio(_, pcm) => rest + pcm,
            _ => rest,
        }
    }
}

/// The id an event carries.
pub open spec fn event_id(e: SegmentEventView) -> Seq<char> {
    match e {
        SegmentEventView::Start(id) => id,
        SegmentEventView::Audio(id, _) => id,
        SegmentEventView::End(id) => id,
    }
}

/// The number of trailing `Speech` answers.
pub open spec fn trailing_speech(acts: Seq<VoiceActivity>) -> nat
    decreases acts.len(),
{
    if acts.len() > 0 && acts.last() == VoiceActivity::Speech {
        trailing_speech(acts.drop_last()) + 1
    } else {
        0
    }
}

/// Answers `i`, `i + 1` and `i + 2` are all `Speech`.
pub open spec fn speech_run_at(acts: Seq<VoiceActivity>, i: int) -> bool {
    acts[i] == VoiceActivity::Speech && acts[i + 1] == VoiceActivity::Speech && acts[i + 2]
        == VoiceActivity::Speech
}

/// No `ONSET_WINDOWS` consecutive answers are `Speech`.
pub open spec fn no_onset_run(acts: Seq<VoiceActivity>) -> bool {
    forall|i: int| 0 <= i && i + 2 < acts.len() ==> !#[trigger] speech_run_at(acts, i)
}

proof fn lemma_start_ids_concat(a: Seq<SegmentEventView>, b: Seq<SegmentEventView>)
    ensures
        start_ids(a + b) == start_ids(a) + start_ids(b),
    decreases b.len(),
{
    if b.len() == 0 {
        assert(a + b =~= a);
        assert(start_ids(a) + start_ids(b) =~= start_ids(a));
    } else {
        lemma_start_ids_concat(a, b.drop_last());
        assert((a + b).drop_last() =~= a + b.drop_last());
        assert((a + b).last() == b.last());
        match b.last() {
            SegmentEventView::Start(id) => {
                assert(start_ids(a) + start_ids(b) =~= (start_ids(a) + start_ids(
                    b.drop_last(),
                )).push(id));
            },
            _ => {},
        }
    }
}

proof fn lemma_no_onset_prefix(acts: Seq<VoiceActivity>)
    requires
        no_onset_run(acts),
        acts.len() > 0,
    ensures
        no_onset_run(acts.drop_last()),
{
    let d = acts.drop_last();
    assert forall|i: int| 0 <= i && i + 2 < d.len() implies !#[trigger] speech_run_at(d, i) by {
        assert(d[i] == acts[i]);
        assert(d[i + 1] == acts[i + 1]);
        assert(d[i + 2] == acts[i + 2]);
        assert(!speech_run_at(acts, i));
    }
}

proof fn lemma_trailing_speech_bound(acts: Seq<VoiceActivity>)
    requires
        no_onset_run(acts),
    ensures
        trailing_speech(acts) < ONSET_WINDOWS,
{
    if trailing_speech(acts) >= ONSET_WINDOWS {
        reveal_with_fuel(trailing_speech, 3);
        let n = acts.len() as int;
        let a1 = acts.drop_last();
        let a2 = a1.drop_last();
        assert(acts[n - 1] == VoiceActivity::Speech);
        assert(a1[n - 2] == VoiceActivity::Speech);
        assert(a2[n - 3] == VoiceActivity::Speech);
        assert(speech_run_at(acts, n - 3));
    }
}

/// While the detector never reports `ONSET_WINDOWS` consecutive speech
/// windows, an idle filter with no speech run in progress stays idle and
/// emits nothing: silence never leaves the machine.
pub proof fn lemma_no_onset_no_events(
    m: GateModel,
    source: Source,
    acts: Seq<VoiceActivity>,
    ws: Seq<Seq<i16>>,
)
    requires
        model_wf(m, source),
        m.state == GateState::Idle,
        m.consec_speech == 0,
        acts.len() == ws.len(),
        no_onset_run(acts),
    ensures
        run_spec(m, source, acts, ws).1.len() == 0,
        run_spec(m, source, acts, ws).0.state == GateState::Idle,
        run_spec(m, source, acts, ws).0.consec_speech == trailing_speech(acts),
        model_wf(run_spec(m, source, acts, ws).0, source),
    decreases acts.len(),
{
    lemma_trailing_speech_bound(acts);
    if acts.len() > 0 {
        lemma_no_onset_prefix(acts);
        lemma_no_onset_no_events(m, source, acts.drop_last(), ws.drop_last());
        lemma_keep_last_len(
            run_spec(m, source, acts.drop_last(), ws.drop_last()).0.preroll + ws.last(),
            PREROLL_SAMPLES_24K as nat,
        );
    }
}

proof fn lemma_keep_last_len(s: Seq<i16>, cap: nat)
    ensures
        keep_last(s, cap).len() <= cap,
{
}

proof fn lemma_keep_last_compose(a: Seq<i16>, b: Seq<i16>, cap: nat)
    ensures
        keep_last(keep_last(a, cap) + b, cap) == keep_last(a + b, cap),
{
    if a.len() > cap {
        let ka = a.skip(a.len() - cap);
        if b.len() == 0 {
            assert(ka + b =~= ka);
            assert(a + b =~= a);
        } else {
            assert((ka + b).skip(b.len() as int) =~= (a + b).skip(a.len() + b.len() - cap));
        }
    } else {
    }
}

/// While the filter stays idle, its pre-roll ring holds exactly the most
/// recent `PREROLL_SAMPLES_24K` samples (all of them, when fewer) of what it
/// held and was fed since: at onset the first payload is the ~400 ms of
/// audio leading up to it, so word beginnings are not clipped.
pub proof fn lemma_preroll_holds_recent_audio(
    m: GateModel,
    source: Source,
    acts: Seq<VoiceActivity>,
    ws: Seq<Seq<i16>>,
)
    requires
        model_wf(m, source),
        m.state == GateState::Idle,
        m.consec_speech == 0,
        acts.len() == ws.len(),
        no_onset_run(acts),
    ensures
        run_spec(m, source, acts, ws).0.preroll == keep_last(
            m.preroll + ws.flatten(),
            PREROLL_SAMPLES_24K as nat,
        ),
    decreases acts.len(),
{
    let cap = PREROLL_SAMPLES_24K as nat;
    ws.lemma_flatten_and_flatten_alt_are_equivalent();
    if acts.len() == 0 {
        assert(m.preroll + ws.flatten() =~= m.preroll);
    } else {
        let dw = ws.drop_last();
        lemma_no_onset_prefix(acts);
        lemma_preroll_holds_recent_audio(m, source, acts.drop_last(), dw);
        lemma_no_onset_no_events(m, source, acts, ws);
        lemma_no_onset_no_events(m, source, acts.drop_last(), dw);
        dw.lemma_flatten_and_flatten_alt_are_equivalent();
        let prev = run_spec(m, source, acts.drop_last(), dw).0;
        lemma_keep_last_compose(m.preroll + dw.flatten(), ws.last(), cap);
        assert(m.preroll + dw.flatten_alt() + ws.last() =~= m.preroll + ws.flatten_alt());
        assert(prev.preroll == keep_last(m.preroll + dw.flatten(), cap));
    }
}

proof fn lemma_audio_of_concat(a: Seq<SegmentEventView>, b: Seq<SegmentEventView>)
    ensures
        audio_of(a + b) == audio_of(a) + audio_of(b),
    decreases b.len(),
{
    if b.len() == 0 {
        assert(a + b =~= a);
        assert(audio_of(a) + audio_of(b) =~= audio_of(a));
    } else {
        lemma_audio_of_concat(a, b.drop_last());
        assert((a + b).drop_last() =~= a + b.drop_last());
        assert((a + b).last() == b.last());
        match b.last() {
            SegmentEventView::Audio(_, pcm) => {
                assert(audio_of(a) + audio_of(b) =~= (audio_of(a) + audio_of(b.drop_last())) + pcm);
            },
            _ => {},
        }
    }
}

proof fn lemma_seq_regroup(
    a: Seq<i16>,
    b: Seq<i16>,
    c: Seq<i16>,
    p: Seq<i16>,
    w: Seq<i16>,
    x: Seq<i16>,
    f: Seq<i16>,
)
    requires
        b + c == p + w,
        a + p == x + f,
    ensures
        (a + b) + c == x + (f + w),
{
    assert((a + b) + c =~= a + (b + c));
    assert(a + (p + w) =~= (a + p) + w);
    assert((x + f) + w =~= x + (f + w));
}

proof fn lemma_flatten_last(ws: Seq<Seq<i16>>)
    requires
        ws.len() > 0,
    ensures
        ws.flatten() == ws.drop_last().flatten() + ws.last(),
{
    ws.lemma_flatten_and_flatten_alt_are_equivalent();
    ws.drop_last().lemma_flatten_and_flatten_alt_are_equivalent();
}

/// The run over the first `k + 1` windows is the run over the first `k`
/// followed by one decision.
proof fn lemma_run_prefix_step(
    m: GateModel,
    source: Source,
    acts: Seq<VoiceActivity>,
    ws: Seq<Seq<i16>>,
    k: int,
)
    requires
        0 <= k < acts.len(),
        acts.len() == ws.len(),
    ensures
        ({
            let (m1, e1) = run_spec(m, source, acts.take(k), ws.take(k));
            let (m2, e2) = step_spec(m1, source, acts[k], ws[k]);
            run_spec(m, source, acts.take(k + 1), ws.take(k + 1)) == (m2, e1 + e2)
        }),
{
    assert(acts.take(k + 1).drop_last() =~= acts.take(k));
    assert(ws.take(k + 1).drop_last() =~= ws.take(k));
    assert(acts.take(k + 1).last() == acts[k]);
    assert(ws.take(k + 1).last() == ws[k]);
}

/// The filter's state after the first `i` windows.
pub open spec fn state_after(
    m: GateModel,
    source: Source,
    acts: Seq<VoiceActivity>,
    ws: Seq<Seq<i16>>,
    i: int,
) -> GateState {
    run_spec(m, source, acts.take(i), ws.take(i)).0.state
}

proof fn lemma_idle_prefix(
    m: GateModel,
    source: Source,
    acts: Seq<VoiceActivity>,
    ws: Seq<Seq<i16>>,
    k: int,
)
    requires
        model_wf(m, source),
        m.state == GateState::Idle,
        acts.len() == ws.len(),
        0 <= k <= acts.len(),
        forall|i: int| 0 <= i <= k ==> #[trigger] state_after(m, source, acts, ws, i) == GateState::Idle,
    ensures
        ({
            let (mk, ek) = run_spec(m, source, acts.take(k), ws.take(k));
            &&& ek.len() == 0
            &&& mk.state == GateState::Idle
            &&& mk.preroll == keep_last(m.preroll + ws.take(k).flatten(), PREROLL_SAMPLES_24K as nat)
            &&& mk.seg_seq == m.seg_seq
            &&& model_wf(mk, source)
        }),
    decreases k,
{
    let cap = PREROLL_SAMPLES_24K as nat;
    if k == 0 {
        assert(acts.take(0) =~= Seq::<VoiceActivity>::empty());
        assert(ws.take(0) =~= Seq::<Seq<i16>>::empty());
        assert(m.preroll + ws.take(0).flatten() =~= m.preroll);
    } else {
        lemma_idle_prefix(m, source, acts, ws, k - 1);
        lemma_run_prefix_step(m, source, acts, ws, k - 1);
        assert(state_after(m, source, acts, ws, k - 1) == GateState::Idle);
        assert(state_after(m, source, acts, ws, k) == GateState::Idle);
        let prev = run_spec(m, source, acts.take(k - 1), ws.take(k - 1)).0;
        lemma_step_keeps_wf(prev, source, acts[k - 1], ws[k - 1]);
        lemma_keep_last_compose(m.preroll + ws.take(k - 1).flatten(), ws[k - 1], cap);
        lemma_flatten_last(ws.take(k));
        assert(ws.take(k).drop_last() =~= ws.take(k - 1));
        assert(m.preroll + ws.take(k - 1).flatten() + ws[k - 1] =~= m.preroll + ws.take(
            k,
        ).flatten());
    }
}

#[verifier::rlimit(40)]
proof fn lemma_segment_prefix(
    m: GateModel,
    source: Source,
    acts: Seq<VoiceActivity>,
    ws: Seq<Seq<i16>>,
    j: int,
    k: int,
)
    requires
        model_wf(m, source),
        m.state == GateState::Idle,
        acts.len() == ws.len(),
        0 <= j < k <= acts.len(),
        forall|i: int| 0 <= i <= j ==> #[trigger] state_after(m, source, acts, ws, i) == GateState::Idle,
        forall|i: int| j < i <= k ==> #[trigger] state_after(m, source, acts, ws, i) == GateState::Speech,
    ensures
        ({
            let (mk, ek) = run_spec(m, source, acts.take(k), ws.take(k));
            let id = segment_id_for(source, m.seg_seq + 1);
            &&& ek.len() >= 2
            &&& ek[0] == SegmentEventView::Start(id)
            &&& forall|i: int| 1 <= i < ek.len() ==> (#[trigger] ek[i]) is Audio
            &&& forall|i: int| 0 <= i < ek.len() ==> event_id(#[trigger] ek[i]) == id
            &&& audio_of(ek) + mk.pending == keep_last(
                m.preroll + ws.take(j + 1).flatten(),
                PREROLL_SAMPLES_24K as nat,
            ) + ws.subrange(j + 1, k).flatten()
            &&& mk.state == GateState::Speech
            &&& mk.current_id == id
            &&& mk.seg_seq == m.seg_seq + 1
            &&& model_wf(mk, source)
        }),
    decreases k,
{
    let cap = PREROLL_SAMPLES_24K as nat;
    let id = segment_id_for(source, m.seg_seq + 1);
    if k == j + 1 {
        lemma_idle_prefix(m, source, acts, ws, j);
        lemma_run_prefix_step(m, source, acts, ws, j);
        assert(state_after(m, source, acts, ws, k) == GateState::Speech);
        let prev = run_spec(m, source, acts.take(j), ws.take(j)).0;
        lemma_step_keeps_wf(prev, source, acts[j], ws[j]);
        let (mk, ek) = run_spec(m, source, acts.take(k), ws.take(k));
        let pre = keep_last(prev.preroll + ws[j], cap);
        assert(ek =~= seq![SegmentEventView::Start(id), SegmentEventView::Audio(id, pre)]);
        assert(audio_of(ek) =~= pre) by {
            reveal_with_fuel(audio_of, 3);
            assert(ek.drop_last().drop_last() =~= Seq::<SegmentEventView>::empty());
        }
        lemma_keep_last_compose(m.preroll + ws.take(j).flatten(), ws[j], cap);
        lemma_flatten_last(ws.take(j + 1));
        assert(ws.take(j + 1).drop_last() =~= ws.take(j));
        assert(m.preroll + ws.take(j).flatten() + ws[j] =~= m.preroll + ws.take(j + 1).flatten());
        assert(ws.subrange(j + 1, k) =~= Seq::<Seq<i16>>::empty());
        assert(audio_of(ek) + mk.pending =~= pre + ws.subrange(j + 1, k).flatten());
    } else {
        lemma_segment_prefix(m, source, acts, ws, j, k - 1);
        lemma_run_prefix_step(m, source, acts, ws, k - 1);
        assert(state_after(m, source, acts, ws, k - 1) == GateState::Speech);
        assert(state_after(m, source, acts, ws, k) == GateState::Speech);
        let (prev, ep) = run_spec(m, source, acts.take(k - 1), ws.take(k - 1));
        let (m2, e2) = step_spec(prev, source, acts[k - 1], ws[k - 1]);
        lemma_step_keeps_wf(prev, source, acts[k - 1], ws[k - 1]);
        lemma_step_audio_conserved(prev, source, acts[k - 1], ws[k - 1]);
        lemma_audio_of_concat(ep, e2);
        let ek = ep + e2;
        assert forall|i: int| 1 <= i < ek.len() implies (#[trigger] ek[i]) is Audio by {
            if i >= ep.len() {
                assert(ek[i] == e2[i - ep.len()]);
            }
        }
        assert forall|i: int| 0 <= i < ek.len() implies event_id(#[trigger] ek[i]) == id by {
            if i >= ep.len() {
                assert(ek[i] == e2[i - ep.len()]);
            } else {
                assert(ek[i] == ep[i]);
            }
        }
        lemma_flatten_last(ws.subrange(j + 1, k));
        assert(ws.subrange(j + 1, k).drop_last() =~= ws.subrange(j + 1, k - 1));
        assert(ws.subrange(j + 1, k).last() == ws[k - 1]);
        let x = keep_last(m.preroll + ws.take(j + 1).flatten(), cap);
        lemma_seq_regroup(
            audio_of(ep),
            audio_of(e2),
            m2.pending,
            prev.pending,
            ws[k - 1],
            x,
            ws.subrange(j + 1, k - 1).flatten(),
        );
    }
}

/// A segment's audio is the pre-roll followed by every window decided in
/// speech, in order: from an idle filter, when windows `0..=j` leave it idle
/// except that window `j` opens a segment, and every later window keeps it
/// in speech until the last one closes it, the events are `Start`, payloads
/// and `End`, all with the id of the next segment, and the payloads,
/// concatenated, are the last `PREROLL_SAMPLES_24K` samples (all, when
/// fewer) of the pre-roll and the windows up to and including `j`, followed
/// by every window after `j`. No sample is lost, duplicated or reordered.
pub proof fn lemma_segment_audio(
    m: GateModel,
    source: Source,
    acts: Seq<VoiceActivity>,
    ws: Seq<Seq<i16>>,
    j: int,
)
    requires
        model_wf(m, source),
        m.state == GateState::Idle,
        acts.len() == ws.len(),
        0 <= j && j + 1 < acts.len(),
        forall|i: int| 0 <= i <= j ==> #[trigger] state_after(m, source, acts, ws, i) == GateState::Idle,
        forall|i: int|
            j < i < acts.len() ==> #[trigger] state_after(m, source, acts, ws, i) == GateState::Speech,
        run_spec(m, source, acts, ws).0.state == GateState::Idle,
    ensures
        ({
            let (mf, evs) = run_spec(m, source, acts, ws);
            let id = segment_id_for(source, m.seg_seq + 1);
            &&& evs.len() >= 3
            &&& evs[0] == SegmentEventView::Start(id)
            &&& evs.last() == SegmentEventView::End(id)
            &&& forall|i: int| 0 < i < evs.len() - 1 ==> (#[trigger] evs[i]) is Audio
            &&& forall|i: int| 0 <= i < evs.len() ==> event_id(#[trigger] evs[i]) == id
            &&& audio_of(evs) == keep_last(
                m.preroll + ws.take(j + 1).flatten(),
                PREROLL_SAMPLES_24K as nat,
            ) + ws.skip(j + 1).flatten()
            &&& mf.seg_seq == m.seg_seq + 1
            &&& mf.preroll.len() == 0
            &&& mf.pending.len() == 0
        }),
{
    let cap = PREROLL_SAMPLES_24K as nat;
    let n = acts.len() as int;
    let id = segment_id_for(source, m.seg_seq + 1);
    assert forall|i: int| j < i <= n - 1 implies #[trigger] state_after(m, source, acts, ws, i)
        == GateState::Speech by {}
    lemma_segment_prefix(m, source, acts, ws, j, n - 1);
    lemma_run_prefix_step(m, source, acts, ws, n - 1);
    assert(acts.take(n) =~= acts);
    assert(ws.take(n) =~= ws);
    let (prev, ep) = run_spec(m, source, acts.take(n - 1), ws.take(n - 1));
    let (m2, e2) = step_spec(prev, source, acts[n - 1], ws[n - 1]);
    lemma_step_audio_conserved(prev, source, acts[n - 1], ws[n - 1]);
    lemma_audio_of_concat(ep, e2);
    let evs = ep + e2;
    assert(e2.last() == SegmentEventView::End(id));
    assert forall|i: int| 0 < i < evs.len() - 1 implies (#[trigger] evs[i]) is Audio by {
        if i >= ep.len() {
            assert(evs[i] == e2[i - ep.len()]);
        } else {
            assert(evs[i] == ep[i]);
        }
    }
    assert forall|i: int| 0 <= i < evs.len() implies event_id(#[trigger] evs[i]) == id by {
        if i >= ep.len() {
            assert(evs[i] == e2[i - ep.len()]);
        } else {
            assert(evs[i] == ep[i]);
        }
    }
    assert(evs[0] == ep[0]);
    lemma_flatten_last(ws.subrange(j + 1, n));
    assert(ws.subrange(j + 1, n).drop_last() =~= ws.subrange(j + 1, n - 1));
    assert(ws.subrange(j + 1, n).last() == ws[n - 1]);
    assert(ws.skip(j + 1) =~= ws.subrange(j + 1, n));
    let x = keep_last(m.preroll + ws.take(j + 1).flatten(), cap);
    lemma_seq_regroup(
        audio_of(ep),
        audio_of(e2),
        m2.pending,
        prev.pending,
        ws[n - 1],
        x,
        ws.subrange(j + 1, n - 1).flatten(),
    );
    assert(m2.pending.len() == 0);
    assert(audio_of(evs) + m2.pending =~= audio_of(evs));
}

/// Segment ids are numbered consecutively from the filter's counter, so every
/// segment started during a run gets an id no other segment of the source
/// has.
pub proof fn lemma_start_ids_consecutive(
    m: GateModel,
    source: Source,
    acts: Seq<VoiceActivity>,
    ws: Seq<Seq<i16>>,
)
    requires
        model_wf(m, source),
        acts.len() == ws.len(),
    ensures
        ({
            let (m2, evs) = run_spec(m, source, acts, ws);
            &&& m2.seg_seq >= m.seg_seq
            &&& model_wf(m2, source)
            &&& start_ids(evs) == Seq::new(
                (m2.seg_seq - m.seg_seq) as nat,
                |j: int| segment_id_for(source, (m.seg_seq + 1 + j) as nat),
            )
        }),
    decreases acts.len(),
{
    if acts.len() == 0 {
        assert(start_ids(Seq::<SegmentEventView>::empty()) =~= Seq::new(
            0,
            |j: int| segment_id_for(source, (m.seg_seq + 1 + j) as nat),
        ));
    } else {
        lemma_start_ids_consecutive(m, source, acts.drop_last(), ws.drop_last());
        let (m1, e1) = run_spec(m, source, acts.drop_last(), ws.drop_last());
        let (m2, e2) = step_spec(m1, source, acts.last(), ws.last());
        lemma_start_ids_concat(e1, e2);
        lemma_step_keeps_wf(m1, source, acts.last(), ws.last());
        let f = |j: int| segment_id_for(source, (m.seg_seq + 1 + j) as nat);
        if m2.seg_seq == m1.seg_seq {
            assert(start_ids(e2) =~= Seq::<Seq<char>>::empty()) by {
                reveal_with_fuel(start_ids, 4);
            }
            assert(start_ids(e1) + start_ids(e2) =~= start_ids(e1));
        } else {
            assert(start_ids(e2) =~= seq![segment_id_for(source, m2.seg_seq)]) by {
                reveal_with_fuel(start_ids, 4);
            }
            assert(start_ids(e1) + start_ids(e2) =~= Seq::new(
                (m2.seg_seq - m.seg_seq) as nat,
                f,
            ));
        }
    }
}

/// Each decision preserves the filter's invariant.
pub proof fn lemma_step_keeps_wf(m: GateModel, source: Source, act: VoiceActivity, w: Seq<i16>)
    requires
        model_wf(m, source),
    ensures
        model_wf(step_spec(m, source, act, w).0, source),
        step_spec(m, source, act, w).0.seg_seq == m.seg_seq || step_spec(
            m,
            source,
            act,
            w,
        ).0.seg_seq == m.seg_seq + 1,
{
    lemma_keep_last_len(m.preroll + w, PREROLL_SAMPLES_24K as nat);
}

/// Distinct sequence numbers give distinct segment ids.
pub proof fn lemma_segment_ids_distinct(source: Source, a: nat, b: nat)
    requires
        a != b,
    ensures
        segment_id_for(source, a) != segment_id_for(source, b),
{
    let p = source_name(source) + "-seg-"@;
    if segment_id_for(source, a) == segment_id_for(source, b) {
        assert(segment_id_for(source, a).skip(p.len() as int) =~= decimal(a));
        assert(segment_id_for(source, b).skip(p.len() as int) =~= decimal(b));
        lemma_decimal_injective(a, b);
    }
}

/// Inside a segment no sample is lost or reordered: the payload emitted by a
/// speech window, followed by what stays pending, is exactly what was
/// pending before followed by the window; and every event carries the
/// segment's id. At onset the first payload is the pre-roll including the
/// onset window.
pub proof fn lemma_step_audio_conserved(
    m: GateModel,
    source: Source,
    act: VoiceActivity,
    w: Seq<i16>,
)
    requires
        model_wf(m, source),
    ensures
        m.state == GateState::Speech ==> {
            let (m2, evs) = step_spec(m, source, act, w);
            &&& audio_of(evs) + m2.pending == m.pending + w
            &&& forall|i: int| 0 <= i < evs.len() ==> event_id(#[trigger] evs[i]) == m.current_id
        },
        (m.state == GateState::Idle && step_spec(m, source, act, w).1.len() > 0) ==> {
            let (m2, evs) = step_spec(m, source, act, w);
            &&& audio_of(evs) == keep_last(m.preroll + w, PREROLL_SAMPLES_24K as nat)
            &&& evs.len() == 2
            &&& evs[0] == SegmentEventView::Start(m2.current_id)
        },
{
    let (m2, evs) = step_spec(m, source, act, w);
    reveal_with_fuel(audio_of, 4);
    if m.state == GateState::Speech {
        let pending1 = m.pending + w;
        if pending1.len() >= EMIT_EVERY_24K {
            let e1 = seq![SegmentEventView::Audio(m.current_id, pending1)];
            assert(audio_of(e1) =~= pending1) by {
                assert(e1.drop_last() =~= Seq::<SegmentEventView>::empty());
            }
        }
        if evs.len() == 3 {
            assert(evs.drop_last().drop_last().drop_last() =~= Seq::<SegmentEventView>::empty());
        }
        if evs.len() == 2 {
            assert(evs.drop_last().drop_last() =~= Seq::<SegmentEventView>::empty());
        }
        if evs.len() == 1 {
            assert(evs.drop_last() =~= Seq::<SegmentEventView>::empty());
        }
        assert(audio_of(evs) + m2.pending =~= m.pending + w);
    } else if evs.len() > 0 {
        assert(evs.drop_last().drop_last() =~= Seq::<SegmentEventView>::empty());
        assert(audio_of(evs) =~= keep_last(m.preroll + w, PREROLL_SAMPLES_24K as nat));
    }
}

/// A segment always closes when the hangover of silent windows or the
/// segment length limit is reached: the decision emits `End` and the filter
/// returns to idle.
pub proof fn lemma_segment_closes(m: GateModel, source: Source, act: VoiceActivity, w: Seq<i16>)
    requires
        model_wf(m, source),
        m.state == GateState::Speech,
        (act == VoiceActivity::Silence && m.consec_silence + 1 >= HANGOVER_WINDOWS)
            || m.windows_in_segment + 1 >= MAX_SEGMENT_WINDOWS,
    ensures
        step_spec(m, source, act, w).0.state == GateState::Idle,
        step_spec(m, source, act, w).1.last() == SegmentEventView::End(m.current_id),
{
}

/// A pause shorter than the hangover does not split a segment: a window
/// that is not silence, or a silent window before the hangover is reached,
/// keeps the segment open (below the length limit) and emits only payload.
pub proof fn lemma_brief_pause_continues(
    m: GateModel,
    source: Source,
    act: VoiceActivity,
    w: Seq<i16>,
)
    requires
        model_wf(m, source),
        m.state == GateState::Speech,
        act != VoiceActivity::Silence || m.consec_silence + 1 < HANGOVER_WINDOWS,
        m.windows_in_segment + 1 < MAX_SEGMENT_WINDOWS,
    ensures
        step_spec(m, source, act, w).0.state == GateState::Speech,
        step_spec(m, source, act, w).0.current_id == m.current_id,
        forall|i: int|
            0 <= i < step_spec(m, source, act, w).1.len() ==> (#[trigger] step_spec(
                m,
                source,
                act,
                w,
            ).1[i]) is Audio,
{
}

/// Follows a stream of events from the segment that is open (`Some(id)`)
/// or none: `Start` needs no open segment and opens one, `Audio` and `End`
/// need the open segment's id and `End` closes it. `None` when the stream
/// breaks these rules; otherwise the segment left open.
pub open spec fn segment_scan(open: Option<Seq<char>>, evs: Seq<SegmentEventView>) -> Option<
    Option<Seq<char>>,
>
    decreases evs.len(),
{
    if evs.len() == 0 {
        Some(open)
    } else {
        let next = match evs[0] {
            SegmentEventView::Start(id) => if open is None {
                Some(Some(id))
            } else {
                None
            },
            SegmentEventView::Audio(id, _) => if open == Some(id) {
                Some(open)
            } else {
                None
            },
            SegmentEventView::End(id) => if open == Some(id) {
                Some(None::<Seq<char>>)
            } else {
                None
            },
        };
        match next {
            Some(o) => segment_scan(o, evs.drop_first()),
            None => None,
        }
    }
}

/// The segment a model has open.
pub open spec fn open_segment(m: GateModel) -> Option<Seq<char>> {
    if m.state == GateState::Speech {
        Some(m.current_id)
    } else {
        None
    }
}

proof fn lemma_segment_scan_concat(
    open: Option<Seq<char>>,
    a: Seq<SegmentEventView>,
    b: Seq<SegmentEventView>,
)
    ensures
        segment_scan(open, a + b) == match segment_scan(open, a) {
            Some(o) => segment_scan(o, b),
            None => None,
        },
    decreases a.len(),
{
    if a.len() == 0 {
        assert(a + b =~= b);
    } else {
        assert((a + b)[0] == a[0]);
        assert((a + b).drop_first() =~= a.drop_first() + b);
        let next = match a[0] {
            SegmentEventView::Start(id) => if open is None {
                Some(Some(id))
            } else {
                None
            },
            SegmentEventView::Audio(id, _) => if open == Some(id) {
                Some(open)
            } else {
                None
            },
            SegmentEventView::End(id) => if open == Some(id) {
                Some(None::<Seq<char>>)
            } else {
                None
            },
        };
        match next {
            Some(o) => {
                lemma_segment_scan_concat(o, a.drop_first(), b);
            },
            None => {},
        }
    }
}

proof fn lemma_step_segments(m: GateModel, source: Source, act: VoiceActivity, w: Seq<i16>)
    requires
        model_wf(m, source),
    ensures
        segment_scan(open_segment(m), step_spec(m, source, act, w).1) == Some(
            open_segment(step_spec(m, source, act, w).0),
        ),
{
    let (m2, evs) = step_spec(m, source, act, w);
    reveal_with_fuel(segment_scan, 4);
    if evs.len() == 2 {
        assert(evs.drop_first().drop_first() =~= Seq::<SegmentEventView>::empty());
    }
    if evs.len() == 3 {
        assert(evs.drop_first().drop_first().drop_first() =~= Seq::<SegmentEventView>::empty());
    }
    if evs.len() == 1 {
        assert(evs.drop_first() =~= Seq::<SegmentEventView>::empty());
    }
}

/// The events of any run form well-nested segments: a `Start` only when no
/// segment is open, every `Audio` and `End` carrying the id of the open
/// segment, `End` closing it; at the end the segment the filter has open (if
/// any) is the one left open by the events.
pub proof fn lemma_run_segments_well_nested(
    m: GateModel,
    source: Source,
    acts: Seq<VoiceActivity>,
    ws: Seq<Seq<i16>>,
)
    requires
        model_wf(m, source),
        acts.len() == ws.len(),
    ensures
        segment_scan(open_segment(m), run_spec(m, source, acts, ws).1) == Some(
            open_segment(run_spec(m, source, acts, ws).0),
        ),
    decreases acts.len(),
{
    if acts.len() == 0 {
    } else {
        lemma_run_segments_well_nested(m, source, acts.drop_last(), ws.drop_last());
        lemma_start_ids_consecutive(m, source, acts.drop_last(), ws.drop_last());
        let (m1, e1) = run_spec(m, source, acts.drop_last(), ws.drop_last());
        lemma_step_segments(m1, source, acts.last(), ws.last());
        let (m2, e2) = step_spec(m1, source, acts.last(), ws.last());
        lemma_segment_scan_concat(open_segment(m), e1, e2);
    }
}

proof fn lemma_run_concat(
    m: GateModel,
    source: Source,
    a1: Seq<VoiceActivity>,
    a2: Seq<VoiceActivity>,
    w1: Seq<Seq<i16>>,
    w2: Seq<Seq<i16>>,
)
    requires
        a1.len() == w1.len(),
        a2.len() == w2.len(),
    ensures
        ({
            let (m1, e1) = run_spec(m, source, a1, w1);
            let (m2, e2) = run_spec(m1, source, a2, w2);
            run_spec(m, source, a1 + a2, w1 + w2) == (m2, e1 + e2)
        }),
    decreases a2.len(),
{
    let (m1, e1) = run_spec(m, source, a1, w1);
    if a2.len() == 0 {
        assert(a1 + a2 =~= a1);
        assert(w1 + w2 =~= w1);
        assert(e1 + Seq::<SegmentEventView>::empty() =~= e1);
    } else {
        lemma_run_concat(m, source, a1, a2.drop_last(), w1, w2.drop_last());
        assert((a1 + a2).drop_last() =~= a1 + a2.drop_last());
        assert((w1 + w2).drop_last() =~= w1 + w2.drop_last());
        assert((a1 + a2).last() == a2.last());
        assert((w1 + w2).last() == w2.last());
        let (mp, ep) = run_spec(m1, source, a2.drop_last(), w2.drop_last());
        let (mq, eq) = step_spec(mp, source, a2.last(), w2.last());
        assert(e1 + ep + eq =~= e1 + (ep + eq));
    }
}

proof fn lemma_windows_split<T>(s: Seq<T>, t: Seq<T>, w: nat, k1: nat, k2: nat)
    requires
        w > 0,
        w * k1 <= s.len(),
        w * (k1 + k2) <= s.len() + t.len(),
    ensures
        windows_of(s + t, w, k1 + k2) == windows_of(s, w, k1) + windows_of(s.skip((w * k1) as int) + t, w, k2),
{
    let l = windows_of(s + t, w, k1 + k2);
    let r = windows_of(s, w, k1) + windows_of(s.skip((w * k1) as int) + t, w, k2);
    assert forall|i: int| 0 <= i < k1 + k2 implies #[trigger] l[i] == r[i] by {
        assert(w * i + w == w * (i + 1)) by (nonlinear_arith);
        assert(i * w == w * i) by (nonlinear_arith);
        assert((i + 1) * w == w * (i + 1)) by (nonlinear_arith);
        if i < k1 {
            assert(w * (i + 1) <= w * k1) by (nonlinear_arith)
                requires
                    i < k1,
                    w > 0,
            ;
            assert(l[i] =~= r[i]);
        } else {
            let j = i - k1;
            assert(w * i == w * k1 + w * j) by (nonlinear_arith)
                requires
                    j == i - k1,
            ;
            assert(j * w == w * j) by (nonlinear_arith);
            assert((j + 1) * w == w * j + w) by (nonlinear_arith);
            assert(w * (i + 1) <= w * (k1 + k2)) by (nonlinear_arith)
                requires
                    i < k1 + k2,
                    w > 0,
            ;
            assert(w * j >= 0) by (nonlinear_arith)
                requires
                    j >= 0,
                    w > 0,
            ;
            assert(l[i] =~= r[i]);
        }
    }
    assert(l =~= r);
}

proof fn lemma_div_shift(a: int, y: int, w: int, k: int)
    requires
        w > 0,
        a >= 0,
        y >= 0,
        0 <= k <= a / w,
    ensures
        w * k <= a,
        (a + y) / w == k + ((a - w * k) + y) / w,
{
    assert(w * k <= a) by (nonlinear_arith)
        requires
            k <= a / w,
            w > 0,
            a >= 0,
    ;
    let r = a - w * k + y;
    assert(a + y == w * k + r);
    assert(w * k == k * w) by (nonlinear_arith);
    vstd::arithmetic::div_mod::lemma_hoist_over_denominator(r, k, w as nat);
    assert(r + k * w == a + y);
}

/// Audio may arrive in any split: pushing `x` and then `y` gives the same
/// windows, decisions, events and leftover buffers as pushing them joined,
/// when the detector gives the same answers in the same order. The number of
/// windows decided is the same, the detector is handed the same 16 kHz
/// windows in the same order (the two logs of [`VadGate::push`] joined are
/// the one log), and the leftovers of the first push are carried into the
/// second.
pub proof fn lemma_push_split<S>(
    m: GateModel,
    source: Source,
    b16: Seq<S>,
    b24: Seq<i16>,
    x16: Seq<S>,
    x24: Seq<i16>,
    y16: Seq<S>,
    y24: Seq<i16>,
    acts1: Seq<VoiceActivity>,
    acts2: Seq<VoiceActivity>,
)
    requires
        acts1.len() == windows_ready((b16 + x16).len(), (b24 + x24).len()),
        acts2.len() == windows_ready(
            ((b16 + x16).skip(VAD_WINDOW_16K * acts1.len()) + y16).len(),
            ((b24 + x24).skip(WINDOW_24K * acts1.len()) + y24).len(),
        ),
    ensures
        ({
            let k1 = acts1.len();
            let k2 = acts2.len();
            let r16 = (b16 + x16).skip(VAD_WINDOW_16K * k1) + y16;
            let r24 = (b24 + x24).skip(WINDOW_24K * k1) + y24;
            let all16 = b16 + (x16 + y16);
            let all24 = b24 + (x24 + y24);
            let (m1, e1) = run_spec(m, source, acts1, windows_of(b24 + x24, WINDOW_24K as nat, k1));
            let (m2, e2) = run_spec(m1, source, acts2, windows_of(r24, WINDOW_24K as nat, k2));
            &&& windows_ready(all16.len(), all24.len()) == k1 + k2
            &&& all16.skip(VAD_WINDOW_16K * (k1 + k2)) == r16.skip(VAD_WINDOW_16K * k2)
            &&& all24.skip(WINDOW_24K * (k1 + k2)) == r24.skip(WINDOW_24K * k2)
            &&& windows_of(all16, VAD_WINDOW_16K as nat, k1 + k2) == windows_of(
                b16 + x16,
                VAD_WINDOW_16K as nat,
                k1,
            ) + windows_of(r16, VAD_WINDOW_16K as nat, k2)
            &&& run_spec(m, source, acts1 + acts2, windows_of(all24, WINDOW_24K as nat, k1 + k2))
                == (m2, e1 + e2)
            &&& classified(windows_of(all16, VAD_WINDOW_16K as nat, k1 + k2), acts1 + acts2)
                == classified(windows_of(b16 + x16, VAD_WINDOW_16K as nat, k1), acts1) + classified(
                windows_of(r16, VAD_WINDOW_16K as nat, k2),
                acts2,
            )
        }),
{
    let k1 = acts1.len();
    let k2 = acts2.len();
    let w16: int = VAD_WINDOW_16K as int;
    let w24: int = WINDOW_24K as int;
    let s16 = b16 + x16;
    let s24 = b24 + x24;
    let all16 = b16 + (x16 + y16);
    let all24 = b24 + (x24 + y24);
    assert(all16 =~= s16 + y16);
    assert(all24 =~= s24 + y24);
    lemma_div_shift(s16.len() as int, y16.len() as int, w16, k1 as int);
    lemma_div_shift(s24.len() as int, y24.len() as int, w24, k1 as int);
    let r16 = s16.skip(w16 * k1) + y16;
    let r24 = s24.skip(w24 * k1) + y24;
    assert(r16.len() == (s16.len() - w16 * k1) + y16.len());
    assert(r24.len() == (s24.len() - w24 * k1) + y24.len());
    assert(windows_ready(all16.len(), all24.len()) == k1 + k2);
    assert(w16 * (k1 + k2) == w16 * k1 + w16 * k2) by (nonlinear_arith);
    assert(w24 * (k1 + k2) == w24 * k1 + w24 * k2) by (nonlinear_arith);
    assert(k2 <= (r16.len() as int) / w16);
    assert(k2 <= (r24.len() as int) / w24);
    lemma_div_shift(r16.len() as int, 0, w16, k2 as int);
    lemma_div_shift(r24.len() as int, 0, w24, k2 as int);
    assert(all16.skip(w16 * (k1 + k2)) =~= r16.skip(w16 * k2));
    assert(all24.skip(w24 * (k1 + k2)) =~= r24.skip(w24 * k2));
    lemma_windows_split(s16, y16, w16 as nat, k1, k2);
    lemma_windows_split(s24, y24, w24 as nat, k1, k2);
    lemma_run_concat(
        m,
        source,
        acts1,
        acts2,
        windows_of(s24, w24 as nat, k1),
        windows_of(r24, w24 as nat, k2),
    );
    let v1 = windows_of(s16, w16 as nat, k1);
    let v2 = windows_of(r16, w16 as nat, k2);
    assert(classified(v1 + v2, acts1 + acts2) =~= classified(v1, acts1) + classified(v2, acts2));
}

/// Every `Start` in `evs` is followed at once by a payload of the same
/// segment.
pub open spec fn starts_followed_by_audio(evs: Seq<SegmentEventView>) -> bool {
    forall|i: int|
        0 <= i < evs.len() && (#[trigger] evs[i]) is Start ==> i + 1 < evs.len() && evs[i
            + 1] is Audio && event_id(evs[i + 1]) == event_id(evs[i])
}

proof fn lemma_step_starts_followed(m: GateModel, source: Source, act: VoiceActivity, w: Seq<i16>)
    ensures
        starts_followed_by_audio(step_spec(m, source, act, w).1),
{
    let e = step_spec(m, source, act, w).1;
    assert forall|i: int| 0 <= i < e.len() && (#[trigger] e[i]) is Start implies i + 1 < e.len()
        && e[i + 1] is Audio && event_id(e[i + 1]) == event_id(e[i]) by {
        if m.state == GateState::Speech {
            let id = m.current_id;
            let pending1 = m.pending + w;
            let flush = pending1.len() >= EMIT_EVERY_24K;
            let ev1 = if flush {
                seq![SegmentEventView::Audio(id, pending1)]
            } else {
                Seq::<SegmentEventView>::empty()
            };
            let pending2 = if flush {
                Seq::<i16>::empty()
            } else {
                pending1
            };
            let ev2 = if pending2.len() > 0 {
                seq![SegmentEventView::Audio(id, pending2)]
            } else {
                Seq::<SegmentEventView>::empty()
            };
            let closing = ev1 + ev2 + seq![SegmentEventView::End(id)];
            assert forall|j: int| 0 <= j < closing.len() implies !(#[trigger] closing[j] is Start) by {
                if j < ev1.len() {
                    assert(closing[j] == ev1[j]);
                } else if j < ev1.len() + ev2.len() {
                    assert(closing[j] == ev2[j - ev1.len()]);
                }
            }
        }
    }
}

/// The events of any run follow the grammar of segments: they are well
/// nested (a `Start` only when no segment is open, every payload and `End`
/// carrying the id of the open segment, `End` closing it, and the run ends
/// with the filter's open segment left open); the segments started are
/// numbered on from the filter's counter, `"<source>-seg-<n>"` with `n`
/// consecutive; and every `Start` is followed at once by a payload of its
/// segment. What the payloads of a segment hold is stated by
/// [`lemma_segment_audio`].
pub proof fn lemma_run_event_grammar(
    m: GateModel,
    source: Source,
    acts: Seq<VoiceActivity>,
    ws: Seq<Seq<i16>>,
)
    requires
        model_wf(m, source),
        acts.len() == ws.len(),
    ensures
        ({
            let (m2, evs) = run_spec(m, source, acts, ws);
            &&& segment_scan(open_segment(m), evs) == Some(open_segment(m2))
            &&& m2.seg_seq >= m.seg_seq
            &&& start_ids(evs) == Seq::new(
                (m2.seg_seq - m.seg_seq) as nat,
                |j: int| segment_id_for(source, (m.seg_seq + 1 + j) as nat),
            )
            &&& starts_followed_by_audio(evs)
        }),
    decreases acts.len(),
{
    lemma_run_segments_well_nested(m, source, acts, ws);
    lemma_start_ids_consecutive(m, source, acts, ws);
    if acts.len() > 0 {
        lemma_run_event_grammar(m, source, acts.drop_last(), ws.drop_last());
        let (m1, e1) = run_spec(m, source, acts.drop_last(), ws.drop_last());
        let e2 = step_spec(m1, source, acts.last(), ws.last()).1;
        lemma_step_starts_followed(m1, source, acts.last(), ws.last());
        let evs = e1 + e2;
        assert forall|i: int| 0 <= i < evs.len() && (#[trigger] evs[i]) is Start implies i + 1
            < evs.len() && evs[i + 1] is Audio && event_id(evs[i + 1]) == event_id(evs[i]) by {
            if i < e1.len() {
                assert(evs[i] == e1[i]);
                assert(e1[i] is Start);
                assert(evs[i + 1] == e1[i + 1]);
            } else {
                assert(evs[i] == e2[i - e1.len()]);
                assert(e2[i - e1.len()] is Start);
                assert(evs[i + 1] == e2[i + 1 - e1.len()]);
            }
        }
    }
}

/// The number of trailing `Silence` answers.
pub open spec fn trailing_silence(acts: Seq<VoiceActivity>) -> nat
    decreases acts.len(),
{
    if acts.len() > 0 && acts.last() == VoiceActivity::Silence {
        trailing_silence(acts.drop_last()) + 1
    } else {
        0
    }
}

proof fn lemma_speech_prefix(
    m: GateModel,
    source: Source,
    acts: Seq<VoiceActivity>,
    ws: Seq<Seq<i16>>,
    k: int,
)
    requires
        model_wf(m, source),
        m.state == GateState::Speech,
        m.consec_silence == 0,
        acts.len() == ws.len(),
        0 <= k <= acts.len(),
        forall|i: int| 0 <= i <= k ==> #[trigger] state_after(m, source, acts, ws, i) == GateState::Speech,
    ensures
        ({
            let mk = run_spec(m, source, acts.take(k), ws.take(k)).0;
            &&& mk.consec_silence == trailing_silence(acts.take(k))
            &&& mk.windows_in_segment == m.windows_in_segment + k
            &&& mk.state == GateState::Speech
            &&& model_wf(mk, source)
        }),
    decreases k,
{
    if k == 0 {
        assert(acts.take(0) =~= Seq::<VoiceActivity>::empty());
        assert(ws.take(0) =~= Seq::<Seq<i16>>::empty());
    } else {
        lemma_speech_prefix(m, source, acts, ws, k - 1);
        lemma_run_prefix_step(m, source, acts, ws, k - 1);
        assert(state_after(m, source, acts, ws, k - 1) == GateState::Speech);
        assert(state_after(m, source, acts, ws, k) == GateState::Speech);
        let prev = run_spec(m, source, acts.take(k - 1), ws.take(k - 1)).0;
        lemma_step_keeps_wf(prev, source, acts[k - 1], ws[k - 1]);
        assert(acts.take(k).drop_last() =~= acts.take(k - 1));
        assert(acts.take(k).last() == acts[k - 1]);
    }
}

/// Inside a segment the filter counts only consecutive silence: while it
/// stays in speech its silence count is the number of `Silence` answers
/// ending at the last window (any `Speech` or `Uncertain` answer starts the
/// count over), and when a segment that started counting from zero ends
/// before the length limit, it ends only after at least `HANGOVER_WINDOWS`
/// consecutive `Silence` answers.
pub proof fn lemma_hangover_counts_consecutive_silence(
    m: GateModel,
    source: Source,
    acts: Seq<VoiceActivity>,
    ws: Seq<Seq<i16>>,
)
    requires
        model_wf(m, source),
        m.state == GateState::Speech,
        m.consec_silence == 0,
        acts.len() == ws.len(),
        forall|i: int| 0 <= i < acts.len() ==> #[trigger] state_after(m, source, acts, ws, i) == GateState::Speech,
    ensures
        run_spec(m, source, acts, ws).0.state == GateState::Speech ==> run_spec(
            m,
            source,
            acts,
            ws,
        ).0.consec_silence == trailing_silence(acts),
        (run_spec(m, source, acts, ws).0.state == GateState::Idle && m.windows_in_segment
            + acts.len() < MAX_SEGMENT_WINDOWS) ==> trailing_silence(acts) >= HANGOVER_WINDOWS,
{
    let n = acts.len() as int;
    assert(acts.take(n) =~= acts);
    assert(ws.take(n) =~= ws);
    if run_spec(m, source, acts, ws).0.state == GateState::Speech {
        assert forall|i: int| 0 <= i <= n implies #[trigger] state_after(m, source, acts, ws, i)
            == GateState::Speech by {
            if i == n {
                assert(state_after(m, source, acts, ws, i) == run_spec(m, source, acts, ws).0.state);
            }
        }
        lemma_speech_prefix(m, source, acts, ws, n);
    } else if n > 0 {
        lemma_speech_prefix(m, source, acts, ws, n - 1);
        lemma_run_prefix_step(m, source, acts, ws, n - 1);
        assert(acts.take(n).drop_last() =~= acts.take(n - 1));
        assert(acts.take(n).last() == acts[n - 1]);
    }
}

} // verus!
