//! Realtime transcription session: reconnect backoff, the bounded replay
//! buffer of audio queued while disconnected, payload encoding, and the
//! decisions the session makes on segment events and server events.

use std::collections::VecDeque;
use std::time::Duration;

use base64::Engine;

use vstd::arithmetic::power2::{lemma2_to64, pow2};
use vstd::prelude::*;
use vstd::utf8::{encode_utf8, is_ascii_chars, is_ascii_chars_encode_utf8};

use crate::events::{clock_subsec_nanos, duration_from_micros, duration_of_micros};
use crate::state::{source_name, Source};
use crate::text::push_str;
use crate::vad::{
    lemma_run_segments_well_nested, model_wf, open_segment, run_spec, segment_scan, GateModel,
    GateState, SegmentEvent, SegmentEventView, VoiceActivity,
};

verus! {

/// Budget of queued base64 audio: ~20 s of 24 kHz PCM16 (24k * 2 bytes * 20 * 4/3).
pub const REPLAY_BUDGET_BYTES: usize = 1_280_000;

/// Trailing silence appended after a segment when the server detects turns.
pub const SILENCE_TAIL_MS: usize = 500;

// ---------------------------------------------------------------------------
// Backoff
/// Reconnect delay before jitter, in milliseconds: 0.5 s doubling per
/// attempt (attempts beyond the sixth count as the sixth), capped at 30 s.
pub open spec fn backoff_base_ms(attempt: u32) -> nat {
    let k: nat = if attempt < 6 {
        attempt as nat
    } else {
        6
    };
    let raw = 500 * pow2(k);
    if raw < 30_000 {
        raw
    } else {
        30_000
    }
}

/// Reconnect delay in microseconds for a jitter value `j < 400`: the base
/// delay scaled by `(800 + j) / 1000`, i.e. within ±20%.
pub open spec fn backoff_micros(attempt: u32, j: nat) -> nat {
    backoff_base_ms(attempt) * (800 + j)
}

/// The delay for `attempt` with jitter taken from `jitter_nanos`, in
/// microseconds.
pub fn delay_micros(attempt: u32, jitter_nanos: u32) -> (r: u64)
    ensures
        r == backoff_micros(attempt, (jitter_nanos % 400) as nat),
{
    let base: u64 = if attempt == 0 {
        500
    } else if attempt == 1 {
        1_000
    } else if attempt == 2 {
        2_000
    } else if attempt == 3 {
        4_000
    } else if attempt == 4 {
        8_000
    } else if attempt == 5 {
        16_000
    } else {
        30_000
    };
    proof {
        lemma2_to64();
    }
    let j = (jitter_nanos % 400) as u64;
    assert(base * (800 + j) <= 30_000 * 1_200) by (nonlinear_arith)
        requires
            base <= 30_000,
            j < 400,
    ;
    base * (800 + j)
}

/// Exponential reconnect backoff with jitter.
pub struct Backoff {
    attempt: u32,
}

impl Backoff {
    /// Number of delays handed out since the last reset.
    pub closed spec fn attempts(&self) -> u32 {
        self.attempt
    }

    pub fn new() -> (b: Self)
        ensures
            b.attempts() == 0,
    {
        Backoff { attempt: 0 }
    }

    /// Starts over after a successful connection.
    pub fn reset(&mut self)
        ensures
            final(self).attempts() == 0,
    {
        self.attempt = 0;
    }

    /// The next delay: `backoff_micros(attempt, j)` for a jitter `j < 400`
    /// drawn from the clock; the attempt counter grows, saturating.
    pub fn next_delay(&mut self) -> (d: Duration)
        ensures
            final(self).attempts() == if old(self).attempts() == u32::MAX {
                u32::MAX
            } else {
                (old(self).attempts() + 1) as u32
            },
            exists|j: nat|
                j < 400 && d == duration_of_micros(
                    #[trigger] backoff_micros(old(self).attempts(), j) as u64,
                ),
    {
        let a = self.attempt;
        self.attempt = self.attempt.saturating_add(1);
        let nanos = clock_subsec_nanos();
        let us = delay_micros(a, nanos);
        let d = duration_from_micros(us);
        assert(backoff_micros(a, (nanos % 400) as nat) as u64 == us);
        d
    }
}

// ---------------------------------------------------------------------------
// Ids and payload encoding
/// `"<source>-<item id>"`.
pub open spec fn segment_id_spec(source: Source, item_id: Seq<char>) -> Seq<char> {
    source_name(source) + "-"@ + item_id
}

/// The frontend segment id of a server transcription item.
pub fn segment_id(source: Source, item_id: &str) -> (r: String)
    ensures
        r@ == segment_id_spec(source, item_id@),
{
    let mut r = source.to_text();
    push_str(&mut r, "-");
    push_str(&mut r, item_id);
    r
}

/// The 16-bit two's complement pattern of a sample.
pub open spec fn u16_bits(x: i16) -> int {
    if x < 0 {
        x + 65536
    } else {
        x as int
    }
}

/// Little-endian bytes of PCM16 samples (`i16::to_le_bytes`, concatenated).
pub open spec fn pcm_le_bytes(pcm: Seq<i16>) -> Seq<u8> {
    Seq::new(
        2 * pcm.len(),
        |j: int|
            if j % 2 == 0 {
                (u16_bits(pcm[j / 2]) % 256) as u8
            } else {
                (u16_bits(pcm[j / 2]) / 256) as u8
            },
    )
}

/// PCM16 samples as little-endian bytes.
pub fn pcm_bytes(pcm: &[i16]) -> (out: Vec<u8>)
    requires
        pcm@.len() <= usize::MAX / 2,
    ensures
        out@ == pcm_le_bytes(pcm@),
{
    let mut out: Vec<u8> = Vec::new();
    let mut i: usize = 0;
    while i < pcm.len()
        invariant
            i <= pcm.len(),
            pcm@.len() <= usize::MAX / 2,
            out@ == pcm_le_bytes(pcm@.take(i as int)),
        decreases pcm.len() - i,
    {
        let s = pcm[i];
        let u: u32 = if s < 0 {
            (s as i32 + 65536) as u32
        } else {
            s as u32
        };
        let lo = (u % 256) as u8;
        let hi = (u / 256) as u8;
        out.push(lo);
        out.push(hi);
        proof {
            let a = pcm@.take(i as int);
            let b = pcm@.take(i + 1);
            assert forall|j: int| 0 <= j < 2 * b.len() implies #[trigger] pcm_le_bytes(b)[j]
                == out@[j] by {
                if j < 2 * a.len() {
                    assert(b[j / 2] == a[j / 2]);
                    assert(pcm_le_bytes(a)[j] == out@[j]);
                } else {
                    assert(j / 2 == i);
                    assert(b[j / 2] == s);
                }
            }
            assert(pcm_le_bytes(b) =~= out@);
        }
        i = i + 1;
    }
    assert(pcm@.take(pcm.len() as int) == pcm@);
    out
}

/// The standard base64 encoding (RFC 4648 alphabet, `=` padding) of bytes.
pub uninterp spec fn base64_standard(bytes: Seq<u8>) -> Seq<char>;

/// `base64::engine::general_purpose::STANDARD.encode`: the padded standard
/// encoding, four characters for every started group of three bytes. The
/// encoder panics when that length overflows `usize`, so shorter inputs are
/// required.
#[verifier::external_body]
pub(crate) fn base64_encode(bytes: &[u8]) -> (s: String)
    requires
        bytes@.len() <= usize::MAX / 2,
    ensures
        s@ == base64_standard(bytes@),
        s@.len() == 4 * ((bytes@.len() + 2) / 3),
        is_ascii_chars(s@),
{
    base64::engine::general_purpose::STANDARD.encode(bytes)
}

/// PCM16 samples as a base64 string of their little-endian bytes.
pub fn pcm_base64(pcm: &[i16]) -> (s: String)
    requires
        pcm@.len() <= usize::MAX / 4,
    ensures
        s@ == base64_standard(pcm_le_bytes(pcm@)),
        s@.len() == 4 * ((2 * pcm@.len() + 2) / 3),
        is_ascii_chars(s@),
{
    let bytes = pcm_bytes(pcm);
    base64_encode(bytes.as_slice())
}

/// Number of zero bytes in the silence tail: 500 ms of 24 kHz PCM16.
pub open spec fn silence_tail_len() -> nat {
    (24_000 * 2 * SILENCE_TAIL_MS / 1000) as nat
}

/// The silence tail as base64.
pub fn silence_tail_b64() -> (s: String)
    ensures
        s@ == base64_standard(Seq::new(silence_tail_len(), |i: int| 0u8)),
        s@.len() == 32_000,
{
    let n: usize = 24_000 * 2 * SILENCE_TAIL_MS / 1000;
    let samples = vec![0u8; n];
    let s = base64_encode(samples.as_slice());
    assert(samples@ =~= Seq::new(silence_tail_len(), |i: int| 0u8));
    s
}

// ---------------------------------------------------------------------------
// Replay buffer
/// Byte length of a string (`str::len`).
pub open spec fn text_bytes(s: String) -> nat {
    (encode_utf8(s@).len() as usize) as nat
}

/// Total byte length of queued chunks.
pub open spec fn total_bytes(q: Seq<String>) -> nat
    decreases q.len(),
{
    if q.len() == 0 {
        0
    } else {
        text_bytes(q[0]) + total_bytes(q.drop_first())
    }
}

/// Drops the oldest chunks until the total fits the replay budget.
pub open spec fn trim_to_budget(q: Seq<String>) -> Seq<String>
    decreases q.len(),
{
    if q.len() == 0 || total_bytes(q) <= REPLAY_BUDGET_BYTES {
        q
    } else {
        trim_to_budget(q.drop_first())
    }
}

proof fn lemma_total_bytes_push(q: Seq<String>, x: String)
    ensures
        total_bytes(q.push(x)) == total_bytes(q) + text_bytes(x),
    decreases q.len(),
{
    if q.len() > 0 {
        lemma_total_bytes_push(q.drop_first(), x);
        assert(q.push(x).drop_first() =~= q.drop_first().push(x));
        assert(q.push(x)[0] == q[0]);
        assert(total_bytes(q.push(x)) == text_bytes(q[0]) + total_bytes(q.drop_first().push(x)));
    } else {
        let e = Seq::<String>::empty();
        assert(q.push(x).drop_first() =~= e);
        assert(q.push(x)[0] == x);
        assert(total_bytes(e) == 0);
        assert(total_bytes(q) == 0);
        assert(total_bytes(q.push(x)) == text_bytes(x) + total_bytes(e));
    }
}

/// Queues `b64` for replay, dropping the oldest queued chunks while the
/// total exceeds [`REPLAY_BUDGET_BYTES`]; `bytes` tracks the total.
pub fn push_replay(replay: &mut VecDeque<String>, bytes: &mut usize, b64: String)
    requires
        *old(bytes) == total_bytes(old(replay)@),
        *old(bytes) + text_bytes(b64) <= usize::MAX,
    ensures
        final(replay)@ == trim_to_budget(old(replay)@.push(b64)),
        *final(bytes) == total_bytes(final(replay)@),
{
    let ghost all = old(replay)@.push(b64);
    proof {
        lemma_total_bytes_push(old(replay)@, b64);
    }
    *bytes = *bytes + b64.as_str().len();
    replay.push_back(b64);
    while *bytes > REPLAY_BUDGET_BYTES
        invariant
            trim_to_budget(replay@) == trim_to_budget(all),
            *bytes == total_bytes(replay@),
        ensures
            replay@ == trim_to_budget(all),
            *bytes == total_bytes(replay@),
        decreases replay@.len(),
    {
        let ghost before = replay@;
        match replay.pop_front() {
            Some(front) => {
                assert(replay@ =~= before.drop_first());
                *bytes = *bytes - front.as_str().len();
            },
            None => {
                break;
            },
        }
    }
}

/// Takes the oldest queued chunk for replay after a reconnect, keeping
/// `bytes` the total of what stays queued.
pub fn pop_replay(replay: &mut VecDeque<String>, bytes: &mut usize) -> (r: Option<String>)
    ensures
        match r {
            Some(s) => {
                &&& old(replay)@.len() > 0
                &&& s == old(replay)@[0]
                &&& final(replay)@ == old(replay)@.drop_first()
                &&& *final(bytes) == (if *old(bytes) >= text_bytes(s) {
                    *old(bytes) - text_bytes(s)
                } else {
                    0
                })
            },
            None => old(replay)@.len() == 0 && final(replay)@ == old(replay)@ && *final(bytes)
                == *old(bytes),
        },
        *old(bytes) == total_bytes(old(replay)@) ==> *final(bytes) == total_bytes(final(replay)@),
{
    let ghost before = replay@;
    match replay.pop_front() {
        Some(s) => {
            assert(replay@ =~= before.drop_first());
            *bytes = bytes.saturating_sub(s.as_str().len());
            Some(s)
        },
        None => None,
    }
}

/// After a push the queue fits the budget, is a suffix of what was queued
/// plus the new chunk, and keeps the new chunk whenever it fits on its own.
pub proof fn lemma_replay_bounded(q: Seq<String>)
    ensures
        total_bytes(trim_to_budget(q)) <= REPLAY_BUDGET_BYTES,
        exists|k: int| 0 <= k <= q.len() && #[trigger] q.skip(k) == trim_to_budget(q),
        q.len() > 0 && text_bytes(q.last()) <= REPLAY_BUDGET_BYTES ==> trim_to_budget(q).len()
            > 0 && trim_to_budget(q).last() == q.last(),
    decreases q.len(),
{
    if q.len() == 0 || total_bytes(q) <= REPLAY_BUDGET_BYTES {
        assert(q.skip(0) == q);
    } else {
        lemma_replay_bounded(q.drop_first());
        let k = choose|k: int|
            0 <= k <= q.drop_first().len() && #[trigger] q.drop_first().skip(k) == trim_to_budget(
                q.drop_first(),
            );
        assert(q.skip(k + 1) =~= q.drop_first().skip(k));
        if q.len() == 1 {
            assert(total_bytes(q) == text_bytes(q[0]) + total_bytes(q.drop_first()));
            assert(q.drop_first().len() == 0);
        } else {
            assert(q.drop_first().last() == q.last());
        }
    }
}

proof fn lemma_total_bytes_last(q: Seq<String>)
    requires
        q.len() > 0,
    ensures
        total_bytes(q) >= text_bytes(q.last()),
    decreases q.len(),
{
    if q.len() > 1 {
        lemma_total_bytes_last(q.drop_first());
        assert(q.drop_first().last() == q.last());
    }
}

/// The replay queue after a push is the longest suffix of what was queued
/// plus the new chunk that fits the budget: the oldest chunks are dropped
/// first, order is kept, nothing is dropped while everything fits, and the
/// new chunk stays exactly when it fits on its own.
pub proof fn lemma_replay_longest_suffix(q: Seq<String>)
    ensures
        exists|k: int|
            0 <= k <= q.len() && #[trigger] q.skip(k) == trim_to_budget(q) && total_bytes(q.skip(k))
                <= REPLAY_BUDGET_BYTES && forall|j: int|
                0 <= j < k ==> total_bytes(#[trigger] q.skip(j)) > REPLAY_BUDGET_BYTES,
        total_bytes(q) <= REPLAY_BUDGET_BYTES ==> trim_to_budget(q) == q,
        q.len() > 0 ==> (trim_to_budget(q).len() > 0 <==> text_bytes(q.last())
            <= REPLAY_BUDGET_BYTES),
    decreases q.len(),
{
    lemma_replay_bounded(q);
    if q.len() == 0 || total_bytes(q) <= REPLAY_BUDGET_BYTES {
        assert(q.skip(0) == q);
        if q.len() > 0 {
            lemma_total_bytes_last(q);
        }
    } else {
        let d = q.drop_first();
        lemma_replay_longest_suffix(d);
        let k = choose|k: int|
            0 <= k <= d.len() && #[trigger] d.skip(k) == trim_to_budget(d) && total_bytes(d.skip(k))
                <= REPLAY_BUDGET_BYTES && forall|j: int|
                0 <= j < k ==> total_bytes(#[trigger] d.skip(j)) > REPLAY_BUDGET_BYTES;
        assert(q.skip(k + 1) =~= d.skip(k));
        assert forall|j: int| 0 <= j < k + 1 implies total_bytes(#[trigger] q.skip(j))
            > REPLAY_BUDGET_BYTES by {
            if j == 0 {
                assert(q.skip(0) == q);
            } else {
                assert(q.skip(j) =~= d.skip(j - 1));
            }
        }
        if q.len() == 1 {
            assert(d.len() == 0);
            assert(total_bytes(q) == text_bytes(q[0]) + total_bytes(d));
        } else {
            assert(d.last() == q.last());
        }
        let t = trim_to_budget(q);
        if t.len() > 0 {
            assert(t == q.skip(k + 1));
            assert(t.last() == q.last());
            lemma_total_bytes_last(t);
        }
    }
}

} // verus!

verus! {

// ---------------------------------------------------------------------------
// Partial transcripts per server item
/// Partial transcripts as a map from item id to the text so far.
pub open spec fn partials_map(s: Seq<(String, String)>) -> Map<Seq<char>, Seq<char>>
    decreases s.len(),
{
    if s.len() == 0 {
        Map::empty()
    } else {
        partials_map(s.drop_last()).insert(s.last().0@, s.last().1@)
    }
}

/// No item id occurs twice.
pub open spec fn keys_distinct(s: Seq<(String, String)>) -> bool {
    forall|i: int, j: int| 0 <= i < j < s.len() ==> (#[trigger] s[i]).0@ != (#[trigger] s[j]).0@
}

proof fn lemma_partials_dom(s: Seq<(String, String)>, k: Seq<char>)
    ensures
        partials_map(s).dom().contains(k) <==> exists|i: int| 0 <= i < s.len() && (#[trigger] s[i]).0@ == k,
    decreases s.len(),
{
    if s.len() > 0 {
        lemma_partials_dom(s.drop_last(), k);
        if partials_map(s).dom().contains(k) && s.last().0@ != k {
            let i = choose|i: int| 0 <= i < s.drop_last().len() && (#[trigger] s.drop_last()[i]).0@ == k;
            assert(s[i] == s.drop_last()[i]);
        }
        if exists|i: int| 0 <= i < s.len() && (#[trigger] s[i]).0@ == k {
            let i = choose|i: int| 0 <= i < s.len() && (#[trigger] s[i]).0@ == k;
            if i < s.len() - 1 {
                assert(s.drop_last()[i] == s[i]);
            }
        }
    }
}

proof fn lemma_partials_value(s: Seq<(String, String)>, i: int)
    requires
        keys_distinct(s),
        0 <= i < s.len(),
    ensures
        partials_map(s).dom().contains(s[i].0@),
        partials_map(s)[s[i].0@] == s[i].1@,
    decreases s.len(),
{
    if i < s.len() - 1 {
        let d = s.drop_last();
        assert forall|a: int, b: int| 0 <= a < b < d.len() implies (#[trigger] d[a]).0@ != (
        #[trigger] d[b]).0@ by {
            assert(s[a].0@ != s[b].0@);
        }
        assert(d[i] == s[i]);
        lemma_partials_value(d, i);
        assert(s[i].0@ != s.last().0@);
    }
}

proof fn lemma_partials_update(s: Seq<(String, String)>, i: int, v: String)
    requires
        keys_distinct(s),
        0 <= i < s.len(),
    ensures
        partials_map(s.update(i, (s[i].0, v))) == partials_map(s).insert(s[i].0@, v@),
        keys_distinct(s.update(i, (s[i].0, v))),
    decreases s.len(),
{
    let t = s.update(i, (s[i].0, v));
    assert forall|a: int, b: int| 0 <= a < b < t.len() implies (#[trigger] t[a]).0@ != (
    #[trigger] t[b]).0@ by {
        assert(s[a].0@ != s[b].0@);
    }
    if i == s.len() - 1 {
        assert(t.drop_last() =~= s.drop_last());
        assert(partials_map(t) =~= partials_map(s).insert(s[i].0@, v@));
    } else {
        let d = s.drop_last();
        assert forall|a: int, b: int| 0 <= a < b < d.len() implies (#[trigger] d[a]).0@ != (
        #[trigger] d[b]).0@ by {
            assert(s[a].0@ != s[b].0@);
        }
        lemma_partials_update(d, i, v);
        assert(t.drop_last() =~= d.update(i, (d[i].0, v)));
        assert(s[i].0@ != s.last().0@);
        assert(partials_map(t) =~= partials_map(s).insert(s[i].0@, v@));
    }
}

proof fn lemma_partials_remove(s: Seq<(String, String)>, i: int)
    requires
        keys_distinct(s),
        0 <= i < s.len(),
    ensures
        partials_map(s.remove(i)) == partials_map(s).remove(s[i].0@),
        keys_distinct(s.remove(i)),
    decreases s.len(),
{
    let t = s.remove(i);
    assert forall|a: int, b: int| 0 <= a < b < t.len() implies (#[trigger] t[a]).0@ != (
    #[trigger] t[b]).0@ by {
        if a < i {
            if b < i {
                assert(s[a].0@ != s[b].0@);
            } else {
                assert(s[a].0@ != s[b + 1].0@);
            }
        } else {
            assert(s[a + 1].0@ != s[b + 1].0@);
        }
    }
    let k = s[i].0@;
    let d = s.drop_last();
    if i == s.len() - 1 {
        assert(t =~= d);
        assert forall|j: int| 0 <= j < d.len() implies (#[trigger] d[j]).0@ != k by {
            assert(s[j].0@ != s[i].0@);
        }
        lemma_partials_dom(d, k);
        assert(partials_map(t) =~= partials_map(s).remove(k));
    } else {
        assert forall|a: int, b: int| 0 <= a < b < d.len() implies (#[trigger] d[a]).0@ != (
        #[trigger] d[b]).0@ by {
            assert(s[a].0@ != s[b].0@);
        }
        lemma_partials_remove(d, i);
        assert(t.drop_last() =~= d.remove(i));
        assert(t.last() == s.last());
        assert(s.last().0@ != k);
        assert(partials_map(t) =~= partials_map(s).remove(k));
    }
}

proof fn lemma_partials_push(s: Seq<(String, String)>, k: String, v: String)
    requires
        keys_distinct(s),
        !partials_map(s).dom().contains(k@),
    ensures
        keys_distinct(s.push((k, v))),
        partials_map(s.push((k, v))) == partials_map(s).insert(k@, v@),
{
    lemma_partials_dom(s, k@);
    let t = s.push((k, v));
    assert forall|a: int, b: int| 0 <= a < b < t.len() implies (#[trigger] t[a]).0@ != (
    #[trigger] t[b]).0@ by {
        if b == s.len() {
            assert(t[a] == s[a]);
        } else {
            assert(s[a].0@ != s[b].0@);
        }
    }
    assert(t.drop_last() =~= s);
}

// ---------------------------------------------------------------------------
// Session decisions
/// Fields of a server event that the session reads, each present only when
/// the event holds a string there.
pub struct ServerEventFields {
    pub event_type: Option<String>,
    pub item_id: Option<String>,
    pub delta: Option<String>,
    pub transcript: Option<String>,
    pub error_code: Option<String>,
    pub error_message: Option<String>,
}

/// A string field, or the empty string when it is absent.
pub open spec fn field_or_empty(f: Option<String>) -> Seq<char> {
    match f {
        Some(s) => s@,
        None => Seq::empty(),
    }
}

/// What the session does about one server event.
#[derive(Debug)]
pub enum ServerAction {
    /// Nothing to do.
    Ignore,
    /// Show the cumulative partial transcript of a segment.
    Partial { segment_id: String, text: String },
    /// A segment's transcript is final: show it and hand it to translation.
    Final { segment_id: String, text: String },
    /// A server error that does not end the session (it is logged).
    ServerError { code: String, message: String },
    /// The server rejected the API key: report it and stop for good.
    FatalAuth { message: String },
}

/// A message the session sends upstream.
#[derive(Debug, PartialEq)]
pub enum Outbound {
    /// `input_audio_buffer.append` with base64 audio.
    Append(String),
    /// `input_audio_buffer.commit`.
    Commit,
}

/// What the session does about one segment event from the filter.
#[derive(Debug)]
pub enum SegmentAction {
    /// A segment began: report speech.
    SpeechStarted,
    /// Send a payload.
    Send(Outbound),
    /// A segment ended: send this, then report listening.
    SegmentEnded(Outbound),
}

/// The server event types the session reacts to.
pub open spec fn delta_type() -> Seq<char> {
    "conversation.item.input_audio_transcription.delta"@
}

pub open spec fn completed_type() -> Seq<char> {
    "conversation.item.input_audio_transcription.completed"@
}

/// Whether an error code means the API key was rejected.
pub open spec fn is_auth_error_code(code: Seq<char>) -> bool {
    crate::text::occurs_in(code, "invalid_api_key"@) || crate::text::occurs_in(code, "auth"@)
}

/// Whether a segment is in progress after a filter event.
pub open spec fn speaking_after(speaking: bool, e: SegmentEventView) -> bool {
    match e {
        SegmentEventView::Start(_) => true,
        SegmentEventView::Audio(_, _) => speaking,
        SegmentEventView::End(_) => false,
    }
}

/// Whether a segment is in progress after a stream of filter events.
pub open spec fn speaking_after_all(speaking: bool, evs: Seq<SegmentEventView>) -> bool
    decreases evs.len(),
{
    if evs.len() == 0 {
        speaking
    } else {
        speaking_after_all(speaking_after(speaking, evs[0]), evs.drop_first())
    }
}

/// Bookkeeping of one realtime transcription session.
pub struct RealtimeSession {
    source: Source,
    use_server_vad: bool,
    partials: Vec<(String, String)>,
    in_speech: bool,
}

impl RealtimeSession {
    /// Partial transcripts by item id.
    pub closed spec fn partials(&self) -> Map<Seq<char>, Seq<char>> {
        partials_map(self.partials@)
    }

    /// Whether a segment is in progress.
    pub closed spec fn speaking(&self) -> bool {
        self.in_speech
    }

    pub closed spec fn source_of(&self) -> Source {
        self.source
    }

    pub closed spec fn server_vad(&self) -> bool {
        self.use_server_vad
    }

    pub closed spec fn wf(&self) -> bool {
        keys_distinct(self.partials@)
    }

    /// A new session: no partials, not in speech.
    pub fn new(source: Source, use_server_vad: bool) -> (s: Self)
        ensures
            s.wf(),
            s.partials() == Map::<Seq<char>, Seq<char>>::empty(),
            !s.speaking(),
            s.source_of() == source,
            s.server_vad() == use_server_vad,
    {
        RealtimeSession { source, use_server_vad, partials: Vec::new(), in_speech: false }
    }

    /// A session may be recycled only between segments.
    pub fn may_recycle(&self) -> (r: bool)
        ensures
            r == !self.speaking(),
    {
        !self.in_speech
    }

    /// Index of the partial of `item_id`, if any.
    fn find_partial(&self, item_id: &String) -> (r: Option<usize>)
        requires
            self.wf(),
        ensures
            match r {
                Some(i) => i < self.partials@.len() && self.partials@[i as int].0@ == item_id@,
                None => !self.partials().dom().contains(item_id@),
            },
    {
        let mut i: usize = 0;
        while i < self.partials.len()
            invariant
                i <= self.partials@.len(),
                forall|j: int| 0 <= j < i ==> (#[trigger] self.partials@[j]).0@ != item_id@,
            decreases self.partials.len() - i,
        {
            if self.partials[i].0 == *item_id {
                return Some(i);
            }
            i = i + 1;
        }
        proof {
            lemma_partials_dom(self.partials@, item_id@);
        }
        None
    }

    /// Reacts to a segment event from the filter.
    pub fn on_segment(&mut self, ev: SegmentEvent) -> (a: SegmentAction)
        requires
            old(self).wf(),
            ev matches SegmentEvent::Audio { pcm, .. } ==> pcm@.len() <= usize::MAX / 4,
        ensures
            final(self).wf(),
            final(self).partials() == old(self).partials(),
            final(self).source_of() == old(self).source_of(),
            final(self).server_vad() == old(self).server_vad(),
            final(self).speaking() == speaking_after(old(self).speaking(), ev@),
            match ev {
                SegmentEvent::Start { .. } => final(self).speaking() && a is SpeechStarted,
                SegmentEvent::Audio { pcm, .. } => {
                    &&& final(self).speaking() == old(self).speaking()
                    &&& a matches SegmentAction::Send(Outbound::Append(b64))
                    &&& b64@ == base64_standard(pcm_le_bytes(pcm@))
                },
                SegmentEvent::End { .. } => {
                    &&& !final(self).speaking()
                    &&& if old(self).server_vad() {
                        &&& a matches SegmentAction::SegmentEnded(Outbound::Append(b64))
                        &&& b64@ == base64_standard(Seq::new(silence_tail_len(), |i: int| 0u8))
                    } else {
                        a matches SegmentAction::SegmentEnded(Outbound::Commit)
                    }
                },
            },
    {
        match ev {
            SegmentEvent::Start { .. } => {
                self.in_speech = true;
                SegmentAction::SpeechStarted
            },
            SegmentEvent::Audio { pcm, .. } => {
                let b64 = pcm_base64(pcm.as_slice());
                SegmentAction::Send(Outbound::Append(b64))
            },
            SegmentEvent::End { .. } => {
                self.in_speech = false;
                if self.use_server_vad {
                    SegmentAction::SegmentEnded(Outbound::Append(silence_tail_b64()))
                } else {
                    SegmentAction::SegmentEnded(Outbound::Commit)
                }
            },
        }
    }
}

/// A server action as mathematical values.
pub enum ServerActionView {
    Ignore,
    Partial(Seq<char>, Seq<char>),
    Final(Seq<char>, Seq<char>),
    ServerError(Seq<char>, Seq<char>),
    FatalAuth(Seq<char>),
}

impl View for ServerAction {
    type V = ServerActionView;

    open spec fn view(&self) -> ServerActionView {
        match self {
            ServerAction::Ignore => ServerActionView::Ignore,
            ServerAction::Partial { segment_id, text } => ServerActionView::Partial(
                segment_id@,
                text@,
            ),
            ServerAction::Final { segment_id, text } => ServerActionView::Final(
                segment_id@,
                text@,
            ),
            ServerAction::ServerError { code, message } => ServerActionView::ServerError(
                code@,
                message@,
            ),
            ServerAction::FatalAuth { message } => ServerActionView::FatalAuth(message@),
        }
    }
}

/// The session's reaction to a server event: the new partial transcripts and
/// the action.
pub open spec fn server_event_spec(
    p: Map<Seq<char>, Seq<char>>,
    source: Source,
    ev: ServerEventFields,
) -> (Map<Seq<char>, Seq<char>>, ServerActionView) {
    let et = field_or_empty(ev.event_type);
    if et == delta_type() {
        let item = field_or_empty(ev.item_id);
        let d = field_or_empty(ev.delta);
        if item.len() == 0 || d.len() == 0 {
            (p, ServerActionView::Ignore)
        } else {
            let prev = if p.dom().contains(item) {
                p[item]
            } else {
                Seq::empty()
            };
            let t = prev + d;
            (p.insert(item, t), ServerActionView::Partial(segment_id_spec(source, item), t))
        }
    } else if et == completed_type() {
        let item = field_or_empty(ev.item_id);
        let t = crate::text::trim(field_or_empty(ev.transcript));
        if t.len() == 0 {
            (p.remove(item), ServerActionView::Ignore)
        } else {
            (p.remove(item), ServerActionView::Final(segment_id_spec(source, item), t))
        }
    } else if et == "error"@ {
        let code = field_or_empty(ev.error_code);
        let msg = match ev.error_message {
            Some(m) => m@,
            None => "realtime API error"@,
        };
        if is_auth_error_code(code) {
            (p, ServerActionView::FatalAuth(msg))
        } else {
            (p, ServerActionView::ServerError(code, msg))
        }
    } else {
        (p, ServerActionView::Ignore)
    }
}

fn field_text(f: &Option<String>) -> (r: &str)
    ensures
        r@ == field_or_empty(*f),
{
    match f {
        Some(s) => s.as_str(),
        None => {
            proof {
                reveal_strlit("");
            }
            ""
        },
    }
}

impl RealtimeSession {
    /// Reacts to a server event: accumulates partial transcripts per item,
    /// finalizes completed items, and recognizes rejected API keys.
    pub fn on_server_event(&mut self, ev: ServerEventFields) -> (a: ServerAction)
        requires
            old(self).wf(),
        ensures
            final(self).wf(),
            final(self).speaking() == old(self).speaking(),
            final(self).source_of() == old(self).source_of(),
            final(self).server_vad() == old(self).server_vad(),
            (final(self).partials(), a@) == server_event_spec(
                old(self).partials(),
                old(self).source_of(),
                ev,
            ),
    {
        let ghost p0 = self.partials();
        let et = field_text(&ev.event_type);
        if crate::text::text_eq(et, "conversation.item.input_audio_transcription.delta") {
            let item_id = field_text(&ev.item_id);
            let delta = field_text(&ev.delta);
            if item_id.is_empty() || delta.is_empty() {
                return ServerAction::Ignore;
            }
            let key = item_id.to_owned();
            match self.find_partial(&key) {
                Some(i) => {
                    let mut t = self.partials[i].1.clone();
                    push_str(&mut t, delta);
                    let k2 = self.partials[i].0.clone();
                    proof {
                        lemma_partials_value(self.partials@, i as int);
                        lemma_partials_update(self.partials@, i as int, t);
                    }
                    self.partials.set(i, (k2, t.clone()));
                    proof {
                        lemma_partials_dom(old(self).partials@, key@);
                        assert(p0.dom().contains(key@));
                        assert(self.partials() =~= p0.insert(key@, t@));
                    }
                    ServerAction::Partial { segment_id: segment_id(self.source, item_id), text: t }
                },
                None => {
                    let t = delta.to_owned();
                    proof {
                        lemma_partials_push(self.partials@, key, t);
                    }
                    self.partials.push((key, t.clone()));
                    assert(t@ =~= Seq::<char>::empty() + delta@);
                    ServerAction::Partial { segment_id: segment_id(self.source, item_id), text: t }
                },
            }
        } else if crate::text::text_eq(
            et,
            "conversation.item.input_audio_transcription.completed",
        ) {
            let item_id = field_text(&ev.item_id);
            let transcript = crate::text::trim_text(field_text(&ev.transcript));
            let key = item_id.to_owned();
            match self.find_partial(&key) {
                Some(i) => {
                    proof {
                        lemma_partials_remove(self.partials@, i as int);
                    }
                    self.partials.remove(i);
                },
                None => {
                    assert(p0.remove(key@) =~= p0);
                },
            }
            if transcript.as_str().is_empty() {
                ServerAction::Ignore
            } else {
                ServerAction::Final { segment_id: segment_id(self.source, item_id), text: transcript }
            }
        } else if crate::text::text_eq(et, "error") {
            let code = field_text(&ev.error_code);
            let message = match &ev.error_message {
                Some(m) => m.clone(),
                None => "realtime API error".to_owned(),
            };
            if crate::text::text_contains(code, "invalid_api_key") || crate::text::text_contains(
                code,
                "auth",
            ) {
                ServerAction::FatalAuth { message }
            } else {
                ServerAction::ServerError { code: code.to_owned(), message }
            }
        } else {
            ServerAction::Ignore
        }
    }
}

/// Whether a failed connection handshake means the API key was rejected
/// (HTTP 401 or 403): then the session must not retry.
pub fn connect_error_is_auth(msg: &str) -> (r: bool)
    ensures
        r == (crate::text::occurs_in(msg@, "401"@) || crate::text::occurs_in(msg@, "403"@)),
{
    crate::text::text_contains(msg, "401") || crate::text::text_contains(msg, "403")
}

/// The `Authorization` header value for an API key.
pub fn bearer_value(api_key: &str) -> (r: String)
    ensures
        r@ == "Bearer "@ + api_key@,
{
    let mut r = "Bearer ".to_owned();
    push_str(&mut r, api_key);
    r
}

/// While disconnected, audio payloads are queued for replay (other events
/// are dropped) so the pipeline never backs up.
pub fn queue_while_disconnected(replay: &mut VecDeque<String>, bytes: &mut usize, ev: SegmentEvent)
    requires
        *old(bytes) == total_bytes(old(replay)@),
        *old(bytes) <= REPLAY_BUDGET_BYTES,
        ev matches SegmentEvent::Audio { pcm, .. } ==> pcm@.len() <= usize::MAX / 8,
    ensures
        *final(bytes) == total_bytes(final(replay)@),
        *final(bytes) <= REPLAY_BUDGET_BYTES,
        match ev {
            SegmentEvent::Audio { pcm, .. } => exists|b64: String|
                b64@ == base64_standard(pcm_le_bytes(pcm@)) && final(replay)@ == trim_to_budget(
                    old(replay)@.push(b64),
                ),
            _ => final(replay)@ == old(replay)@,
        },
{
    match ev {
        SegmentEvent::Audio { pcm, .. } => {
            let b64 = pcm_base64(pcm.as_slice());
            let ghost g = b64;
            proof {
                is_ascii_chars_encode_utf8(b64@);
                assert(b64@.len() <= usize::MAX / 2) by (nonlinear_arith)
                    requires
                        b64@.len() == 4 * ((2 * pcm@.len() + 2) / 3),
                        pcm@.len() <= usize::MAX / 8,
                ;
                assert(text_bytes(b64) == b64@.len());
            }
            push_replay(replay, bytes, b64);
            proof {
                lemma_replay_bounded(old(replay)@.push(g));
            }
        },
        _ => {},
    }
}

/// Reconnect delays stay within ±20% of a base that doubles from 0.5 s per
/// attempt and is capped at 30 s.
pub proof fn lemma_backoff_bounds(attempt: u32, j: nat)
    requires
        j < 400,
    ensures
        500 <= backoff_base_ms(attempt) <= 30_000,
        backoff_base_ms(attempt) * 800 <= backoff_micros(attempt, j),
        backoff_micros(attempt, j) < backoff_base_ms(attempt) * 1200,
        attempt < 5 ==> backoff_base_ms((attempt + 1) as u32) == 2 * backoff_base_ms(attempt),
        attempt >= 6 ==> backoff_base_ms(attempt) == 30_000,
{
    lemma2_to64();
    let b = backoff_base_ms(attempt);
    assert(b * 800 <= b * (800 + j)) by (nonlinear_arith);
    assert(b * (800 + j) < b * 1200) by (nonlinear_arith)
        requires
            j < 400,
            b >= 500,
    ;
}

/// Partial transcripts accumulate: two deltas for an item without a partial
/// leave the concatenation as its partial, and the second one shows it.
pub proof fn lemma_partials_accumulate(
    p: Map<Seq<char>, Seq<char>>,
    source: Source,
    e1: ServerEventFields,
    e2: ServerEventFields,
)
    requires
        field_or_empty(e1.event_type) == delta_type(),
        field_or_empty(e2.event_type) == delta_type(),
        field_or_empty(e1.item_id).len() > 0,
        field_or_empty(e1.item_id) == field_or_empty(e2.item_id),
        field_or_empty(e1.delta).len() > 0,
        field_or_empty(e2.delta).len() > 0,
        !p.dom().contains(field_or_empty(e1.item_id)),
    ensures
        ({
            let item = field_or_empty(e1.item_id);
            let text = field_or_empty(e1.delta) + field_or_empty(e2.delta);
            let (p1, _) = server_event_spec(p, source, e1);
            let (p2, a2) = server_event_spec(p1, source, e2);
            &&& p2[item] == text
            &&& a2 == ServerActionView::Partial(segment_id_spec(source, item), text)
        }),
{
    let item = field_or_empty(e1.item_id);
    assert(Seq::<char>::empty() + field_or_empty(e1.delta) =~= field_or_empty(e1.delta));
}

/// A session is recycled only between segments: fed any well-nested stream
/// of filter events (as the filter emits), it may recycle exactly when the
/// stream leaves no segment open.
pub proof fn lemma_recycle_only_between_segments(
    open: Option<Seq<char>>,
    evs: Seq<SegmentEventView>,
)
    requires
        segment_scan(open, evs) is Some,
    ensures
        speaking_after_all(open is Some, evs) == (segment_scan(open, evs)->0 is Some),
    decreases evs.len(),
{
    if evs.len() > 0 {
        let next: Option<Seq<char>> = match evs[0] {
            SegmentEventView::Start(id) => Some(id),
            SegmentEventView::Audio(_, _) => open,
            SegmentEventView::End(_) => None,
        };
        assert(speaking_after(open is Some, evs[0]) == (next is Some));
        lemma_recycle_only_between_segments(next, evs.drop_first());
    }
}

/// A session fed the events of the filter knows whether a segment is in
/// progress exactly when the filter is inside one: it never recycles in the
/// middle of speech and always may once the filter is idle again.
pub proof fn lemma_session_tracks_filter(
    m: GateModel,
    source: Source,
    acts: Seq<VoiceActivity>,
    ws: Seq<Seq<i16>>,
)
    requires
        model_wf(m, source),
        acts.len() == ws.len(),
    ensures
        speaking_after_all(m.state == GateState::Speech, run_spec(m, source, acts, ws).1) == (
        run_spec(m, source, acts, ws).0.state == GateState::Speech),
{
    lemma_run_segments_well_nested(m, source, acts, ws);
    lemma_recycle_only_between_segments(open_segment(m), run_spec(m, source, acts, ws).1);
}

/// A transcription delta extends the partial transcript of its own item and
/// leaves every other item's partial untouched: the partial shown is what
/// that item had (nothing, for a new item) followed by the delta.
pub proof fn lemma_delta_touches_only_its_item(
    p: Map<Seq<char>, Seq<char>>,
    source: Source,
    ev: ServerEventFields,
)
    requires
        field_or_empty(ev.event_type) == delta_type(),
        field_or_empty(ev.item_id).len() > 0,
        field_or_empty(ev.delta).len() > 0,
    ensures
        ({
            let item = field_or_empty(ev.item_id);
            let d = field_or_empty(ev.delta);
            let (p2, a) = server_event_spec(p, source, ev);
            let before = if p.dom().contains(item) {
                p[item]
            } else {
                Seq::empty()
            };
            &&& p2.remove(item) == p.remove(item)
            &&& p2.dom().contains(item)
            &&& p2[item] == before + d
            &&& a == ServerActionView::Partial(source_name(source) + "-"@ + item, before + d)
        }),
{
    let item = field_or_empty(ev.item_id);
    let (p2, a) = server_event_spec(p, source, ev);
    assert(p2.remove(item) =~= p.remove(item));
}

/// Deltas of different items interleave without disturbing each other: a
/// delta `d1` for item `a`, then `d2` for another item `b`, then `d3` for `a`,
/// show `d1 + d3` as `a`'s partial when `a` had none before.
pub proof fn lemma_interleaved_deltas(
    p: Map<Seq<char>, Seq<char>>,
    source: Source,
    e1: ServerEventFields,
    e2: ServerEventFields,
    e3: ServerEventFields,
)
    requires
        field_or_empty(e1.event_type) == delta_type(),
        field_or_empty(e2.event_type) == delta_type(),
        field_or_empty(e3.event_type) == delta_type(),
        field_or_empty(e1.item_id).len() > 0,
        field_or_empty(e2.item_id).len() > 0,
        field_or_empty(e1.item_id) == field_or_empty(e3.item_id),
        field_or_empty(e1.item_id) != field_or_empty(e2.item_id),
        field_or_empty(e1.delta).len() > 0,
        field_or_empty(e2.delta).len() > 0,
        field_or_empty(e3.delta).len() > 0,
        !p.dom().contains(field_or_empty(e1.item_id)),
    ensures
        ({
            let a = field_or_empty(e1.item_id);
            let (p1, _) = server_event_spec(p, source, e1);
            let (p2, _) = server_event_spec(p1, source, e2);
            let (p3, r) = server_event_spec(p2, source, e3);
            &&& r == ServerActionView::Partial(
                source_name(source) + "-"@ + a,
                field_or_empty(e1.delta) + field_or_empty(e3.delta),
            )
            &&& p3[a] == field_or_empty(e1.delta) + field_or_empty(e3.delta)
        }),
{
    let a = field_or_empty(e1.item_id);
    lemma_delta_touches_only_its_item(p, source, e1);
    let (p1, _) = server_event_spec(p, source, e1);
    lemma_delta_touches_only_its_item(p1, source, e2);
    let (p2, _) = server_event_spec(p1, source, e2);
    let b = field_or_empty(e2.item_id);
    assert(p2.remove(b).dom().contains(a) == p1.remove(b).dom().contains(a));
    assert(p1.remove(b).dom().contains(a));
    assert(p2.dom().contains(a));
    assert(p2.remove(b)[a] == p1.remove(b)[a]);
    assert(p2[a] == p1[a]);
    assert(Seq::<char>::empty() + field_or_empty(e1.delta) =~= field_or_empty(e1.delta));
    lemma_delta_touches_only_its_item(p2, source, e3);
}

/// PCM16 bytes decode back to the samples: byte `2i` is the low byte and
/// byte `2i + 1` the high byte of sample `i` in two's complement, as
/// `i16::from_le_bytes` reads them.
pub proof fn lemma_pcm_bytes_decode(pcm: Seq<i16>)
    ensures
        pcm_le_bytes(pcm).len() == 2 * pcm.len(),
        forall|i: int|
            0 <= i < pcm.len() ==> {
                let lo = pcm_le_bytes(pcm)[2 * i] as int;
                let hi = pcm_le_bytes(pcm)[2 * i + 1] as int;
                lo + 256 * hi - (if hi >= 128 {
                    65536int
                } else {
                    0int
                }) == #[trigger] pcm[i]
            },
{
    let b = pcm_le_bytes(pcm);
    assert forall|i: int| 0 <= i < pcm.len() implies {
        let lo = b[2 * i] as int;
        let hi = b[2 * i + 1] as int;
        lo + 256 * hi - (if hi >= 128 {
            65536int
        } else {
            0int
        }) == #[trigger] pcm[i]
    } by {
        assert((2 * i) / 2 == i);
        assert((2 * i + 1) / 2 == i);
        assert((2 * i) % 2 == 0);
        assert((2 * i + 1) % 2 == 1);
        let u = u16_bits(pcm[i]);
        assert(0 <= u < 65536);
        assert(b[2 * i] == (u % 256) as u8);
        assert(b[2 * i + 1] == (u / 256) as u8);
        assert((u % 256) + 256 * (u / 256) == u);
    }
}

/// A completed transcription ends only its own item's partial and every
/// other event leaves the partials as they are; only the two transcription
/// events change them.
pub proof fn lemma_events_touch_only_their_item(
    p: Map<Seq<char>, Seq<char>>,
    source: Source,
    ev: ServerEventFields,
)
    ensures
        ({
            let et = field_or_empty(ev.event_type);
            let item = field_or_empty(ev.item_id);
            let (p2, a) = server_event_spec(p, source, ev);
            &&& et == completed_type() ==> (p2 == p.remove(item) && (a is Final || a is Ignore))
            &&& (et != completed_type() && et != delta_type()) ==> p2 == p
        }),
{
    reveal_strlit("conversation.item.input_audio_transcription.delta");
    reveal_strlit("conversation.item.input_audio_transcription.completed");
    assert(delta_type().len() != completed_type().len());
}

} // verus!
