use std::collections::VecDeque;

use live_translate::commands::{
    is_known_action, overlay_size, test_key_result, KeyCheck, TestApiKeyResult,
};
use live_translate::devices::{describe, select_device, DeviceChoice};
use live_translate::error::AppError;
use live_translate::events::{millis_or_zero, now_ms, PipelineState};
use live_translate::keys::{
    delete_api_key, deletion_result, get_api_key, has_api_key, key_from_store, key_to_store,
    set_api_key, StoreError,
};
use live_translate::pipeline::{CaptureDecision, CaptureRecovery, PipelineRegistry};
use live_translate::realtime::{
    bearer_value, connect_error_is_auth, delay_micros, pcm_base64, queue_while_disconnected,
    segment_id, Outbound, RealtimeSession, SegmentAction, ServerAction, ServerEventFields,
};
use live_translate::state::Source;
use live_translate::text::{decimal_text, text_contains, trim_text};
use live_translate::translate::{
    lang_name, parse_sse, parse_u64, retry_decision, FinalTranscript, HttpOutcome,
    RetryDecision, TranslationQueue, TranslationStream,
};
use live_translate::vad::{SegmentEvent, VadEngine, VadGate, VoiceActivity, WINDOW_24K};
use live_translate::vad::VoiceActivity::{Silence, Speech, Uncertain};

fn ev(t: Option<&str>, item: Option<&str>, delta: Option<&str>, transcript: Option<&str>)
    -> ServerEventFields {
    ServerEventFields {
        event_type: t.map(String::from),
        item_id: item.map(String::from),
        delta: delta.map(String::from),
        transcript: transcript.map(String::from),
        error_code: None,
        error_message: None,
    }
}

const DELTA: &str = "conversation.item.input_audio_transcription.delta";
const COMPLETED: &str = "conversation.item.input_audio_transcription.completed";

#[test]
fn trim_removes_unicode_whitespace() {
    assert_eq!(trim_text("\u{3000} hi there \t\n"), "hi there");
    assert_eq!(trim_text("   "), "");
    assert_eq!(trim_text("x"), "x");
}

#[test]
fn decimal_text_matches_to_string() {
    for n in [0u64, 7, 10, 1234, u64::MAX] {
        assert_eq!(decimal_text(n), n.to_string());
    }
}

#[test]
fn contains_finds_substrings() {
    assert!(text_contains("err: invalid_api_key!", "invalid_api_key"));
    assert!(!text_contains("au", "auth"));
    assert!(text_contains("abc", ""));
}

#[test]
fn error_codes_and_messages() {
    let cases = vec![
        (AppError::NoDevice("x".into()), "no_device", "no audio device: x"),
        (AppError::InvalidKey, "invalid_key", "invalid or missing API key"),
        (AppError::Keyring("k".into()), "keyring", "credential storage error: k"),
        (AppError::Audio("a".into()), "device_lost", "audio error: a"),
        (AppError::Network("n".into()), "network", "network error: n"),
        (AppError::Internal("i".into()), "internal", "internal error: i"),
    ];
    for (e, code, msg) in cases {
        assert_eq!(e.code(), code);
        assert_eq!(e.message(), msg);
    }
}

#[test]
fn malformed_keys_are_rejected_before_storage() {
    for k in ["not-a-key", "  sk-1234 ", "", "xsk-12345678"] {
        match set_api_key(k) {
            Err(AppError::Internal(m)) => assert_eq!(
                m,
                "that does not look like an OpenAI API key (expected it to start with sk-)"
            ),
            other => panic!("unexpected {other:?}"),
        }
    }
}

#[test]
fn well_formed_key_reaches_the_store() {
    // Without a native store for the platform, keyring falls back to its mock
    // store, which accepts the trimmed key.
    assert!(set_api_key("  sk-abcdefgh  ").is_ok());
}

#[test]
fn the_trimmed_key_is_what_is_stored() {
    assert_eq!(key_to_store("  sk-abcdefgh \n").unwrap(), "sk-abcdefgh");
    assert!(matches!(key_to_store("sk-12"), Err(AppError::Internal(_))));
}

#[test]
fn store_outcomes_map_to_errors() {
    assert_eq!(key_from_store(Ok("sk-abcdefgh".into())).unwrap(), "sk-abcdefgh");
    assert!(matches!(key_from_store(Err(StoreError::NoEntry)), Err(AppError::InvalidKey)));
    match key_from_store(Err(StoreError::Other(keyring::Error::Invalid("user".into(), "empty".into())))) {
        Err(AppError::Keyring(m)) => assert_eq!(m, "Attribute user is invalid: empty"),
        other => panic!("unexpected {other:?}"),
    }
    assert!(deletion_result(Ok(())).is_ok());
    assert!(deletion_result(Err(StoreError::NoEntry)).is_ok());
    assert!(matches!(
        deletion_result(Err(StoreError::Other(keyring::Error::BadEncoding(vec![0xff])))),
        Err(AppError::Keyring(_))
    ));
}

#[test]
fn missing_key_is_invalid_key() {
    // Entries of the mock store start empty.
    assert!(matches!(get_api_key(), Err(AppError::InvalidKey)));
    assert!(!has_api_key());
    assert!(delete_api_key().is_ok());
}

#[test]
fn backoff_delays_are_exact() {
    assert_eq!(delay_micros(0, 0), 400_000);
    assert_eq!(delay_micros(0, 399), 599_500);
    assert_eq!(delay_micros(3, 1_000_000_123), 4_000 * 923);
    assert_eq!(delay_micros(6, 400), 24_000_000);
    assert_eq!(delay_micros(40, 799), 30_000 * 1_199);
}

#[test]
fn pcm_base64_encodes_little_endian_bytes() {
    assert_eq!(pcm_base64(&[1, -2]), "AQD+/w==");
    assert_eq!(pcm_base64(&[]), "");
}

#[test]
fn segment_ids_and_auth_header() {
    assert_eq!(segment_id(Source::Mic, "item_1"), "mic-item_1");
    assert_eq!(segment_id(Source::System, ""), "system-");
    assert_eq!(bearer_value("sk-x"), "Bearer sk-x");
    assert!(connect_error_is_auth("HTTP error: 401 Unauthorized"));
    assert!(connect_error_is_auth("HTTP error: 403 Forbidden"));
    assert!(!connect_error_is_auth("connection timed out"));
}

#[test]
fn partial_transcripts_accumulate_and_complete() {
    let mut s = RealtimeSession::new(Source::Mic, true);
    match s.on_server_event(ev(Some(DELTA), Some("it1"), Some("Hel"), None)) {
        ServerAction::Partial { segment_id, text } => {
            assert_eq!(segment_id, "mic-it1");
            assert_eq!(text, "Hel");
        }
        other => panic!("unexpected {other:?}"),
    }
    match s.on_server_event(ev(Some(DELTA), Some("it1"), Some("lo"), None)) {
        ServerAction::Partial { text, .. } => assert_eq!(text, "Hello"),
        other => panic!("unexpected {other:?}"),
    }
    match s.on_server_event(ev(Some(DELTA), Some("it2"), Some("x"), None)) {
        ServerAction::Partial { text, .. } => assert_eq!(text, "x"),
        other => panic!("unexpected {other:?}"),
    }
    match s.on_server_event(ev(Some(COMPLETED), Some("it1"), None, Some("  Hello.  "))) {
        ServerAction::Final { segment_id, text } => {
            assert_eq!(segment_id, "mic-it1");
            assert_eq!(text, "Hello.");
        }
        other => panic!("unexpected {other:?}"),
    }
    // The completed item's partial is gone: a new delta starts over.
    match s.on_server_event(ev(Some(DELTA), Some("it1"), Some("again"), None)) {
        ServerAction::Partial { text, .. } => assert_eq!(text, "again"),
        other => panic!("unexpected {other:?}"),
    }
}

#[test]
fn server_events_that_are_ignored() {
    let mut s = RealtimeSession::new(Source::System, false);
    assert!(matches!(
        s.on_server_event(ev(Some(DELTA), None, Some("x"), None)),
        ServerAction::Ignore
    ));
    assert!(matches!(
        s.on_server_event(ev(Some(DELTA), Some("a"), Some(""), None)),
        ServerAction::Ignore
    ));
    assert!(matches!(
        s.on_server_event(ev(Some(COMPLETED), Some("a"), None, Some(" \n "))),
        ServerAction::Ignore
    ));
    assert!(matches!(
        s.on_server_event(ev(Some("session.created"), None, None, None)),
        ServerAction::Ignore
    ));
    assert!(matches!(s.on_server_event(ev(None, None, None, None)), ServerAction::Ignore));
}

#[test]
fn server_errors_are_fatal_only_for_auth() {
    let mut s = RealtimeSession::new(Source::System, false);
    let mut e = ev(Some("error"), None, None, None);
    e.error_code = Some("invalid_api_key".into());
    e.error_message = Some("Incorrect API key".into());
    match s.on_server_event(e) {
        ServerAction::FatalAuth { message } => assert_eq!(message, "Incorrect API key"),
        other => panic!("unexpected {other:?}"),
    }
    let mut e = ev(Some("error"), None, None, None);
    e.error_code = Some("input_audio_buffer_commit_empty".into());
    match s.on_server_event(e) {
        ServerAction::ServerError { code, message } => {
            assert_eq!(code, "input_audio_buffer_commit_empty");
            assert_eq!(message, "realtime API error");
        }
        other => panic!("unexpected {other:?}"),
    }
}

#[test]
fn segment_events_drive_the_session() {
    let mut s = RealtimeSession::new(Source::Mic, true);
    assert!(s.may_recycle());
    assert!(matches!(
        s.on_segment(SegmentEvent::Start { id: "mic-seg-1".into() }),
        SegmentAction::SpeechStarted
    ));
    assert!(!s.may_recycle());
    match s.on_segment(SegmentEvent::Audio { id: "mic-seg-1".into(), pcm: vec![1, -2] }) {
        SegmentAction::Send(Outbound::Append(b64)) => assert_eq!(b64, "AQD+/w=="),
        other => panic!("unexpected {other:?}"),
    }
    match s.on_segment(SegmentEvent::End { id: "mic-seg-1".into() }) {
        SegmentAction::SegmentEnded(Outbound::Append(b64)) => assert_eq!(b64.len(), 32_000),
        other => panic!("unexpected {other:?}"),
    }
    assert!(s.may_recycle());

    let mut manual = RealtimeSession::new(Source::Mic, false);
    assert!(matches!(
        manual.on_segment(SegmentEvent::End { id: "x".into() }),
        SegmentAction::SegmentEnded(Outbound::Commit)
    ));
}

#[test]
fn audio_is_queued_while_disconnected() {
    let mut replay = VecDeque::new();
    let mut bytes = 0usize;
    queue_while_disconnected(&mut replay, &mut bytes, SegmentEvent::Start { id: "a".into() });
    assert!(replay.is_empty());
    queue_while_disconnected(
        &mut replay,
        &mut bytes,
        SegmentEvent::Audio { id: "a".into(), pcm: vec![1, -2] },
    );
    assert_eq!(replay, VecDeque::from(vec!["AQD+/w==".to_string()]));
    assert_eq!(bytes, 8);
    queue_while_disconnected(&mut replay, &mut bytes, SegmentEvent::End { id: "a".into() });
    assert_eq!(replay.len(), 1);
}

#[test]
fn lang_names_pass_unknown_codes_through() {
    assert_eq!(lang_name("en"), "English");
    assert_eq!(lang_name("uz"), "Uzbek (Latin script)");
    assert_eq!(lang_name("vi"), "Vietnamese");
    assert_eq!(lang_name("sw"), "sw");
    assert_eq!(lang_name(""), "");
}

fn ft(id: &str, text: &str, ts: u64) -> FinalTranscript {
    FinalTranscript { segment_id: id.into(), text: text.into(), ts }
}

#[test]
fn coalescing_uses_each_consecutive_gap() {
    let q = TranslationQueue::new();
    let (item, t) = q
        .prepare(vec![ft("a", "One", 1000), ft("b", "two", 2500), ft("c", "Three", 9000)])
        .unwrap();
    assert_eq!(item.text, "One two\nThree");
    assert_eq!(item.segment_id, "c");
    assert_eq!(item.ts, 9000);
    assert_eq!(t, "One two\nThree");
    // An earlier timestamp counts as no gap.
    let (item, _) = q.prepare(vec![ft("a", "x", 5000), ft("b", "y", 10)]).unwrap();
    assert_eq!(item.text, "x y");
}

#[test]
fn duplicates_and_blanks_are_not_translated() {
    let mut q = TranslationQueue::new();
    assert!(q.prepare(vec![ft("a", "   ", 1)]).is_none());
    let (_, t) = q.prepare(vec![ft("a", " Hello ", 1)]).unwrap();
    assert_eq!(t, "Hello");
    q.mark_translated(t);
    assert!(q.prepare(vec![ft("b", "Hello", 2)]).is_none());
    assert!(q.prepare(vec![ft("c", "Hello again", 3)]).is_some());
}

#[test]
fn retry_after_parses_like_u64_from_str() {
    assert_eq!(parse_u64("7"), Some(7));
    assert_eq!(parse_u64("+12"), Some(12));
    assert_eq!(parse_u64("18446744073709551615"), Some(u64::MAX));
    for bad in ["", "+", "-1", "1.5", " 3", "18446744073709551616", "12a"] {
        assert_eq!(parse_u64(bad), bad.parse::<u64>().ok(), "{bad}");
    }
}

#[test]
fn retry_policy_honors_retry_after_then_gives_up() {
    let mut attempt = 0u32;
    assert_eq!(retry_decision(&mut attempt, &HttpOutcome::Success), RetryDecision::Stream);
    assert_eq!(attempt, 0);
    let s = |code: u16, ra: Option<&str>| HttpOutcome::Status {
        code,
        retry_after: ra.map(String::from),
    };
    assert_eq!(retry_decision(&mut attempt, &s(401, None)), RetryDecision::InvalidKey);
    assert_eq!(retry_decision(&mut attempt, &s(403, None)), RetryDecision::InvalidKey);
    assert_eq!(attempt, 0);
    assert_eq!(retry_decision(&mut attempt, &s(429, Some("7"))), RetryDecision::Wait { secs: 7 });
    assert_eq!(retry_decision(&mut attempt, &s(500, Some("soon"))), RetryDecision::Wait { secs: 2 });
    assert_eq!(retry_decision(&mut attempt, &s(503, None)), RetryDecision::Wait { secs: 4 });
    assert_eq!(attempt, 3);
    assert_eq!(
        retry_decision(&mut attempt, &s(429, None)),
        RetryDecision::GiveUp { rate_limited: true }
    );

    let mut attempt = 0u32;
    assert_eq!(retry_decision(&mut attempt, &HttpOutcome::NetworkError), RetryDecision::Wait { secs: 1 });
    assert_eq!(retry_decision(&mut attempt, &HttpOutcome::NetworkError), RetryDecision::Wait { secs: 2 });
    assert_eq!(retry_decision(&mut attempt, &HttpOutcome::NetworkError), RetryDecision::Wait { secs: 4 });
    assert_eq!(retry_decision(&mut attempt, &HttpOutcome::NetworkError), RetryDecision::GiveUpNetwork);

    let mut attempt = 3u32;
    assert_eq!(
        retry_decision(&mut attempt, &s(500, None)),
        RetryDecision::GiveUp { rate_limited: false }
    );
}

#[test]
fn a_request_is_tried_at_most_four_times() {
    let outcomes = [
        HttpOutcome::Status { code: 500, retry_after: None },
        HttpOutcome::NetworkError,
        HttpOutcome::Status { code: 429, retry_after: Some("1".to_string()) },
        HttpOutcome::Status { code: 502, retry_after: None },
    ];
    let mut attempt = 0u32;
    let mut decisions = Vec::new();
    for o in &outcomes {
        decisions.push(retry_decision(&mut attempt, o));
    }
    assert_eq!(
        decisions,
        vec![
            RetryDecision::Wait { secs: 1 },
            RetryDecision::Wait { secs: 2 },
            RetryDecision::Wait { secs: 1 },
            RetryDecision::GiveUp { rate_limited: false },
        ]
    );
    assert_eq!(attempt, 4);
}

#[test]
fn translation_stream_accumulates_deltas() {
    let mut st = TranslationStream::new();
    assert_eq!(st.feed("data: {\"x\":1}\ndata: [DO"), vec!["{\"x\":1}".to_string()]);
    assert!(st.feed("NE]\n").is_empty());
    assert_eq!(st.add_delta(Some("  Salom".into())), Some("  Salom".to_string()));
    assert_eq!(st.add_delta(Some(String::new())), None);
    assert_eq!(st.add_delta(None), None);
    assert_eq!(st.add_delta(Some(" dunyo ".into())), Some(" dunyo ".to_string()));
    assert_eq!(st.finish(), Some("Salom dunyo".to_string()));
    assert_eq!(TranslationStream::new().finish(), None);
}

#[test]
fn streamed_payloads_become_translation_text() {
    let mut st = TranslationStream::new();
    let shown = st.feed_chunk(
        "data: {\"choices\":[{\"delta\":{\"role\":\"assistant\",\"content\":\"\"}}]}\n\ndata: {\"choices\":[{\"delta\":{\"content\":\" Sa",
    );
    assert!(shown.is_empty());
    let shown = st.feed_chunk("lom\"}}]}\n: keep-alive\ndata: not json\ndata: {\"choices\":[]}\n");
    assert_eq!(shown, vec![" Salom".to_string()]);
    let shown = st.feed_chunk(
        "data: {\"choices\":[{\"delta\":{\"content\":\", dunyo \"}}]}\ndata: [DONE]\n",
    );
    assert_eq!(shown, vec![", dunyo ".to_string()]);
    assert_eq!(st.finish(), Some("Salom, dunyo".to_string()));

    let mut one = TranslationStream::new();
    assert_eq!(one.add_payload("{\"choices\":[{\"delta\":{\"content\":\"Hi\"}}]}"), Some("Hi".to_string()));
    assert_eq!(one.add_payload("{\"choices\":[{\"delta\":{\"content\":7}}]}"), None);
    assert_eq!(one.add_payload("[DONE]"), None);
    assert_eq!(one.finish(), Some("Hi".to_string()));
}

#[test]
fn sse_chunking_matches_single_shot() {
    let stream = "data: a\r\n: comment\ndata:b\n\ndata:   \nevent: x\ndata: [DONE]\nda";
    let mut whole = String::new();
    let all = parse_sse(&mut whole, stream);
    assert_eq!(all, vec!["a", "b", "[DONE]"]);
    assert_eq!(whole, "da");
    for cut in 0..stream.len() {
        if !stream.is_char_boundary(cut) {
            continue;
        }
        let mut buf = String::new();
        let mut got = parse_sse(&mut buf, &stream[..cut]);
        got.extend(parse_sse(&mut buf, &stream[cut..]));
        assert_eq!(got, all, "cut at {cut}");
        assert_eq!(buf, whole);
    }
}

/// Answers from a fixed list, then silence.
struct Script(Vec<VoiceActivity>, usize);

impl VadEngine<u8> for Script {
    fn classify(&mut self, _: &[u8]) -> VoiceActivity {
        let a = self.0.get(self.1).copied().unwrap_or(VoiceActivity::Silence);
        self.1 += 1;
        a
    }
}

#[test]
fn filter_numbers_segments_and_keeps_partial_windows() {
    let mut g = VadGate::new(Script(vec![Speech, Uncertain, Speech, Speech, Speech], 0), Source::Mic);
    // Unequal amounts: only complete window pairs are decided (four here).
    let evts = g.push(&[0u8; 512 * 5], &vec![3i16; WINDOW_24K * 4 + 10]);
    assert!(evts.is_empty());
    // The fifth window completes with more payload samples and opens a segment.
    let evts = g.push(&[], &vec![3i16; WINDOW_24K - 10]);
    assert_eq!(evts.len(), 2);
    match (&evts[0], &evts[1]) {
        (SegmentEvent::Start { id }, SegmentEvent::Audio { id: id2, pcm }) => {
            assert_eq!(id, "mic-seg-1");
            assert_eq!(id2, "mic-seg-1");
            // The whole pre-roll: five windows.
            assert_eq!(pcm.len(), WINDOW_24K * 5);
        }
        other => panic!("unexpected {other:?}"),
    }
    assert!(g.can_accept(100));
}

#[test]
fn step_decisions_emit_payload_every_100_ms() {
    let mut g: VadGate<u8, Script> = VadGate::new(Script(vec![], 0), Source::System);
    let w = vec![1i16; WINDOW_24K];
    assert!(g.step(Speech, &w).is_empty());
    assert!(g.step(Speech, &w).is_empty());
    let e = g.step(Speech, &w);
    assert_eq!(e.len(), 2);
    // 768 * 3 = 2304 samples pending: below 2400, nothing yet.
    assert!(g.step(Uncertain, &w).is_empty());
    assert!(g.step(Uncertain, &w).is_empty());
    assert!(g.step(Uncertain, &w).is_empty());
    let e = g.step(Uncertain, &w);
    assert_eq!(e, vec![SegmentEvent::Audio { id: "system-seg-1".into(), pcm: vec![1; 768 * 4] }]);
    let mut ended = Vec::new();
    for _ in 0..22 {
        ended.extend(g.step(Silence, &w));
    }
    assert_eq!(ended.last(), Some(&SegmentEvent::End { id: "system-seg-1".into() }));
}

#[test]
fn onset_payload_is_the_most_recent_preroll() {
    let mut g: VadGate<u8, Script> = VadGate::new(Script(vec![], 0), Source::Mic);
    let mut fed: Vec<i16> = Vec::new();
    for k in 0..20i16 {
        let w = vec![k; WINDOW_24K];
        fed.extend_from_slice(&w);
        let act = if k % 3 == 0 { Speech } else { Silence };
        assert!(g.step(act, &w).is_empty());
    }
    let mut evts = Vec::new();
    for k in 20..23i16 {
        let w = vec![k; WINDOW_24K];
        fed.extend_from_slice(&w);
        evts = g.step(Speech, &w);
    }
    assert_eq!(evts.len(), 2);
    let expected = fed[fed.len() - 9_600..].to_vec();
    assert_eq!(evts[1], SegmentEvent::Audio { id: "mic-seg-1".into(), pcm: expected });
}

#[test]
fn capture_recovery_retries_three_times() {
    let mut r = CaptureRecovery::new();
    let dev = Some("dev-1".to_string());
    assert_eq!(r.on_capture_error(&dev), CaptureDecision::Retry { device_id: dev.clone() });
    assert_eq!(r.on_capture_error(&dev), CaptureDecision::Retry { device_id: dev.clone() });
    assert_eq!(r.on_capture_error(&dev), CaptureDecision::Retry { device_id: None });
    assert_eq!(r.on_capture_error(&dev), CaptureDecision::GiveUp);
}

#[test]
fn registry_holds_one_pipeline_per_source() {
    let mut reg: PipelineRegistry<u32> = PipelineRegistry::new();
    assert!(!reg.contains(Source::Mic));
    reg.insert(Source::Mic, 7);
    assert!(reg.contains(Source::Mic));
    assert!(!reg.contains(Source::System));
    assert_eq!(reg.get(Source::Mic), Some(&7));
    assert_eq!(reg.remove(Source::Mic), Some(7));
    assert_eq!(reg.remove(Source::Mic), None);
    assert_eq!(reg.get(Source::System), None);
}

#[test]
fn second_start_of_a_running_source_keeps_the_first() {
    let mut reg: PipelineRegistry<u32> = PipelineRegistry::new();
    assert!(reg.insert_if_absent(Source::System, 1));
    assert!(!reg.insert_if_absent(Source::System, 2));
    assert_eq!(reg.get(Source::System), Some(&1));
    assert!(reg.insert_if_absent(Source::Mic, 3));
    assert_eq!(reg.get(Source::Mic), Some(&3));
}

#[test]
fn command_on_a_stopped_source_reports_not_running() {
    let mut reg: PipelineRegistry<u32> = PipelineRegistry::new();
    match reg.running(Source::Mic) {
        Err(AppError::Internal(d)) => assert_eq!(d, "mic pipeline is not running"),
        other => panic!("unexpected {:?}", other),
    }
    let e = reg.running(Source::System).unwrap_err();
    assert_eq!(e.message(), "internal error: system pipeline is not running");
    assert_eq!(e.code(), "internal");
    reg.insert(Source::Mic, 5);
    assert_eq!(reg.running(Source::Mic).ok(), Some(&5));
}

#[test]
fn device_selection_by_id_or_name() {
    let c = vec![
        ("id-a".to_string(), "Speakers".to_string()),
        ("id-b".to_string(), "Headset".to_string()),
    ];
    assert_eq!(select_device(&c, &Some("id-b".into()), true), Ok(DeviceChoice::Index(1)));
    assert_eq!(select_device(&c, &Some("Speakers".into()), false), Ok(DeviceChoice::Index(0)));
    assert_eq!(
        select_device(&c, &Some("gone".into()), true),
        Err("audio device not found: gone".to_string())
    );
    assert_eq!(select_device(&c, &None, true), Ok(DeviceChoice::Default));
    assert_eq!(select_device(&c, &None, false), Err("no default audio device".to_string()));
    let d = describe("id-a".into(), "Speakers".into(), &Some("id-a".into()));
    assert!(d.is_default);
    let d = describe("id-b".into(), "Headset".into(), &Some("id-a".into()));
    assert!(!d.is_default);
    assert!(!describe("x".into(), "y".into(), &None).is_default);
}

fn verdict(c: KeyCheck) -> (bool, Option<String>) {
    let TestApiKeyResult { ok, error } = test_key_result(c);
    (ok, error)
}

#[test]
fn api_key_test_verdicts() {
    assert_eq!(verdict(KeyCheck::NoKey), (false, Some("no API key saved".into())));
    assert_eq!(verdict(KeyCheck::Status { code: 200, text: "200 OK".into() }), (true, None));
    assert_eq!(
        verdict(KeyCheck::Status { code: 401, text: "401 Unauthorized".into() }),
        (false, Some("OpenAI rejected this key (401 Unauthorized)".into()))
    );
    assert_eq!(
        verdict(KeyCheck::Status { code: 404, text: "404 Not Found".into() }),
        (false, Some("unexpected response: HTTP 404 Not Found".into()))
    );
    assert_eq!(
        verdict(KeyCheck::NetworkError { message: "dns".into() }),
        (false, Some("network error: dns".into()))
    );
}

#[test]
fn overlay_modes_and_shortcut_actions() {
    assert_eq!(overlay_size("interview"), (720, 190));
    assert_eq!(overlay_size("full"), (440, 520));
    for a in ["toggle_overlay", "start_stop", "swap_direction", "pause_resume", "clear_history"] {
        assert!(is_known_action(a));
    }
    assert!(!is_known_action("quit"));
}

#[test]
fn clock_and_states() {
    assert!(now_ms() > 1_600_000_000_000);
    assert_eq!(PipelineState::after_pause(true), PipelineState::Paused);
    assert_eq!(PipelineState::after_pause(false), PipelineState::Listening);
    assert_eq!(PipelineState::Reconnecting.name(), "reconnecting");
    assert_eq!(Source::System.name(), "system");
    assert_eq!(Source::Mic.to_text(), "mic");
}

#[test]
fn segments_are_well_nested_over_a_long_run() {
    // A mixed script of answers: short bursts, pauses, long speech.
    let mut script = Vec::new();
    for k in 0..40 {
        let n = (k * 7) % 13;
        for _ in 0..n {
            script.push(Speech);
        }
        for _ in 0..((k * 5) % 29) {
            script.push(if k % 3 == 0 { Uncertain } else { Silence });
        }
    }
    let total = script.len();
    let mut g = VadGate::new(Script(script, 0), Source::System);
    let evts = g.push(&vec![0u8; 512 * total], &vec![2i16; WINDOW_24K * total]);
    let mut open: Option<String> = None;
    let mut starts = Vec::new();
    for e in &evts {
        match e {
            SegmentEvent::Start { id } => {
                assert!(open.is_none());
                assert!(!starts.contains(id));
                starts.push(id.clone());
                open = Some(id.clone());
            }
            SegmentEvent::Audio { id, pcm } => {
                assert_eq!(open.as_ref(), Some(id));
                assert!(!pcm.is_empty());
            }
            SegmentEvent::End { id } => {
                assert_eq!(open.as_ref(), Some(id));
                open = None;
            }
        }
    }
    for (i, id) in starts.iter().enumerate() {
        assert_eq!(id, &format!("system-seg-{}", i + 1));
    }
    assert!(!starts.is_empty());
}

#[test]
fn session_may_recycle_only_while_the_filter_is_idle() {
    let mut script = Vec::new();
    for k in 0..12 {
        for _ in 0..(3 + k % 4) {
            script.push(Speech);
        }
        for _ in 0..(10 + 7 * (k % 3)) {
            script.push(Silence);
        }
    }
    let total = script.len();
    let mut g = VadGate::new(Script(script, 0), Source::Mic);
    let mut s = RealtimeSession::new(Source::Mic, false);
    let mut in_segment = false;
    for _ in 0..total {
        for e in g.push(&vec![0u8; 512], &vec![5i16; WINDOW_24K]) {
            match &e {
                SegmentEvent::Start { .. } => in_segment = true,
                SegmentEvent::End { .. } => in_segment = false,
                SegmentEvent::Audio { .. } => {}
            }
            s.on_segment(e);
        }
        assert_eq!(s.may_recycle(), !in_segment);
    }
}

#[test]
fn clock_readings_become_millisecond_timestamps() {
    assert_eq!(millis_or_zero(None), 0);
    assert_eq!(millis_or_zero(Some(1_700_000_000_123)), 1_700_000_000_123);
    assert_eq!(millis_or_zero(Some((1u128 << 64) + 5)), 5);
}

#[test]
fn a_segment_carries_preroll_then_every_speech_window() {
    let mut g: VadGate<u8, Script> = VadGate::new(Script(vec![], 0), Source::System);
    let mut idle: Vec<i16> = Vec::new();
    let mut evts = Vec::new();
    let mut k: i16 = 0;
    let feed = |g: &mut VadGate<u8, Script>, act: VoiceActivity, k: &mut i16| {
        let w: Vec<i16> = (0..WINDOW_24K as i16).map(|i| i.wrapping_mul(7).wrapping_add(*k)).collect();
        *k += 1;
        let e = g.step(act, &w);
        (w, e)
    };
    for _ in 0..15 {
        let (w, e) = feed(&mut g, Uncertain, &mut k);
        idle.extend_from_slice(&w);
        assert!(e.is_empty());
    }
    for _ in 0..3 {
        let (w, e) = feed(&mut g, Speech, &mut k);
        idle.extend_from_slice(&w);
        evts.extend(e);
    }
    let mut speech: Vec<i16> = Vec::new();
    for n in 0..40 {
        let act = if n < 18 { Uncertain } else { Silence };
        let (w, e) = feed(&mut g, act, &mut k);
        speech.extend_from_slice(&w);
        evts.extend(e);
    }
    assert_eq!(evts.first(), Some(&SegmentEvent::Start { id: "system-seg-1".into() }));
    assert_eq!(evts.last(), Some(&SegmentEvent::End { id: "system-seg-1".into() }));
    let mut audio: Vec<i16> = Vec::new();
    for e in &evts[1..evts.len() - 1] {
        match e {
            SegmentEvent::Audio { id, pcm } => {
                assert_eq!(id, "system-seg-1");
                audio.extend_from_slice(pcm);
            }
            other => panic!("unexpected {other:?}"),
        }
    }
    let mut expected = idle[idle.len() - 9_600..].to_vec();
    expected.extend_from_slice(&speech);
    assert_eq!(audio, expected);
}

#[test]
fn pushing_in_pieces_matches_one_push() {
    let mut answers = Vec::new();
    for k in 0..30 {
        answers.push(if k % 11 < 5 { Speech } else { Silence });
    }
    let s16 = vec![0u8; 512 * 30 + 100];
    let s24: Vec<i16> = (0..(WINDOW_24K * 30 + 50) as i32).map(|i| (i % 1000) as i16).collect();
    let mut whole = VadGate::new(Script(answers.clone(), 0), Source::Mic);
    let all = whole.push(&s16, &s24);
    let mut parts = VadGate::new(Script(answers, 0), Source::Mic);
    let mut got = Vec::new();
    let cuts16 = [0, 700, 701, 5000, 9000, s16.len()];
    let cuts24 = [0, 10, 2000, 2001, 16000, s24.len()];
    for i in 0..5 {
        got.extend(parts.push(&s16[cuts16[i]..cuts16[i + 1]], &s24[cuts24[i]..cuts24[i + 1]]));
    }
    assert_eq!(got, all);
    assert!(!all.is_empty());
}

/// Records every window it is handed; always answers silence.
struct Recorder(std::rc::Rc<std::cell::RefCell<Vec<Vec<u8>>>>);

impl VadEngine<u8> for Recorder {
    fn classify(&mut self, w: &[u8]) -> VoiceActivity {
        self.0.borrow_mut().push(w.to_vec());
        VoiceActivity::Silence
    }
}

#[test]
fn the_detector_is_handed_each_window_once_in_order() {
    let seen = std::rc::Rc::new(std::cell::RefCell::new(Vec::new()));
    let mut g = VadGate::new(Recorder(seen.clone()), Source::Mic);
    let s16: Vec<u8> = (0..512 * 7 + 300).map(|i| (i / 512) as u8 + (i % 3) as u8).collect();
    let s24 = vec![0i16; WINDOW_24K * 6 + 5];
    g.push(&s16[..1000], &s24[..100]);
    g.push(&s16[1000..], &s24[100..]);
    let seen = seen.borrow();
    // Six complete pairs: the 24 kHz side limits the count.
    assert_eq!(seen.len(), 6);
    for (k, w) in seen.iter().enumerate() {
        assert_eq!(w.as_slice(), &s16[512 * k..512 * (k + 1)]);
    }
}
