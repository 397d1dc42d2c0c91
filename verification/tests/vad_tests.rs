use live_translate::state::Source;
use live_translate::vad::{
    SegmentEvent, VadEngine, VadGate, VoiceActivity, MAX_SEGMENT_WINDOWS, VAD_WINDOW_16K,
    WINDOW_24K,
};

/// Scripted engine: returns a fixed probability sequence.
struct ScriptedVad {
    probs: Vec<f32>,
    i: usize,
}

/// Speech above the onset threshold, silence below the hangover threshold.
fn level(p: f32) -> VoiceActivity {
    if p > 0.5 {
        VoiceActivity::Speech
    } else if p < 0.35 {
        VoiceActivity::Silence
    } else {
        VoiceActivity::Uncertain
    }
}

impl VadEngine<f32> for ScriptedVad {
    fn classify(&mut self, _: &[f32]) -> VoiceActivity {
        let p = self.probs.get(self.i).copied().unwrap_or(0.0);
        self.i += 1;
        level(p)
    }
}

fn gate_with(probs: Vec<f32>) -> VadGate<f32, ScriptedVad> {
    VadGate::new(ScriptedVad { probs, i: 0 }, Source::System)
}

/// Feed n windows of matching 16k/24k audio filled with `value`.
fn feed(gate: &mut VadGate<f32, ScriptedVad>, windows: usize, value: i16) -> Vec<SegmentEvent> {
    let s16 = vec![0.0f32; VAD_WINDOW_16K * windows];
    let s24 = vec![value; WINDOW_24K * windows];
    gate.push(&s16, &s24)
}

fn count_starts(evts: &[SegmentEvent]) -> usize {
    evts.iter()
        .filter(|e| matches!(e, SegmentEvent::Start { .. }))
        .count()
}

fn count_ends(evts: &[SegmentEvent]) -> usize {
    evts.iter()
        .filter(|e| matches!(e, SegmentEvent::End { .. }))
        .count()
}

#[test]
fn silence_produces_no_events() {
    let mut g = gate_with(vec![0.0; 100]);
    let evts = feed(&mut g, 100, 0);
    assert!(evts.is_empty());
}

#[test]
fn onset_requires_three_consecutive_speech_windows() {
    // speech, speech, silence, speech, speech — never 3 in a row
    let mut g = gate_with(vec![0.9, 0.9, 0.1, 0.9, 0.9, 0.1]);
    assert!(feed(&mut g, 6, 1).is_empty());

    // 3 in a row opens the filter
    let mut g = gate_with(vec![0.9, 0.9, 0.9]);
    let evts = feed(&mut g, 3, 1);
    assert_eq!(count_starts(&evts), 1);
}

#[test]
fn preroll_flushed_on_start_contains_pre_speech_audio() {
    // 5 silence windows (value 7) then 3 speech windows (value 9)
    let mut probs = vec![0.0; 5];
    probs.extend([0.9, 0.9, 0.9]);
    let mut g = gate_with(probs);
    let mut evts = feed(&mut g, 5, 7);
    evts.extend(feed(&mut g, 3, 9));

    let first_audio = evts
        .iter()
        .find_map(|e| match e {
            SegmentEvent::Audio { pcm, .. } => Some(pcm),
            _ => None,
        })
        .expect("expected an Audio event");
    // Pre-roll must include the silence-valued samples preceding onset.
    assert!(first_audio.contains(&7), "pre-roll audio was clipped");
    assert!(first_audio.contains(&9));
}

#[test]
fn hangover_closes_segment_and_end_follows_start() {
    let mut probs = vec![0.9; 10]; // speech
    probs.extend(vec![0.0; 30]); // silence > 22 windows of hangover
    let mut g = gate_with(probs);
    let mut evts = feed(&mut g, 10, 1);
    evts.extend(feed(&mut g, 30, 0));
    assert_eq!(count_starts(&evts), 1);
    assert_eq!(count_ends(&evts), 1);
    // End must come after Start
    let start_idx = evts
        .iter()
        .position(|e| matches!(e, SegmentEvent::Start { .. }))
        .unwrap();
    let end_idx = evts
        .iter()
        .position(|e| matches!(e, SegmentEvent::End { .. }))
        .unwrap();
    assert!(end_idx > start_idx);
}

#[test]
fn brief_pause_within_hangover_does_not_split_segment() {
    let mut probs = vec![0.9; 5];
    probs.extend(vec![0.0; 10]); // pause shorter than 22 windows
    probs.extend(vec![0.9; 5]);
    probs.extend(vec![0.0; 30]); // real end
    let mut g = gate_with(probs);
    let mut evts = Vec::new();
    evts.extend(feed(&mut g, 5, 1));
    evts.extend(feed(&mut g, 10, 0));
    evts.extend(feed(&mut g, 5, 1));
    evts.extend(feed(&mut g, 30, 0));
    assert_eq!(count_starts(&evts), 1);
    assert_eq!(count_ends(&evts), 1);
}

#[test]
fn long_speech_is_force_split() {
    let windows = MAX_SEGMENT_WINDOWS as usize + 50;
    let mut g = gate_with(vec![0.9; windows + 10]);
    let evts = feed(&mut g, windows + 10, 1);
    assert!(count_ends(&evts) >= 1, "expected a forced split");
}

#[test]
fn segment_ids_are_unique_and_shared_within_segment() {
    let mut probs = vec![0.9; 10];
    probs.extend(vec![0.0; 30]);
    probs.extend(vec![0.9; 10]);
    probs.extend(vec![0.0; 30]);
    let mut g = gate_with(probs);
    let mut evts = Vec::new();
    evts.extend(feed(&mut g, 10, 1));
    evts.extend(feed(&mut g, 30, 0));
    evts.extend(feed(&mut g, 10, 1));
    evts.extend(feed(&mut g, 30, 0));

    let ids: Vec<&String> = evts
        .iter()
        .filter_map(|e| match e {
            SegmentEvent::Start { id } => Some(id),
            _ => None,
        })
        .collect();
    assert_eq!(ids.len(), 2);
    assert_ne!(ids[0], ids[1]);
}
