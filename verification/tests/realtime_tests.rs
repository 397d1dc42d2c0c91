use std::collections::VecDeque;
use std::time::Duration;

use base64::Engine as _;

use live_translate::realtime::{
    pcm_bytes, push_replay, silence_tail_b64, Backoff, REPLAY_BUDGET_BYTES, SILENCE_TAIL_MS,
};

#[test]
fn backoff_grows_and_caps_with_jitter_bounds() {
    let mut b = Backoff::new();
    let mut prev = Duration::ZERO;
    for i in 0..10 {
        let d = b.next_delay();
        // ±20% jitter around 0.5 * 2^min(i,6), capped at 30 s
        let base = (0.5 * 2.0_f64.powi(i.min(6))).min(30.0);
        assert!(d.as_secs_f64() >= base * 0.8 - 1e-9, "attempt {i}: {d:?}");
        assert!(d.as_secs_f64() <= base * 1.2 + 1e-9, "attempt {i}: {d:?}");
        if i > 0 && i < 6 {
            assert!(d.as_secs_f64() > prev.as_secs_f64() * 0.9);
        }
        prev = d;
    }
    b.reset();
    assert!(b.next_delay().as_secs_f64() <= 0.6 + 1e-9);
}

#[test]
fn replay_buffer_trims_oldest_beyond_budget() {
    let mut replay = VecDeque::new();
    let mut bytes = 0usize;
    // 20 chunks of 100 kB = 2 MB, budget is ~1.28 MB
    for i in 0..20 {
        let mut chunk = "0".repeat(100_000 - 2);
        chunk.push_str(&format!("{i:0>2}"));
        push_replay(&mut replay, &mut bytes, chunk);
    }
    assert!(bytes <= REPLAY_BUDGET_BYTES);
    assert!(replay.len() < 20);
    // Oldest entries were dropped, newest kept.
    assert!(replay.back().unwrap().ends_with("19"));
}

#[test]
fn pcm_bytes_is_little_endian() {
    assert_eq!(pcm_bytes(&[1, -2]), vec![1, 0, 0xFE, 0xFF]);
}

#[test]
fn silence_tail_is_expected_length() {
    let b64 = silence_tail_b64();
    let decoded = base64::engine::general_purpose::STANDARD.decode(b64).unwrap();
    assert_eq!(decoded.len(), 24_000 * 2 * SILENCE_TAIL_MS / 1000);
    assert!(decoded.iter().all(|&b| b == 0));
}
