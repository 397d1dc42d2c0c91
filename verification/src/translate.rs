//! Translation of finalized transcript segments: the interpreter prompt,
//! coalescing of queued segments, duplicate suppression, the retry policy
//! of the chat-completions request, and the incremental SSE parser of its
//! streamed response.

use vstd::arithmetic::power2::{lemma2_to64, pow2};
use vstd::prelude::*;

use crate::state::{LangPair, TranslationStyle};
use crate::text::{
    chars_of, decimal, digit_char, has_prefix, lemma_decimal_shape, push_char, push_str,
    string_from_chars, sub_chars, text_eq, trim, trim_bounds, trim_text,
};

verus! {

/// English name for an ISO 639-1 code; unknown codes stand for themselves.
pub open spec fn lang_name_spec(code: Seq<char>) -> Seq<char> {
    if code == "en"@ {
        "English"@
    } else if code == "uz"@ {
        "Uzbek (Latin script)"@
    } else if code == "ru"@ {
        "Russian"@
    } else if code == "tr"@ {
        "Turkish"@
    } else if code == "kk"@ {
        "Kazakh"@
    } else if code == "ky"@ {
        "Kyrgyz"@
    } else if code == "tg"@ {
        "Tajik"@
    } else if code == "az"@ {
        "Azerbaijani"@
    } else if code == "ar"@ {
        "Arabic"@
    } else if code == "fa"@ {
        "Persian"@
    } else if code == "es"@ {
        "Spanish"@
    } else if code == "fr"@ {
        "French"@
    } else if code == "de"@ {
        "German"@
    } else if code == "it"@ {
        "Italian"@
    } else if code == "pt"@ {
        "Portuguese"@
    } else if code == "hi"@ {
        "Hindi"@
    } else if code == "zh"@ {
        "Chinese"@
    } else if code == "ja"@ {
        "Japanese"@
    } else if code == "ko"@ {
        "Korean"@
    } else if code == "uk"@ {
        "Ukrainian"@
    } else if code == "id"@ {
        "Indonesian"@
    } else if code == "vi"@ {
        "Vietnamese"@
    } else {
        code
    }
}

/// English name for an ISO 639-1 code from the frontend language
/// dropdowns. Unknown codes pass through verbatim so new languages work
/// without a backend change.
pub fn lang_name<'a>(code: &'a str) -> (r: &'a str)
    ensures
        r@ == lang_name_spec(code@),
{
    if text_eq(code, "en") {
        "English"
    } else if text_eq(code, "uz") {
        "Uzbek (Latin script)"
    } else if text_eq(code, "ru") {
        "Russian"
    } else if text_eq(code, "tr") {
        "Turkish"
    } else if text_eq(code, "kk") {
        "Kazakh"
    } else if text_eq(code, "ky") {
        "Kyrgyz"
    } else if text_eq(code, "tg") {
        "Tajik"
    } else if text_eq(code, "az") {
        "Azerbaijani"
    } else if text_eq(code, "ar") {
        "Arabic"
    } else if text_eq(code, "fa") {
        "Persian"
    } else if text_eq(code, "es") {
        "Spanish"
    } else if text_eq(code, "fr") {
        "French"
    } else if text_eq(code, "de") {
        "German"
    } else if text_eq(code, "it") {
        "Italian"
    } else if text_eq(code, "pt") {
        "Portuguese"
    } else if text_eq(code, "hi") {
        "Hindi"
    } else if text_eq(code, "zh") {
        "Chinese"
    } else if text_eq(code, "ja") {
        "Japanese"
    } else if text_eq(code, "ko") {
        "Korean"
    } else if text_eq(code, "uk") {
        "Ukrainian"
    } else if text_eq(code, "id") {
        "Indonesian"
    } else if text_eq(code, "vi") {
        "Vietnamese"
    } else {
        code
    }
}

/// The direction line of the prompt.
pub open spec fn direction_line_spec(pair_source: Seq<char>, target: Seq<char>) -> Seq<char> {
    if pair_source == "auto"@ {
        "Detect the language of the user's text and translate it into "@ + target
            + ". If the text is already in "@ + target + ", return it unchanged."@
    } else {
        "Translate the user's text from "@ + lang_name_spec(pair_source) + " into "@ + target
            + "."@
    }
}

/// The style rule of the prompt.
pub open spec fn style_line_spec(style: TranslationStyle) -> Seq<char> {
    match style {
        TranslationStyle::Natural => "Translate meaning naturally and idiomatically — never word-by-word. Prefer how a \
             native speaker would actually phrase it in a live meeting."@,
        TranslationStyle::Literal => "Stay close to the original wording while keeping the output grammatical."@,
    }
}

/// The interpreter system prompt for a language pair and style.
pub open spec fn system_prompt_spec(pair_source: Seq<char>, pair_target: Seq<char>, style: TranslationStyle) -> Seq<char> {
    let target = lang_name_spec(pair_target);
    "You are a professional simultaneous interpreter for live technical meetings and \
         interviews.\n\n"@ + direction_line_spec(pair_source, target) + "\n\nRules:\n\
         - "@ + style_line_spec(style) + "\n\
         - Keep ALL technical terms, product names, and programming vocabulary in their \
         original (usually English) form: React, TypeScript, Next.js, API, backend, frontend, \
         deployment, Docker, Kubernetes, PostgreSQL, commit, sprint, endpoint, merge request, \
         and similar.\n\
         - Keep numbers, dates, URLs, emails, and code identifiers exactly as they are.\n\
         - Preserve the speaker's tone: a question stays a question.\n\
         - The text is live speech recognition output: it may be a fragment and may contain \
         fillers or recognition errors. Translate the most plausible intended meaning and drop \
         meaningless fillers.\n\
         - Output ONLY the translation — no commentary, no notes, no quotation marks."@
}

fn style_line(style: TranslationStyle) -> (r: &'static str)
    ensures
        r@ == style_line_spec(style),
{
    match style {
        TranslationStyle::Natural => "Translate meaning naturally and idiomatically — never word-by-word. Prefer how a \
             native speaker would actually phrase it in a live meeting.",
        TranslationStyle::Literal => "Stay close to the original wording while keeping the output grammatical.",
    }
}

/// The system prompt for the translation request.
pub fn build_system_prompt(pair: &LangPair, style: TranslationStyle) -> (r: String)
    ensures
        r@ == system_prompt_spec(pair.source@, pair.target@, style),
{
    let target = lang_name(pair.target.as_str());
    let mut direction_line = String::new();
    if text_eq(pair.source.as_str(), "auto") {
        push_str(&mut direction_line, "Detect the language of the user's text and translate it into ");
        push_str(&mut direction_line, target);
        push_str(&mut direction_line, ". If the text is already in ");
        push_str(&mut direction_line, target);
        push_str(&mut direction_line, ", return it unchanged.");
    } else {
        push_str(&mut direction_line, "Translate the user's text from ");
        push_str(&mut direction_line, lang_name(pair.source.as_str()));
        push_str(&mut direction_line, " into ");
        push_str(&mut direction_line, target);
        push_str(&mut direction_line, ".");
    }
    assert(direction_line@ =~= direction_line_spec(pair.source@, target@));
    let mut r = String::new();
    push_str(&mut r, "You are a professional simultaneous interpreter for live technical meetings and \
         interviews.\n\n");
    push_str(&mut r, direction_line.as_str());
    push_str(&mut r, "\n\nRules:\n\
         - ");
    push_str(&mut r, style_line(style));
    push_str(&mut r, "\n\
         - Keep ALL technical terms, product names, and programming vocabulary in their \
         original (usually English) form: React, TypeScript, Next.js, API, backend, frontend, \
         deployment, Docker, Kubernetes, PostgreSQL, commit, sprint, endpoint, merge request, \
         and similar.\n\
         - Keep numbers, dates, URLs, emails, and code identifiers exactly as they are.\n\
         - Preserve the speaker's tone: a question stays a question.\n\
         - The text is live speech recognition output: it may be a fragment and may contain \
         fillers or recognition errors. Translate the most plausible intended meaning and drop \
         meaningless fillers.\n\
         - Output ONLY the translation — no commentary, no notes, no quotation marks.");
    assert(r@ =~= system_prompt_spec(pair.source@, pair.target@, style));
    r
}

/// Finals arriving within this many milliseconds of each other are joined
/// with a space; farther apart, with a newline.
pub const COALESCE_WINDOW_MS: u64 = 2_000;

/// A finalized transcript segment handed from the transcription session to
/// the translator.
#[derive(Clone, Debug)]
pub struct FinalTranscript {
    pub segment_id: String,
    pub text: String,
    /// epoch ms when the final transcript arrived
    pub ts: u64,
}

/// `a.saturating_sub(b)`.
pub open spec fn sat_sub(a: u64, b: u64) -> nat {
    if a >= b {
        (a - b) as nat
    } else {
        0
    }
}

/// The separator placed between two consecutive finals.
pub open spec fn separator(prev_ts: u64, ts: u64) -> Seq<char> {
    if sat_sub(ts, prev_ts) <= COALESCE_WINDOW_MS {
        seq![' ']
    } else {
        seq!['\n']
    }
}

/// The merged text of a batch of finals.
pub open spec fn coalesced_text(items: Seq<FinalTranscript>) -> Seq<char>
    decreases items.len(),
{
    if items.len() == 0 {
        Seq::empty()
    } else if items.len() == 1 {
        items[0].text@
    } else {
        let prev = items.drop_last();
        coalesced_text(prev) + separator(prev.last().ts, items.last().ts) + items.last().text@
    }
}

proof fn lemma_coalesced_step(all: Seq<FinalTranscript>, i: int)
    requires
        0 <= i,
        i + 2 <= all.len(),
    ensures
        coalesced_text(all.take(i + 2)) == coalesced_text(all.take(i + 1)) + separator(
            all[i].ts,
            all[i + 1].ts,
        ) + all[i + 1].text@,
{
    let next = all.take(i + 2);
    assert(next.drop_last() =~= all.take(i + 1));
    assert(next.last() == all[i + 1]);
    assert(all.take(i + 1).last() == all[i]);
}

/// Merges a batch of queued finals into one transcript attributed to the
/// newest segment: texts in order, joined by a space when they arrived
/// within the coalescing window of each other and by a newline otherwise.
pub fn coalesce(items: Vec<FinalTranscript>) -> (r: FinalTranscript)
    requires
        items@.len() >= 1,
    ensures
        r.text@ == coalesced_text(items@),
        r.segment_id@ == items@.last().segment_id@,
        r.ts == items@.last().ts,
{
    let ghost all = items@;
    let mut items = items;
    let mut base = items.remove(0);
    assert(items@ =~= all.drop_first());
    let mut i: usize = 0;
    assert(all.take(1) =~= seq![all[0]]);
    while i < items.len()
        invariant
            items@ == all.drop_first(),
            items@.len() + 1 == all.len(),
            i <= items.len(),
            base.text@ == coalesced_text(all.take(i + 1)),
            base.segment_id@ == all[i as int].segment_id@,
            base.ts == all[i as int].ts,
        decreases items.len() - i,
    {
        let item_ts = items[i].ts;
        proof {
            lemma_coalesced_step(all, i as int);
            assert(items@[i as int] == all[i + 1]);
        }
        if item_ts.saturating_sub(base.ts) <= COALESCE_WINDOW_MS {
            push_char(&mut base.text, ' ');
        } else {
            push_char(&mut base.text, '\n');
        }
        push_str(&mut base.text, items[i].text.as_str());
        base.segment_id = items[i].segment_id.clone();
        base.ts = item_ts;
        assert(base.text@ =~= coalesced_text(all.take(i + 2)));
        i = i + 1;
    }
    assert(all.take(all.len() as int) == all);
    base
}

// ---------------------------------------------------------------------------
// Server-sent events
/// Index of the first newline of `s`, or -1.
pub open spec fn first_newline(s: Seq<char>) -> int
    decreases s.len(),
{
    if s.len() == 0 {
        -1
    } else if s[0] == '\n' {
        0
    } else {
        let r = first_newline(s.drop_first());
        if r < 0 {
            -1
        } else {
            r + 1
        }
    }
}

pub proof fn lemma_first_newline_bound(s: Seq<char>)
    ensures
        -1 <= first_newline(s) < s.len(),
        first_newline(s) >= 0 ==> s[first_newline(s)] == '\n',
        forall|k: int|
            0 <= k < (if first_newline(s) < 0 {
                s.len() as int
            } else {
                first_newline(s)
            }) ==> s[k] != '\n',
    decreases s.len(),
{
    if s.len() > 0 && s[0] != '\n' {
        let t = s.drop_first();
        lemma_first_newline_bound(t);
        assert forall|k: int|
            0 <= k < (if first_newline(s) < 0 {
                s.len() as int
            } else {
                first_newline(s)
            }) implies s[k] != '\n' by {
            if k > 0 {
                assert(s[k] == t[k - 1]);
            }
        }
    }
}

proof fn lemma_first_newline_at(s: Seq<char>, m: int)
    requires
        0 <= m <= s.len(),
        forall|k: int| 0 <= k < m ==> s[k] != '\n',
        m == s.len() || s[m] == '\n',
    ensures
        first_newline(s) == if m == s.len() {
            -1
        } else {
            m
        },
    decreases m,
{
    if m > 0 {
        let t = s.drop_first();
        assert forall|k: int| 0 <= k < m - 1 implies t[k] != '\n' by {
            assert(t[k] == s[k + 1]);
        }
        if m < s.len() {
            assert(t[m - 1] == s[m]);
        }
        lemma_first_newline_at(t, m - 1);
    }
}

/// `"data:"`.
pub open spec fn data_prefix() -> Seq<char> {
    seq!['d', 'a', 't', 'a', ':']
}

/// The payload of one SSE line (newline included): the trimmed text after
/// a `data:` prefix of the trimmed line, when that is not empty.
pub open spec fn sse_data(line: Seq<char>) -> Option<Seq<char>> {
    let t = trim(line);
    if has_prefix(t, data_prefix()) {
        let d = trim(t.skip(5));
        if d.len() > 0 {
            Some(d)
        } else {
            None
        }
    } else {
        None
    }
}

/// The payloads of the complete lines of `s`, in order.
pub open spec fn sse_payloads(s: Seq<char>) -> Seq<Seq<char>>
    decreases s.len(),
{
    let p = first_newline(s);
    if p < 0 {
        Seq::empty()
    } else {
        proof {
            lemma_first_newline_bound(s);
        }
        let rest = sse_payloads(s.skip(p + 1));
        match sse_data(s.take(p + 1)) {
            Some(d) => seq![d] + rest,
            None => rest,
        }
    }
}

/// What follows the last newline of `s` (all of `s` when it has none).
pub open spec fn sse_remainder(s: Seq<char>) -> Seq<char>
    decreases s.len(),
{
    let p = first_newline(s);
    if p < 0 {
        s
    } else {
        proof {
            lemma_first_newline_bound(s);
        }
        sse_remainder(s.skip(p + 1))
    }
}

/// The views of a sequence of strings.
pub open spec fn strings_view(v: Seq<String>) -> Seq<Seq<char>> {
    v.map_values(|s: String| s@)
}

/// Incremental SSE parser: appends `chunk` to `buffer`, returns the payloads
/// of the `data:` lines that are now complete, and keeps the incomplete
/// tail in `buffer`.
pub fn parse_sse(buffer: &mut String, chunk: &str) -> (out: Vec<String>)
    ensures
        strings_view(out@) == sse_payloads(old(buffer)@ + chunk@),
        final(buffer)@ == sse_remainder(old(buffer)@ + chunk@),
{
    let mut all = chars_of(buffer.as_str());
    let tail = chars_of(chunk);
    let mut t: usize = 0;
    while t < tail.len()
        invariant
            t <= tail.len(),
            tail@ == chunk@,
            all@ == old(buffer)@ + chunk@.take(t as int),
        decreases tail.len() - t,
    {
        all.push(tail[t]);
        t = t + 1;
        assert(chunk@.take(t as int) == chunk@.take(t - 1).push(chunk@[t - 1]));
    }
    assert(chunk@.take(chunk@.len() as int) == chunk@);
    let ghost s = all@;
    let mut out: Vec<String> = Vec::new();
    let mut start: usize = 0;
    let mut i: usize = 0;
    assert(s.skip(0) == s);
    while i < all.len()
        invariant
            all@ == s,
            start <= i <= all.len(),
            forall|k: int| start <= k < i ==> s[k] != '\n',
            sse_payloads(s) == strings_view(out@) + sse_payloads(s.skip(start as int)),
            sse_remainder(s) == sse_remainder(s.skip(start as int)),
        decreases all.len() - i,
    {
        if all[i] == '\n' {
            let ghost rest = s.skip(start as int);
            proof {
                assert forall|k: int| 0 <= k < i - start implies rest[k] != '\n' by {
                    assert(rest[k] == s[start + k]);
                }
                assert(rest[i - start] == s[i as int]);
                lemma_first_newline_at(rest, i - start);
                assert(rest.take(i - start + 1) =~= s.subrange(start as int, i + 1));
                assert(rest.skip(i - start + 1) =~= s.skip(i + 1));
            }
            let ghost line = s.subrange(start as int, i + 1);
            let ghost before = strings_view(out@);
            let (a, b) = trim_bounds(&all, start, i + 1);
            let mut found = false;
            if b - a >= 5 && all[a] == 'd' && all[a + 1] == 'a' && all[a + 2] == 't' && all[a + 3]
                == 'a' && all[a + 4] == ':' {
                let (c, d) = trim_bounds(&all, a + 5, b);
                proof {
                    let tl = trim(line);
                    assert(tl == s.subrange(a as int, b as int));
                    assert(tl.take(5) =~= data_prefix());
                    assert(tl.skip(5) =~= s.subrange(a + 5, b as int));
                }
                if d > c {
                    let piece = sub_chars(&all, c, d);
                    out.push(string_from_chars(piece.as_slice()));
                    found = true;
                    proof {
                        assert(strings_view(out@) =~= before.push(s.subrange(c as int, d as int)));
                    }
                }
            } else {
                proof {
                    let tl = trim(line);
                    assert(tl == s.subrange(a as int, b as int));
                    if has_prefix(tl, data_prefix()) {
                        assert(tl[0] == data_prefix()[0]);
                        assert(tl[1] == data_prefix()[1]);
                        assert(tl[2] == data_prefix()[2]);
                        assert(tl[3] == data_prefix()[3]);
                        assert(tl[4] == data_prefix()[4]);
                    }
                }
            }
            proof {
                assert(strings_view(out@) + sse_payloads(s.skip(i + 1)) =~= before
                    + sse_payloads(rest));
            }
            start = i + 1;
        }
        i = i + 1;
    }
    proof {
        let rest = s.skip(start as int);
        assert forall|k: int| 0 <= k < rest.len() implies rest[k] != '\n' by {
            assert(rest[k] == s[start + k]);
        }
        lemma_first_newline_at(rest, rest.len() as int);
        assert(strings_view(out@) + sse_payloads(rest) =~= strings_view(out@));
    }
    let rem = sub_chars(&all, start, all.len());
    *buffer = string_from_chars(rem.as_slice());
    assert(rem@ =~= s.skip(start as int));
    out
}

// ---------------------------------------------------------------------------
// Duplicate suppression
/// The text to translate for a batch, or `None` when the merged text is
/// blank or repeats the last translated text.
pub open spec fn translation_input(last: Seq<char>, batch: Seq<FinalTranscript>) -> Option<
    Seq<char>,
> {
    let t = trim(coalesced_text(batch));
    if t.len() == 0 || t == last {
        None
    } else {
        Some(t)
    }
}

/// Remembers the last text that was translated so consecutive duplicates
/// are skipped.
pub struct TranslationQueue {
    last_translated: String,
}

impl TranslationQueue {
    /// The last text translated successfully.
    pub closed spec fn last(&self) -> Seq<char> {
        self.last_translated@
    }

    pub fn new() -> (q: Self)
        ensures
            q.last() == Seq::<char>::empty(),
    {
        TranslationQueue { last_translated: String::new() }
    }

    /// Coalesces a batch of finals; returns the merged item and its trimmed
    /// text when it should be translated.
    pub fn prepare(&self, batch: Vec<FinalTranscript>) -> (r: Option<(FinalTranscript, String)>)
        requires
            batch@.len() >= 1,
        ensures
            match r {
                Some((item, t)) => {
                    &&& translation_input(self.last(), batch@) == Some(t@)
                    &&& item.text@ == coalesced_text(batch@)
                    &&& item.segment_id@ == batch@.last().segment_id@
                    &&& item.ts == batch@.last().ts
                },
                None => translation_input(self.last(), batch@) is None,
            },
    {
        let item = coalesce(batch);
        let trimmed = trim_text(item.text.as_str());
        if trimmed.as_str().is_empty() || trimmed == self.last_translated {
            None
        } else {
            Some((item, trimmed))
        }
    }

    /// Records a successful translation of `trimmed`.
    pub fn mark_translated(&mut self, trimmed: String)
        ensures
            final(self).last() == trimmed@,
    {
        self.last_translated = trimmed;
    }
}

/// A batch whose merged text repeats the text just translated is never
/// translated again.
pub proof fn lemma_duplicate_skipped(last: Seq<char>, batch: Seq<FinalTranscript>)
    requires
        trim(coalesced_text(batch)) == last,
    ensures
        translation_input(last, batch) is None,
{
}

// ---------------------------------------------------------------------------
// Retry policy
/// Attempts after the first before a translation is dropped.
pub const MAX_RETRIES: u32 = 3;

/// What came back from one chat-completions request.
#[derive(Debug)]
pub enum HttpOutcome {
    /// A 2xx status: the body can be streamed.
    Success,
    /// Any other status, with the `Retry-After` header as text when present
    /// and readable.
    Status { code: u16, retry_after: Option<String> },
    /// The request did not complete.
    NetworkError,
}

/// What to do next about a translation request.
#[derive(Debug, PartialEq, Eq, Structural)]
pub enum RetryDecision {
    /// Stream the response.
    Stream,
    /// The key was rejected (401/403): report it and drop the segment.
    InvalidKey,
    /// Wait this many seconds, then retry.
    Wait { secs: u64 },
    /// Retries are exhausted after HTTP errors; `rate_limited` when the last
    /// status was 429 (the user is told a segment was skipped).
    GiveUp { rate_limited: bool },
    /// Retries are exhausted after network failures (the user is told).
    GiveUpNetwork,
}

/// Whether `c` is an ASCII digit.
pub open spec fn is_digit(c: char) -> bool {
    '0' <= c && c <= '9'
}

/// Every character is an ASCII digit.
pub open spec fn all_digits(s: Seq<char>) -> bool {
    forall|i: int| 0 <= i < s.len() ==> is_digit(#[trigger] s[i])
}

/// The value of a string of ASCII digits.
pub open spec fn digits_value(s: Seq<char>) -> nat
    decreases s.len(),
{
    if s.len() == 0 {
        0
    } else {
        digits_value(s.drop_last()) * 10 + ((s.last() as u32) - ('0' as u32)) as nat
    }
}

/// `u64::from_str`: an optional `+` followed by one or more ASCII digits
/// whose value fits in a `u64`.
pub open spec fn parse_u64_spec(s: Seq<char>) -> Option<u64> {
    let body = if s.len() > 0 && s[0] == '+' {
        s.drop_first()
    } else {
        s
    };
    if body.len() > 0 && all_digits(body) && digits_value(body) <= u64::MAX {
        Some(digits_value(body) as u64)
    } else {
        None
    }
}

proof fn lemma_digits_value_mono(s: Seq<char>, i: int)
    requires
        0 <= i <= s.len(),
        all_digits(s),
    ensures
        digits_value(s.take(i)) <= digits_value(s),
    decreases s.len() - i,
{
    if i < s.len() {
        lemma_digits_value_mono(s, i + 1);
        let t = s.take(i + 1);
        assert(t.drop_last() =~= s.take(i));
        assert(t.last() == s[i]);
        assert(is_digit(s[i]));
    } else {
        assert(s.take(i) == s);
    }
}

/// Parses a decimal `u64` as `str::parse::<u64>` does.
pub fn parse_u64(text: &str) -> (r: Option<u64>)
    ensures
        r == parse_u64_spec(text@),
{
    let v = chars_of(text);
    let mut start: usize = 0;
    if v.len() > 0 && v[0] == '+' {
        start = 1;
    }
    let ghost body = v@.skip(start as int);
    assert(body =~= (if v@.len() > 0 && v@[0] == '+' {
        v@.drop_first()
    } else {
        v@
    }));
    if start == v.len() {
        assert(body.len() == 0);
        return None;
    }
    let mut value: u64 = 0;
    let mut i = start;
    while i < v.len()
        invariant
            start <= i <= v.len(),
            v@ == text@,
            body == v@.skip(start as int),
            body.len() > 0,
            parse_u64_spec(text@) == (if all_digits(body) && digits_value(body) <= u64::MAX {
                Some(digits_value(body) as u64)
            } else {
                None
            }),
            forall|k: int| 0 <= k < i - start ==> is_digit(#[trigger] body[k]),
            value == digits_value(body.take(i - start)),
        decreases v.len() - i,
    {
        let c = v[i];
        if !('0' <= c && c <= '9') {
            assert(!is_digit(body[i - start]));
            assert(!all_digits(body));
            return None;
        }
        let d = (c as u32 - '0' as u32) as u64;
        proof {
            let t = body.take(i - start + 1);
            assert(t.drop_last() =~= body.take(i - start));
            assert(t.last() == c);
        }
        match value.checked_mul(10) {
            Some(m) => match m.checked_add(d) {
                Some(n) => {
                    value = n;
                },
                None => {
                    proof {
                        if all_digits(body) {
                            lemma_digits_value_mono(body, i - start + 1);
                        }
                    }
                    return None;
                },
            },
            None => {
                proof {
                    if all_digits(body) {
                        lemma_digits_value_mono(body, i - start + 1);
                    }
                }
                return None;
            },
        }
        i = i + 1;
    }
    assert(body.take(body.len() as int) == body);
    Some(value)
}

/// `1 << (attempt - 1)` seconds for `attempt` in `1..=3`.
pub open spec fn retry_backoff_secs(attempt: u32) -> nat {
    pow2((attempt - 1) as nat)
}

/// The wait before retry number `attempt`: the `Retry-After` seconds when
/// the header parses as a number, else the exponential backoff.
pub open spec fn retry_wait_secs(attempt: u32, retry_after: Option<String>) -> u64 {
    match retry_after {
        Some(t) => match parse_u64_spec(t@) {
            Some(n) => n,
            None => retry_backoff_secs(attempt) as u64,
        },
        None => retry_backoff_secs(attempt) as u64,
    }
}

/// The failure count after one request attempt and the decision taken.
pub open spec fn retry_spec(attempt: u32, outcome: HttpOutcome) -> (u32, RetryDecision) {
    match outcome {
        HttpOutcome::Success => (attempt, RetryDecision::Stream),
        HttpOutcome::Status { code, retry_after } => if code == 401 || code == 403 {
            (attempt, RetryDecision::InvalidKey)
        } else {
            let a = (attempt + 1) as u32;
            if a > MAX_RETRIES {
                (a, RetryDecision::GiveUp { rate_limited: code == 429 })
            } else {
                (a, RetryDecision::Wait { secs: retry_wait_secs(a, retry_after) })
            }
        },
        HttpOutcome::NetworkError => {
            let a = (attempt + 1) as u32;
            if a > MAX_RETRIES {
                (a, RetryDecision::GiveUpNetwork)
            } else {
                (a, RetryDecision::Wait { secs: retry_backoff_secs(a) as u64 })
            }
        },
    }
}

/// Decides what follows one request attempt; `attempt` counts the failed
/// attempts so far and is advanced on every failure that may be retried.
pub fn retry_decision(attempt: &mut u32, outcome: &HttpOutcome) -> (d: RetryDecision)
    requires
        *old(attempt) <= MAX_RETRIES,
    ensures
        (*final(attempt), d) == retry_spec(*old(attempt), *outcome),
{
    proof {
        lemma2_to64();
    }
    match outcome {
        HttpOutcome::Success => RetryDecision::Stream,
        HttpOutcome::Status { code, retry_after } => {
            if *code == 401 || *code == 403 {
                return RetryDecision::InvalidKey;
            }
            let parsed = match retry_after {
                Some(t) => parse_u64(t.as_str()),
                None => None,
            };
            *attempt = *attempt + 1;
            if *attempt > MAX_RETRIES {
                return RetryDecision::GiveUp { rate_limited: *code == 429 };
            }
            let secs = match parsed {
                Some(n) => n,
                None => 1u64 << (*attempt - 1),
            };
            proof {
                assert(1u64 << 0u32 == 1) by (bit_vector);
                assert(1u64 << 1u32 == 2) by (bit_vector);
                assert(1u64 << 2u32 == 4) by (bit_vector);
            }
            RetryDecision::Wait { secs }
        },
        HttpOutcome::NetworkError => {
            *attempt = *attempt + 1;
            if *attempt > MAX_RETRIES {
                return RetryDecision::GiveUpNetwork;
            }
            proof {
                assert(1u64 << 0u32 == 1) by (bit_vector);
                assert(1u64 << 1u32 == 2) by (bit_vector);
                assert(1u64 << 2u32 == 4) by (bit_vector);
            }
            RetryDecision::Wait { secs: 1u64 << (*attempt - 1) }
        },
    }
}

/// A failure after which the request may be tried again: anything but a
/// success or a rejected key.
pub open spec fn retryable(o: HttpOutcome) -> bool {
    match o {
        HttpOutcome::Success => false,
        HttpOutcome::Status { code, .. } => code != 401 && code != 403,
        HttpOutcome::NetworkError => true,
    }
}

/// The decisions taken for consecutive outcomes of one request, starting
/// from `attempt` failures.
pub open spec fn retry_run(attempt: u32, outs: Seq<HttpOutcome>) -> (u32, Seq<RetryDecision>)
    decreases outs.len(),
{
    if outs.len() == 0 {
        (attempt, Seq::empty())
    } else {
        let (a1, ds) = retry_run(attempt, outs.drop_last());
        let (a2, d) = retry_spec(a1, outs.last());
        (a2, ds.push(d))
    }
}

/// A translation request never stalls the queue: of consecutive retryable
/// failures of a fresh request, the first `MAX_RETRIES` each wait and the
/// next gives the segment up, so at most `MAX_RETRIES + 1` attempts are made.
pub proof fn lemma_retries_bounded(outs: Seq<HttpOutcome>)
    requires
        outs.len() <= MAX_RETRIES + 1,
        forall|i: int| 0 <= i < outs.len() ==> retryable(#[trigger] outs[i]),
    ensures
        retry_run(0, outs).0 == outs.len(),
        retry_run(0, outs).1.len() == outs.len(),
        forall|i: int|
            0 <= i < outs.len() ==> ((#[trigger] retry_run(0, outs).1[i] is Wait) <==> i
                < MAX_RETRIES),
        forall|i: int|
            0 <= i < outs.len() ==> ((#[trigger] retry_run(0, outs).1[i] is GiveUp || retry_run(
                0,
                outs,
            ).1[i] is GiveUpNetwork) <==> i == MAX_RETRIES),
    decreases outs.len(),
{
    if outs.len() > 0 {
        let d = outs.drop_last();
        assert forall|i: int| 0 <= i < d.len() implies retryable(#[trigger] d[i]) by {
            assert(d[i] == outs[i]);
        }
        lemma_retries_bounded(d);
        assert(retryable(outs.last()));
    }
}

// ---------------------------------------------------------------------------
// Streamed response
/// `"[DONE]"`.
pub open spec fn done_marker() -> Seq<char> {
    seq!['[', 'D', 'O', 'N', 'E', ']']
}

/// Payloads other than the end-of-stream marker.
pub open spec fn without_done(s: Seq<Seq<char>>) -> Seq<Seq<char>>
    decreases s.len(),
{
    if s.len() == 0 {
        Seq::empty()
    } else if s.last() == done_marker() {
        without_done(s.drop_last())
    } else {
        without_done(s.drop_last()).push(s.last())
    }
}

/// The content delta that a streamed chat-completions payload carries: the
/// string at `choices[0].delta.content` of the payload read as JSON, or
/// `None` when the payload is not JSON or holds no string there.
pub uninterp spec fn chat_delta_content(payload: Seq<char>) -> Option<Seq<char>>;

/// `serde_json::from_str::<serde_json::Value>` on a payload, then
/// `choices[0].delta.content` as a string: the result is
/// [`chat_delta_content`] of the payload, a function of the payload alone
/// (indexing a `Value` never panics; a missing key or index reads as null).
#[verifier::external_body]
fn chunk_delta(payload: &str) -> (r: Option<String>)
    ensures
        match r {
            Some(s) => chat_delta_content(payload@) == Some(s@),
            None => chat_delta_content(payload@) is None,
        },
{
    let v: serde_json::Value = serde_json::from_str(payload).ok()?;
    v["choices"][0]["delta"]["content"].as_str().map(String::from)
}

/// The non-empty content deltas of a sequence of payloads, in order.
pub open spec fn shown_deltas(ps: Seq<Seq<char>>) -> Seq<Seq<char>>
    decreases ps.len(),
{
    if ps.len() == 0 {
        Seq::empty()
    } else {
        let rest = shown_deltas(ps.drop_last());
        match chat_delta_content(ps.last()) {
            Some(d) => if d.len() > 0 {
                rest.push(d)
            } else {
                rest
            },
            None => rest,
        }
    }
}

/// The translation text one payload carries: its content delta, or nothing.
pub open spec fn delta_of(payload: Seq<char>) -> Seq<char> {
    match chat_delta_content(payload) {
        Some(d) => d,
        None => Seq::empty(),
    }
}

/// The translation text that a sequence of payloads carries: their content
/// deltas, concatenated in order.
pub open spec fn delta_text(ps: Seq<Seq<char>>) -> Seq<char>
    decreases ps.len(),
{
    if ps.len() == 0 {
        Seq::empty()
    } else {
        delta_text(ps.drop_last()) + delta_of(ps.last())
    }
}

/// Accumulates a streamed translation.
pub struct TranslationStream {
    buffer: String,
    full_text: String,
}

impl TranslationStream {
    /// Incomplete SSE line carried over between chunks.
    pub closed spec fn pending(&self) -> Seq<char> {
        self.buffer@
    }

    /// Translation text received so far.
    pub closed spec fn text(&self) -> Seq<char> {
        self.full_text@
    }

    pub fn new() -> (s: Self)
        ensures
            s.pending() == Seq::<char>::empty(),
            s.text() == Seq::<char>::empty(),
    {
        TranslationStream { buffer: String::new(), full_text: String::new() }
    }

    /// Feeds a decoded chunk of the response body; returns the JSON payloads
    /// of the `data:` lines completed by it, without the `[DONE]` marker.
    pub fn feed(&mut self, chunk: &str) -> (out: Vec<String>)
        ensures
            strings_view(out@) == without_done(sse_payloads(old(self).pending() + chunk@)),
            final(self).pending() == sse_remainder(old(self).pending() + chunk@),
            final(self).text() == old(self).text(),
    {
        let all = parse_sse(&mut self.buffer, chunk);
        let ghost src = strings_view(all@);
        let mut out: Vec<String> = Vec::new();
        let mut i: usize = 0;
        while i < all.len()
            invariant
                i <= all.len(),
                src == strings_view(all@),
                strings_view(out@) == without_done(src.take(i as int)),
            decreases all.len() - i,
        {
            let ghost before = strings_view(out@);
            let d = chars_of(all[i].as_str());
            let is_done = d.len() == 6 && d[0] == '[' && d[1] == 'D' && d[2] == 'O' && d[3] == 'N'
                && d[4] == 'E' && d[5] == ']';
            proof {
                let t = src.take(i + 1);
                assert(t.drop_last() =~= src.take(i as int));
                assert(t.last() == all@[i as int]@);
                if d@ == done_marker() {
                    assert(is_done);
                }
                if is_done {
                    assert(d@ =~= done_marker());
                }
            }
            if !is_done {
                out.push(all[i].clone());
                assert(strings_view(out@) =~= before.push(all@[i as int]@));
            }
            i = i + 1;
        }
        assert(src.take(src.len() as int) == src);
        out
    }

    /// Appends a non-empty content delta; returns it for display.
    pub fn add_delta(&mut self, delta: Option<String>) -> (r: Option<String>)
        ensures
            final(self).pending() == old(self).pending(),
            match delta {
                Some(d) if d@.len() > 0 => r == Some(d) && final(self).text() == old(self).text()
                    + d@,
                _ => r is None && final(self).text() == old(self).text(),
            },
    {
        match delta {
            Some(d) => {
                if d.as_str().is_empty() {
                    None
                } else {
                    push_str(&mut self.full_text, d.as_str());
                    Some(d)
                }
            },
            None => None,
        }
    }

    /// Takes one data payload of the stream: its content delta, when there is
    /// one and it is not empty, is appended to the text and returned for
    /// display.
    pub fn add_payload(&mut self, payload: &str) -> (r: Option<String>)
        ensures
            final(self).pending() == old(self).pending(),
            final(self).text() == old(self).text() + delta_of(payload@),
            match chat_delta_content(payload@) {
                Some(d) if d.len() > 0 => r matches Some(x) && x@ == d,
                _ => r is None,
            },
    {
        let d = chunk_delta(payload);
        let r = self.add_delta(d);
        assert(self.text() =~= old(self).text() + delta_of(payload@));
        r
    }

    /// Feeds a decoded chunk of the response body and takes the payloads of
    /// the `data:` lines it completes (the `[DONE]` marker aside): the text
    /// grows by their content deltas in order, and the non-empty deltas are
    /// returned for display.
    pub fn feed_chunk(&mut self, chunk: &str) -> (shown: Vec<String>)
        ensures
            final(self).pending() == sse_remainder(old(self).pending() + chunk@),
            final(self).text() == old(self).text() + delta_text(
                without_done(sse_payloads(old(self).pending() + chunk@)),
            ),
            strings_view(shown@) == shown_deltas(
                without_done(sse_payloads(old(self).pending() + chunk@)),
            ),
    {
        let payloads = self.feed(chunk);
        let ghost ps = strings_view(payloads@);
        let ghost t0 = self.text();
        let mut shown: Vec<String> = Vec::new();
        let mut i: usize = 0;
        assert(strings_view(shown@) =~= shown_deltas(ps.take(0)));
        assert(t0 =~= t0 + delta_text(ps.take(0)));
        while i < payloads.len()
            invariant
                i <= payloads.len(),
                ps == strings_view(payloads@),
                self.pending() == sse_remainder(old(self).pending() + chunk@),
                self.text() == t0 + delta_text(ps.take(i as int)),
                strings_view(shown@) == shown_deltas(ps.take(i as int)),
            decreases payloads.len() - i,
        {
            let ghost before = strings_view(shown@);
            let ghost tb = self.text();
            let r = self.add_payload(payloads[i].as_str());
            proof {
                let t = ps.take(i + 1);
                assert(t.drop_last() =~= ps.take(i as int));
                assert(t.last() == payloads@[i as int]@);
                assert(self.text() =~= t0 + delta_text(t));
            }
            match r {
                Some(d) => {
                    shown.push(d);
                    assert(strings_view(shown@) =~= before.push(shown@.last()@));
                },
                None => {},
            }
            i = i + 1;
        }
        assert(ps.take(ps.len() as int) == ps);
        shown
    }

    /// The finished translation: the trimmed text, when not empty.
    pub fn finish(&self) -> (r: Option<String>)
        ensures
            match r {
                Some(t) => t@ == trim(self.text()) && t@.len() > 0,
                None => trim(self.text()).len() == 0,
            },
    {
        let t = trim_text(self.full_text.as_str());
        if t.as_str().is_empty() {
            None
        } else {
            Some(t)
        }
    }
}

/// Parsing a stream in two chunks yields the payloads and the carried-over
/// tail that parsing it in one piece yields: line boundaries may fall
/// anywhere between chunks.
pub proof fn lemma_sse_chunking(s: Seq<char>, t: Seq<char>)
    ensures
        sse_payloads(s + t) == sse_payloads(s) + sse_payloads(sse_remainder(s) + t),
        sse_remainder(s + t) == sse_remainder(sse_remainder(s) + t),
    decreases s.len(),
{
    lemma_first_newline_bound(s);
    let p = first_newline(s);
    if p < 0 {
        assert(sse_payloads(s) + sse_payloads(sse_remainder(s) + t) =~= sse_payloads(s + t));
    } else {
        let st = s + t;
        assert forall|k: int| 0 <= k < p implies st[k] != '\n' by {
            assert(st[k] == s[k]);
        }
        assert(st[p] == s[p]);
        lemma_first_newline_at(st, p);
        assert(st.take(p + 1) =~= s.take(p + 1));
        assert(st.skip(p + 1) =~= s.skip(p + 1) + t);
        lemma_sse_chunking(s.skip(p + 1), t);
        let rest = s.skip(p + 1);
        match sse_data(s.take(p + 1)) {
            Some(d) => {
                assert(sse_payloads(st) =~= seq![d] + sse_payloads(rest + t));
                assert(sse_payloads(s) =~= seq![d] + sse_payloads(rest));
                assert(sse_payloads(st) =~= sse_payloads(s) + sse_payloads(sse_remainder(s) + t));
            },
            None => {
            },
        }
    }
}

proof fn lemma_without_done_concat(a: Seq<Seq<char>>, b: Seq<Seq<char>>)
    ensures
        without_done(a + b) == without_done(a) + without_done(b),
    decreases b.len(),
{
    if b.len() == 0 {
        assert(a + b =~= a);
        assert(without_done(a) + without_done(b) =~= without_done(a));
    } else {
        lemma_without_done_concat(a, b.drop_last());
        assert((a + b).drop_last() =~= a + b.drop_last());
        assert((a + b).last() == b.last());
        if b.last() != done_marker() {
            assert(without_done(a) + without_done(b) =~= (without_done(a) + without_done(
                b.drop_last(),
            )).push(b.last()));
        }
    }
}

proof fn lemma_delta_text_concat(a: Seq<Seq<char>>, b: Seq<Seq<char>>)
    ensures
        delta_text(a + b) == delta_text(a) + delta_text(b),
    decreases b.len(),
{
    if b.len() == 0 {
        assert(a + b =~= a);
        assert(delta_text(a) + delta_text(b) =~= delta_text(a));
    } else {
        lemma_delta_text_concat(a, b.drop_last());
        assert((a + b).drop_last() =~= a + b.drop_last());
        assert((a + b).last() == b.last());
        assert(delta_text(a) + delta_text(b) =~= (delta_text(a) + delta_text(b.drop_last()))
            + delta_of(b.last()));
    }
}

/// The streamed translation does not depend on how the response body is cut
/// into chunks: feeding `s` and then `t` adds the same text as feeding them
/// joined, and leaves the same incomplete line buffered.
pub proof fn lemma_stream_text_chunking(s: Seq<char>, t: Seq<char>)
    ensures
        delta_text(without_done(sse_payloads(s))) + delta_text(
            without_done(sse_payloads(sse_remainder(s) + t)),
        ) == delta_text(without_done(sse_payloads(s + t))),
        sse_remainder(sse_remainder(s) + t) == sse_remainder(s + t),
{
    lemma_sse_chunking(s, t);
    lemma_without_done_concat(sse_payloads(s), sse_payloads(sse_remainder(s) + t));
    lemma_delta_text_concat(
        without_done(sse_payloads(s)),
        without_done(sse_payloads(sse_remainder(s) + t)),
    );
}

proof fn lemma_decimal_digits(n: nat)
    ensures
        all_digits(decimal(n)),
        digits_value(decimal(n)) == n,
    decreases n,
{
    lemma_decimal_shape(n);
    let d = decimal(n);
    let r = n % 10;
    assert(digit_char(r) as u32 - '0' as u32 == r) by {
        assert(r < 10);
    }
    assert(is_digit(digit_char(r)));
    if n >= 10 {
        lemma_decimal_digits(n / 10);
        assert forall|i: int| 0 <= i < d.len() implies is_digit(#[trigger] d[i]) by {
            if i < d.len() - 1 {
                assert(d[i] == d.drop_last()[i]);
            }
        }
        assert(digits_value(d) == digits_value(d.drop_last()) * 10 + r);
    } else {
        assert(d.drop_last() =~= Seq::<char>::empty());
    }
}

/// A number written in decimal reads back as that number, as
/// `str::parse::<u64>` reads it.
pub proof fn lemma_parse_u64_decimal(n: u64)
    ensures
        parse_u64_spec(decimal(n as nat)) == Some(n),
{
    lemma_decimal_digits(n as nat);
    lemma_decimal_shape(n as nat);
    let d = decimal(n as nat);
    assert(d[0] != '+') by {
        assert(is_digit(d[0]));
    }
}

/// `Retry-After` is honoured for every status that is retried: within the
/// retry budget, a status other than 401 and 403 whose `Retry-After` text
/// reads as a number `n` waits exactly `n` seconds, whatever the status, and
/// the count of failed attempts grows by one; two such statuses with the same
/// header decide alike.
pub proof fn lemma_retry_after_honoured(
    attempt: u32,
    code: u16,
    other_code: u16,
    retry_after: Option<String>,
)
    requires
        attempt < MAX_RETRIES,
        code != 401 && code != 403,
        other_code != 401 && other_code != 403,
    ensures
        ({
            let o = (HttpOutcome::Status { code: code, retry_after: retry_after });
            let o2 = (HttpOutcome::Status { code: other_code, retry_after: retry_after });
            let (a, d) = retry_spec(attempt, o);
            &&& a == attempt + 1
            &&& (retry_after matches Some(t) && parse_u64_spec(t@) is Some) ==> (d
                == (RetryDecision::Wait { secs: parse_u64_spec(retry_after->0@)->0 }))
            &&& d == retry_spec(attempt, o2).1
            &&& retry_after is None ==> d == retry_spec(attempt, HttpOutcome::NetworkError).1
        }),
{
}

/// The language names the prompt uses: each code of the language dropdowns
/// names its own language in English, and any other code stands for itself.
pub proof fn lemma_lang_names(code: Seq<char>)
    ensures
        lang_name_spec("en"@) == "English"@,
        lang_name_spec("uz"@) == "Uzbek (Latin script)"@,
        lang_name_spec("ru"@) == "Russian"@,
        lang_name_spec("tr"@) == "Turkish"@,
        lang_name_spec("kk"@) == "Kazakh"@,
        lang_name_spec("ky"@) == "Kyrgyz"@,
        lang_name_spec("tg"@) == "Tajik"@,
        lang_name_spec("az"@) == "Azerbaijani"@,
        lang_name_spec("ar"@) == "Arabic"@,
        lang_name_spec("fa"@) == "Persian"@,
        lang_name_spec("es"@) == "Spanish"@,
        lang_name_spec("fr"@) == "French"@,
        lang_name_spec("de"@) == "German"@,
        lang_name_spec("it"@) == "Italian"@,
        lang_name_spec("pt"@) == "Portuguese"@,
        lang_name_spec("hi"@) == "Hindi"@,
        lang_name_spec("zh"@) == "Chinese"@,
        lang_name_spec("ja"@) == "Japanese"@,
        lang_name_spec("ko"@) == "Korean"@,
        lang_name_spec("uk"@) == "Ukrainian"@,
        lang_name_spec("id"@) == "Indonesian"@,
        lang_name_spec("vi"@) == "Vietnamese"@,
        code.len() != 2 ==> lang_name_spec(code) == code,
{
    reveal_strlit("en");
    assert("en"@[0] == 'e' && "en"@[1] == 'n' && "en"@.len() == 2);
    reveal_strlit("uz");
    assert("uz"@[0] == 'u' && "uz"@[1] == 'z' && "uz"@.len() == 2);
    reveal_strlit("ru");
    assert("ru"@[0] == 'r' && "ru"@[1] == 'u' && "ru"@.len() == 2);
    reveal_strlit("tr");
    assert("tr"@[0] == 't' && "tr"@[1] == 'r' && "tr"@.len() == 2);
    reveal_strlit("kk");
    assert("kk"@[0] == 'k' && "kk"@[1] == 'k' && "kk"@.len() == 2);
    reveal_strlit("ky");
    assert("ky"@[0] == 'k' && "ky"@[1] == 'y' && "ky"@.len() == 2);
    reveal_strlit("tg");
    assert("tg"@[0] == 't' && "tg"@[1] == 'g' && "tg"@.len() == 2);
    reveal_strlit("az");
    assert("az"@[0] == 'a' && "az"@[1] == 'z' && "az"@.len() == 2);
    reveal_strlit("ar");
    assert("ar"@[0] == 'a' && "ar"@[1] == 'r' && "ar"@.len() == 2);
    reveal_strlit("fa");
    assert("fa"@[0] == 'f' && "fa"@[1] == 'a' && "fa"@.len() == 2);
    reveal_strlit("es");
    assert("es"@[0] == 'e' && "es"@[1] == 's' && "es"@.len() == 2);
    reveal_strlit("fr");
    assert("fr"@[0] == 'f' && "fr"@[1] == 'r' && "fr"@.len() == 2);
    reveal_strlit("de");
    assert("de"@[0] == 'd' && "de"@[1] == 'e' && "de"@.len() == 2);
    reveal_strlit("it");
    assert("it"@[0] == 'i' && "it"@[1] == 't' && "it"@.len() == 2);
    reveal_strlit("pt");
    assert("pt"@[0] == 'p' && "pt"@[1] == 't' && "pt"@.len() == 2);
    reveal_strlit("hi");
    assert("hi"@[0] == 'h' && "hi"@[1] == 'i' && "hi"@.len() == 2);
    reveal_strlit("zh");
    assert("zh"@[0] == 'z' && "zh"@[1] == 'h' && "zh"@.len() == 2);
    reveal_strlit("ja");
    assert("ja"@[0] == 'j' && "ja"@[1] == 'a' && "ja"@.len() == 2);
    reveal_strlit("ko");
    assert("ko"@[0] == 'k' && "ko"@[1] == 'o' && "ko"@.len() == 2);
    reveal_strlit("uk");
    assert("uk"@[0] == 'u' && "uk"@[1] == 'k' && "uk"@.len() == 2);
    reveal_strlit("id");
    assert("id"@[0] == 'i' && "id"@[1] == 'd' && "id"@.len() == 2);
    reveal_strlit("vi");
    assert("vi"@[0] == 'v' && "vi"@[1] == 'i' && "vi"@.len() == 2);
}

} // verus!
