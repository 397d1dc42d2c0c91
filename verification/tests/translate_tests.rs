use live_translate::state::{LangPair, TranslationStyle};
use live_translate::translate::{build_system_prompt, coalesce, parse_sse, FinalTranscript};

fn pair(source: &str, target: &str) -> LangPair {
    LangPair {
        source: source.into(),
        target: target.into(),
    }
}

#[test]
fn prompt_mentions_direction_and_terms() {
    let en_uz = build_system_prompt(&pair("en", "uz"), TranslationStyle::Natural);
    assert!(en_uz.contains("from English into Uzbek (Latin script)"));
    assert!(en_uz.contains("React"));
    assert!(en_uz.contains("ONLY the translation"));

    let auto = build_system_prompt(&pair("auto", "uz"), TranslationStyle::Natural);
    assert!(auto.contains("Detect the language"));
    assert!(auto.contains("return it unchanged"));

    let literal = build_system_prompt(&pair("uz", "en"), TranslationStyle::Literal);
    assert!(literal.contains("from Uzbek (Latin script) into English"));
    assert!(literal.contains("close to the original wording"));

    // Any language pair from the dropdowns works, including new ones.
    let ru_tr = build_system_prompt(&pair("ru", "tr"), TranslationStyle::Natural);
    assert!(ru_tr.contains("from Russian into Turkish"));

    // Unknown codes pass through so the list can grow frontend-only.
    let custom = build_system_prompt(&pair("auto", "sw"), TranslationStyle::Natural);
    assert!(custom.contains("into sw"));
}

fn ft(id: &str, text: &str, ts: u64) -> FinalTranscript {
    FinalTranscript {
        segment_id: id.into(),
        text: text.into(),
        ts,
    }
}

#[test]
fn coalesce_merges_close_finals_with_space() {
    let merged = coalesce(vec![ft("a", "Hello", 1000), ft("b", "there", 1500)]);
    assert_eq!(merged.text, "Hello there");
    assert_eq!(merged.segment_id, "b");
}

#[test]
fn coalesce_separates_distant_finals_with_newline() {
    let merged = coalesce(vec![ft("a", "One", 1000), ft("b", "Two", 9000)]);
    assert_eq!(merged.text, "One\nTwo");
}

#[test]
fn coalesce_single_item_is_identity() {
    let merged = coalesce(vec![ft("a", "Hi", 5)]);
    assert_eq!(merged.text, "Hi");
    assert_eq!(merged.segment_id, "a");
}

#[test]
fn sse_parser_handles_lines_split_across_chunks() {
    let mut buf = String::new();
    let first = parse_sse(&mut buf, "data: {\"a\":");
    assert!(first.is_empty()); // incomplete line stays buffered

    let second = parse_sse(&mut buf, "1}\n\ndata: [DONE]\n");
    assert_eq!(second, vec!["{\"a\":1}".to_string(), "[DONE]".to_string()]);
}

#[test]
fn sse_parser_ignores_comments_and_blank_lines() {
    let mut buf = String::new();
    let out = parse_sse(&mut buf, ": keep-alive\n\ndata: x\n");
    assert_eq!(out, vec!["x".to_string()]);
}
