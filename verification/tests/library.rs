use roary_mic::text::{split_words, trim};
use roary_mic::capture::pending_correction_event;
use roary_mic::claude_code::{claude_full_prompt, first_output_line, stream_lines};
use roary_mic::history::{
    active_corrections,
    cleanup_plan, correction_from_row, entries_beyond_limit, legacy_schema_version, page_limit,
    paginate, plan_entry_text_update, prepare_correction, CleanupPlan, EntryTextUpdate,
    HistoryEntry, RecordingRetentionPeriod, TextColumn,
};
use roary_mic::json::Json;
use roary_mic::llm::{
    build_headers, chat_completions_url, chat_messages, cli_command, cli_product_name, first_choice_content,
    image_data_url, is_claude_code_local, local_provider_url_prefix, models_from_response,
    models_url, PostProcessProvider, ReasoningConfig,
};
use roary_mic::tts::{build_elevenlabs_headers, format_elevenlabs_error};

fn provider(id: &str, base_url: &str) -> PostProcessProvider {
    PostProcessProvider {
        id: id.to_string(),
        label: id.to_string(),
        base_url: base_url.to_string(),
        allow_base_url_edit: true,
        models_endpoint: None,
        supports_structured_output: false,
    }
}

fn entry(id: i64) -> HistoryEntry {
    HistoryEntry {
        id,
        file_name: format!("handy-{}.wav", id),
        timestamp: id,
        saved: false,
        title: format!("Recording {}", id),
        transcription_text: "text".to_string(),
        post_processed_text: None,
        post_process_prompt: None,
        post_process_requested: false,
    }
}

#[test]
fn local_provider_url_prefix_is_derived_from_the_id() {
    let prefix = local_provider_url_prefix();
    assert!(prefix.ends_with("-code-local://"));
    assert!(!prefix.contains('_'));
    assert_eq!(format!("{}{}", cli_command(), "-code-local://"), prefix);
    let p = provider("claude_code_local", &format!("{}extra", prefix));
    assert!(is_claude_code_local(&p));
}

#[test]
fn build_headers_for_each_provider_kind() {
    let h = build_headers(&provider("openai", "https://x"), "").unwrap();
    assert_eq!(h.len(), 4);
    assert_eq!(h[0], ("content-type".to_string(), "application/json".to_string()));
    assert_eq!(h[3], ("x-title".to_string(), "Handy".to_string()));
    let h = build_headers(&provider("anthropic", "https://x"), "sk-a").unwrap();
    assert_eq!(h.len(), 6);
    assert_eq!(h[4], ("x-api-key".to_string(), "sk-a".to_string()));
    assert_eq!(h[5], ("anthropic-version".to_string(), "2023-06-01".to_string()));
    let h = build_headers(&provider("openai", "https://x"), "sk-o").unwrap();
    assert_eq!(h.len(), 5);
    assert_eq!(h[4], ("authorization".to_string(), "Bearer sk-o".to_string()));
}

#[test]
fn build_headers_rejects_keys_that_cannot_be_header_values() {
    let err = build_headers(&provider("anthropic", "https://x"), "bad\nkey").unwrap_err();
    assert_eq!(err, "Invalid API key header value: failed to parse header value");
    let err = build_headers(&provider("openai", "https://x"), "bad\u{7f}key").unwrap_err();
    assert_eq!(err, "Invalid authorization header value: failed to parse header value");
}

#[test]
fn elevenlabs_headers_error_message_is_exact() {
    let err = build_elevenlabs_headers("bad\rkey").unwrap_err();
    assert_eq!(err, "Invalid ElevenLabs API key value: failed to parse header value");
    assert!(build_elevenlabs_headers("tab\tis fine").is_ok());
}

#[test]
fn elevenlabs_error_message_formula() {
    assert_eq!(
        format_elevenlabs_error(401, "  {\"detail\":\"Invalid API key\"} \n"),
        "ElevenLabs request failed with status 401 Unauthorized: {\"detail\":\"Invalid API key\"}"
    );
    assert_eq!(
        format_elevenlabs_error(502, ""),
        "ElevenLabs request failed with status 502 Bad Gateway"
    );
}

#[test]
fn endpoint_urls_drop_trailing_slashes() {
    assert_eq!(chat_completions_url("https://api.x/v1//"), "https://api.x/v1/chat/completions");
    assert_eq!(models_url("https://api.x/v1"), "https://api.x/v1/models");
}

#[test]
fn chat_messages_put_the_system_prompt_first() {
    let m = chat_messages(Some("sys".into()), "hi".into());
    assert_eq!(m.len(), 2);
    assert_eq!((m[0].role.as_str(), m[0].content.as_str()), ("system", "sys"));
    assert_eq!((m[1].role.as_str(), m[1].content.as_str()), ("user", "hi"));
    let m = chat_messages(None, "hi".into());
    assert_eq!(m.len(), 1);
    assert_eq!(m[0].role, "user");
}

#[test]
fn first_choice_content_takes_only_the_first_choice() {
    assert_eq!(first_choice_content(&vec![]), None);
    assert_eq!(first_choice_content(&vec![None, Some("b".into())]), None);
    assert_eq!(first_choice_content(&vec![Some("a".into()), Some("b".into())]), Some("a".into()));
}

#[test]
fn image_data_url_encodes_standard_base64() {
    assert_eq!(image_data_url(b"\x89PNG"), "data:image/png;base64,iVBORw==");
    assert_eq!(image_data_url(b""), "data:image/png;base64,");
}

#[test]
fn reasoning_config_defaults_to_nothing() {
    let r = ReasoningConfig::default();
    assert!(r.effort.is_none() && r.exclude.is_none());
}

#[test]
fn models_from_openai_style_and_bare_arrays() {
    let data = Json::Object(vec![(
        "data".to_string(),
        Json::Array(vec![
            Json::Object(vec![("id".to_string(), Json::Str("gpt-4o".into()))]),
            Json::Object(vec![("name".to_string(), Json::Str("named".into()))]),
            Json::Object(vec![("other".to_string(), Json::Null)]),
        ]),
    )]);
    assert_eq!(models_from_response(&data), vec!["gpt-4o", "named"]);
    let bare = Json::Array(vec![Json::Str("m1".into()), Json::Number("3".into()), Json::Str("m2".into())]);
    assert_eq!(models_from_response(&bare), vec!["m1", "m2"]);
    assert!(models_from_response(&Json::Bool(true)).is_empty());
}

#[test]
fn full_prompt_variants() {
    assert_eq!(claude_full_prompt("p", false, None), "p");
    assert_eq!(claude_full_prompt("p", false, Some("s")), "s\n\np");
    let with_image = claude_full_prompt("p", true, Some("s"));
    assert!(with_image.starts_with("s\n\n[Note: a screenshot was captured"));
    assert!(with_image.ends_with("respond based on the text below.]\n\np"));
    let image_only = claude_full_prompt("p", true, None);
    assert!(image_only.starts_with("[Note:"));
    assert!(image_only.ends_with("]\n\np"));
}

#[test]
fn first_output_line_is_trimmed_and_non_empty() {
    assert_eq!(first_output_line(""), None);
    assert_eq!(first_output_line("\n/usr/bin/x\n"), None);
    assert_eq!(first_output_line("  /usr/local/bin/x \r\n/other\n"), Some("/usr/local/bin/x".to_string()));
}

#[test]
fn stream_lines_are_trimmed_and_non_empty() {
    assert_eq!(stream_lines("a\n\n  b \r\n   \nc"), vec!["a", "b", "c"]);
    assert!(stream_lines("").is_empty());
}

#[test]
fn page_limit_is_capped() {
    assert_eq!(page_limit(None), None);
    assert_eq!(page_limit(Some(20)), Some(20));
    assert_eq!(page_limit(Some(500)), Some(100));
}

#[test]
fn paginate_drops_the_probe_row() {
    let page = paginate(vec![entry(3), entry(2), entry(1)], Some(2));
    assert!(page.has_more);
    assert_eq!(page.entries.iter().map(|e| e.id).collect::<Vec<_>>(), vec![3, 2]);
    let page = paginate(vec![entry(3), entry(2)], Some(2));
    assert!(!page.has_more);
    assert_eq!(page.entries.len(), 2);
    let page = paginate(vec![entry(3), entry(2)], None);
    assert!(!page.has_more);
    assert_eq!(page.entries.len(), 2);
}

#[test]
fn prepare_correction_errors_and_defaults() {
    assert_eq!(
        prepare_correction("   ", "x", None).unwrap_err(),
        "Original text must not be empty"
    );
    assert_eq!(
        prepare_correction(" same ", "same", None).unwrap_err(),
        "Original and corrected text must differ"
    );
    assert_eq!(
        prepare_correction("a", "b", Some("pending_auto".into())).unwrap_err(),
        "Unknown correction kind: pending_auto"
    );
    assert_eq!(
        prepare_correction("  my email ", " me@example.com ", None).unwrap(),
        ("my email".to_string(), "me@example.com".to_string(), "correction".to_string())
    );
    assert_eq!(
        prepare_correction("a", "b", Some("reference".into())).unwrap().2,
        "reference"
    );
}

#[test]
fn plan_entry_text_update_picks_the_column() {
    assert!(matches!(
        plan_entry_text_update("hello", &None, false, "hello"),
        EntryTextUpdate::Unchanged
    ));
    match plan_entry_text_update("halo world", &None, false, "hello world") {
        EntryTextUpdate::Write { column, correction } => {
            assert_eq!(column, TextColumn::TranscriptionText);
            assert_eq!(correction, Some(("halo".to_string(), "hello".to_string())));
        }
        _ => panic!("expected a write"),
    }
    match plan_entry_text_update("raw", &Some("halo".into()), false, "hello") {
        EntryTextUpdate::Write { column, correction } => {
            assert_eq!(column, TextColumn::PostProcessedText);
            assert_eq!(correction, Some(("halo".to_string(), "hello".to_string())));
        }
        _ => panic!("expected a write"),
    }
    assert!(matches!(
        plan_entry_text_update("raw", &Some("same".into()), true, "same"),
        EntryTextUpdate::Unchanged
    ));
    match plan_entry_text_update("raw", &None, true, "new") {
        EntryTextUpdate::Write { column, .. } => assert_eq!(column, TextColumn::PostProcessedText),
        _ => panic!("expected a write"),
    }
}

#[test]
fn cleanup_plan_cutoffs() {
    let now = 1_700_000_000;
    assert_eq!(cleanup_plan(RecordingRetentionPeriod::Never, now), CleanupPlan::KeepAll);
    assert_eq!(cleanup_plan(RecordingRetentionPeriod::PreserveLimit, now), CleanupPlan::ByCount);
    assert_eq!(cleanup_plan(RecordingRetentionPeriod::Days3, now), CleanupPlan::OlderThan(now - 259_200));
    assert_eq!(cleanup_plan(RecordingRetentionPeriod::Weeks2, now), CleanupPlan::OlderThan(now - 1_209_600));
    assert_eq!(cleanup_plan(RecordingRetentionPeriod::Months3, now), CleanupPlan::OlderThan(now - 7_776_000));
}

#[test]
fn entries_beyond_limit_keeps_the_newest() {
    let rows = vec![(5, "e".to_string()), (4, "d".to_string()), (3, "c".to_string())];
    assert_eq!(entries_beyond_limit(rows.clone(), 1), vec![(4, "d".to_string()), (3, "c".to_string())]);
    assert!(entries_beyond_limit(rows.clone(), 3).is_empty());
    assert!(entries_beyond_limit(rows, 10).is_empty());
}

#[test]
fn correction_rows_and_legacy_versions() {
    let c = correction_from_row(7, "a".into(), "b".into(), Some(3), 100, 0, None);
    assert!(!c.enabled);
    assert_eq!(c.kind, "correction");
    let c = correction_from_row(7, "a".into(), "b".into(), None, 100, 2, Some("reference".into()));
    assert!(c.enabled);
    assert_eq!(c.kind, "reference");
    assert_eq!(legacy_schema_version(false, 0, 4), None);
    assert_eq!(legacy_schema_version(true, 2, 4), None);
    assert_eq!(legacy_schema_version(true, 0, 0), None);
    assert_eq!(legacy_schema_version(true, 0, 4), Some(4));
}

#[test]
fn pending_event_lists_the_stored_rows() {
    assert!(pending_correction_event(vec![]).is_none());
    let stored = vec![
        correction_from_row(1, "with rory".into(), "with Roary".into(), None, 0, 1, Some("pending_auto".into())),
        correction_from_row(2, "their going".into(), "they're going".into(), None, 0, 1, Some("pending_auto".into())),
    ];
    let ev = pending_correction_event(stored).unwrap();
    assert_eq!(ev.candidates.len(), 2);
    assert_eq!(ev.candidates[1].id, 2);
    assert_eq!(ev.candidates[0].original, "with rory");
    assert_eq!(ev.candidates[1].corrected, "they're going");
}

#[test]
fn product_name_is_the_capitalized_command() {
    let name = cli_product_name();
    let command = cli_command();
    assert!(name.ends_with(" Code"));
    assert_eq!(name.to_lowercase(), format!("{} code", command));
    assert!(name.chars().next().unwrap().is_ascii_uppercase());
    assert!(command.chars().all(|c| c.is_ascii_lowercase()));
}

#[test]
fn pending_and_disabled_rules_are_not_in_force() {
    let rows = vec![
        correction_from_row(1, "halo".into(), "hello".into(), None, 1, 1, None),
        correction_from_row(2, "omw".into(), "on my way".into(), None, 2, 1, Some("pending_auto".into())),
        correction_from_row(3, "my email".into(), "me@example.com".into(), None, 3, 1, Some("reference".into())),
        correction_from_row(4, "x".into(), "y".into(), None, 4, 0, None),
    ];
    let active = active_corrections(rows);
    assert_eq!(active.iter().map(|c| c.id).collect::<Vec<_>>(), vec![1, 3]);
}

#[test]
fn whitespace_follows_the_unicode_property() {
    assert_eq!(trim("\u{3000}\u{85} x y\u{2009}\t\u{a0}"), "x y");
    assert_eq!(split_words("a\u{2028}b\u{202f}c\u{200b}d"), vec!["a", "b", "c\u{200b}d"]);
    let listed = |u: u32| {
        (0x9..=0xD).contains(&u)
            || [0x20, 0x85, 0xA0, 0x1680, 0x2028, 0x2029, 0x202F, 0x205F, 0x3000].contains(&u)
            || (0x2000..=0x200A).contains(&u)
    };
    for u in 0..0x11000u32 {
        if let Some(c) = char::from_u32(u) {
            assert_eq!(c.is_whitespace(), listed(u), "U+{:04X}", u);
        }
    }
}
