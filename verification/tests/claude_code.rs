use roary_mic::claude_code::{cli_outcome, extract_reply_from_stream_json};
use roary_mic::llm::cli_command;
use roary_mic::text::signed_decimal_text;

#[test]
fn extract_reply_prefers_result_message() {
    let stream = r#"{"type":"system","subtype":"init"}
{"type":"assistant","message":{"content":[{"type":"text","text":"Hello"}]}}
{"type":"assistant","message":{"content":[{"type":"text","text":" world"}]}}
{"type":"result","subtype":"success","result":"Hello world"}
"#;
    assert_eq!(
        extract_reply_from_stream_json(stream),
        Some("Hello world".to_string())
    );
}

#[test]
fn extract_reply_concatenates_assistant_text_when_no_result() {
    let stream = r#"{"type":"system","subtype":"init"}
{"type":"assistant","message":{"content":[{"type":"text","text":"Part 1 "}]}}
{"type":"assistant","message":{"content":[{"type":"text","text":"Part 2"}]}}
"#;
    assert_eq!(
        extract_reply_from_stream_json(stream),
        Some("Part 1 Part 2".to_string())
    );
}

#[test]
fn extract_reply_skips_non_text_content_blocks() {
    let stream = r#"{"type":"assistant","message":{"content":[{"type":"tool_use","name":"Read","input":{}},{"type":"text","text":"Done"}]}}"#;
    assert_eq!(
        extract_reply_from_stream_json(stream),
        Some("Done".to_string())
    );
}

#[test]
fn extract_reply_returns_none_on_empty_stream() {
    assert_eq!(extract_reply_from_stream_json(""), None);
}

#[test]
fn extract_reply_ignores_malformed_lines() {
    let stream = r#"not json at all
{"type":"result","subtype":"success","result":"ok"}
more garbage"#;
    assert_eq!(
        extract_reply_from_stream_json(stream),
        Some("ok".to_string())
    );
}

#[test]
fn extract_reply_returns_none_when_only_non_assistant_messages() {
    let stream = r#"{"type":"system","subtype":"init"}
{"type":"user","message":{"content":"hi"}}
"#;
    assert_eq!(extract_reply_from_stream_json(stream), None);
}

#[test]
fn extract_reply_reads_trimmed_lines_with_surrounding_blank_lines() {
    let stream = "\n   {\"type\":\"result\",\"result\":\"trimmed\"}   \n\n";
    assert_eq!(extract_reply_from_stream_json(stream), Some("trimmed".to_string()));
}

#[test]
fn extract_reply_takes_first_result_message() {
    let stream = "{\"type\":\"result\",\"result\":\"first\"}\n{\"type\":\"result\",\"result\":\"second\"}";
    assert_eq!(extract_reply_from_stream_json(stream), Some("first".to_string()));
}

#[test]
fn cli_outcome_reports_exit_code_and_trimmed_stderr() {
    let r = cli_outcome(false, Some(2), "", "  bad auth \n");
    assert_eq!(r, Err(format!("{} CLI exited with status Some(2): bad auth", cli_command())));
}

#[test]
fn cli_outcome_reports_negative_and_missing_exit_code() {
    let r = cli_outcome(false, Some(-15), "", "");
    assert_eq!(r, Err(format!("{} CLI exited with status Some(-15): ", cli_command())));
    let r = cli_outcome(false, None, "{\"type\":\"result\",\"result\":\"x\"}", "killed");
    assert_eq!(r, Err(format!("{} CLI exited with status None: killed", cli_command())));
}

#[test]
fn cli_outcome_gives_reply_on_success() {
    let r = cli_outcome(true, Some(0), "{\"type\":\"result\",\"result\":\"hi\"}\n", "noise");
    assert_eq!(r, Ok("hi".to_string()));
}

#[test]
fn cli_outcome_reports_missing_reply() {
    let r = cli_outcome(true, Some(0), "{\"type\":\"system\"}\n", "");
    assert_eq!(r, Err(format!("{} CLI produced no assistant output", cli_command())));
}

#[test]
fn signed_decimal_matches_std_formatting() {
    for n in [0i32, 7, 10, 42, 1000, -1, -305, i32::MAX, i32::MIN] {
        assert_eq!(signed_decimal_text(n), n.to_string());
        assert_eq!(format!("{:?}", Some(n)), format!("Some({})", signed_decimal_text(n)));
    }
}
