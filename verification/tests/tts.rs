use roary_mic::tts::{
    build_elevenlabs_headers, build_elevenlabs_url, check_speak_request, format_elevenlabs_error,
};

fn header_value<'a>(headers: &'a [(String, String)], name: &str) -> Option<&'a str> {
    headers
        .iter()
        .find(|(n, _)| n.as_str() == name)
        .map(|(_, v)| v.as_str())
}

#[test]
fn elevenlabs_url_contains_voice_id() {
    let url = build_elevenlabs_url("21m00Tcm4TlvDq8ikWAM");
    assert_eq!(
        url,
        "https://api.elevenlabs.io/v1/text-to-speech/21m00Tcm4TlvDq8ikWAM"
    );
}

#[test]
fn elevenlabs_headers_include_api_key_and_json() {
    let headers = build_elevenlabs_headers("sk-test").unwrap();
    assert_eq!(header_value(&headers, "xi-api-key"), Some("sk-test"));
    assert_eq!(
        header_value(&headers, reqwest::header::CONTENT_TYPE.as_str()),
        Some("application/json")
    );
    assert_eq!(
        header_value(&headers, reqwest::header::ACCEPT.as_str()),
        Some("audio/mpeg")
    );
}

#[test]
fn elevenlabs_headers_reject_newline_in_key() {
    let err = build_elevenlabs_headers("bad\nkey").unwrap_err();
    assert!(err.contains("Invalid ElevenLabs API key"));
}

#[test]
fn error_formatter_includes_body_when_present() {
    let msg = format_elevenlabs_error(
        reqwest::StatusCode::UNAUTHORIZED.as_u16(),
        r#"{"detail":"Invalid API key"}"#,
    );
    assert!(msg.contains("401"));
    assert!(msg.contains("Invalid API key"));
}

#[test]
fn error_formatter_handles_empty_body() {
    let msg = format_elevenlabs_error(reqwest::StatusCode::BAD_GATEWAY.as_u16(), "   ");
    assert!(msg.contains("502"));
    assert!(!msg.contains(":"));
}

#[test]
fn speak_rejects_empty_key() {
    let err = check_speak_request("", "v1", "hi").unwrap_err();
    assert!(err.contains("API key"));
}

#[test]
fn speak_rejects_empty_voice() {
    let err = check_speak_request("k", "", "hi").unwrap_err();
    assert!(err.contains("voice"));
}

#[test]
fn speak_rejects_empty_text() {
    let err = check_speak_request("k", "v", "   ").unwrap_err();
    assert!(err.to_lowercase().contains("speak"));
}
