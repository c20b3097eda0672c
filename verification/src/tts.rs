use vstd::prelude::*;

use crate::http_header::{header, header_value_error, header_value_ok, header_views, status_code_text, status_digits, status_text};
use crate::text::{trim, trimmed};

verus! {

/// The ElevenLabs text-to-speech endpoint; the voice id follows it.
pub const ELEVENLABS_BASE: &'static str = "https://api.elevenlabs.io/v1/text-to-speech";

/// The full URL of an ElevenLabs TTS request for `voice_id`.
pub fn build_elevenlabs_url(voice_id: &str) -> (u: String)
    ensures
        u@ == ELEVENLABS_BASE@ + seq!['/'] + voice_id@,
{
    let mut u = String::from_str(ELEVENLABS_BASE);
    crate::text::push_char(&mut u, '/');
    u.append(voice_id);
    u
}

/// The headers of an ElevenLabs TTS request, or the error for a key that
/// cannot stand in a header.
pub open spec fn spec_elevenlabs_headers(api_key: Seq<char>) -> Result<Seq<(Seq<char>, Seq<char>)>, Seq<char>> {
    if header_value_ok(api_key) {
        Ok(seq![("xi-api-key"@, api_key), ("content-type"@, "application/json"@), ("accept"@, "audio/mpeg"@)])
    } else {
        Err("Invalid ElevenLabs API key value: "@ + "failed to parse header value"@)
    }
}

/// Builds the headers of an ElevenLabs TTS request.
pub fn build_elevenlabs_headers(api_key: &str) -> (r: Result<Vec<(String, String)>, String>)
    ensures
        crate::llm::headers_result_view(r) == spec_elevenlabs_headers(api_key@),
{
    match header_value_error(api_key) {
        Some(e) => {
            let mut msg = String::from_str("Invalid ElevenLabs API key value: ");
            msg.append(e.as_str());
            Err(msg)
        },
        None => {
            let mut headers: Vec<(String, String)> = Vec::new();
            headers.push(header("xi-api-key", api_key));
            headers.push(header("content-type", "application/json"));
            headers.push(header("accept", "audio/mpeg"));
            assert(header_views(headers@) =~= seq![("xi-api-key"@, api_key@), ("content-type"@, "application/json"@), ("accept"@, "audio/mpeg"@)]);
            Ok(headers)
        },
    }
}

/// The words that open the message for a failed ElevenLabs request.
pub open spec fn elevenlabs_error_lead() -> Seq<char> {
    "ElevenLabs request failed with status "@
}

/// The message for a failed ElevenLabs request with status `status` and response `body`.
pub open spec fn spec_elevenlabs_error(status: u16, body: Seq<char>) -> Seq<char> {
    let prefix = elevenlabs_error_lead() + status_code_text(status);
    if trimmed(body).len() == 0 {
        prefix
    } else {
        prefix + ": "@ + trimmed(body)
    }
}

/// A human-readable message for a failed ElevenLabs request; the trimmed body
/// is appended after a colon when it is not empty.
pub fn format_elevenlabs_error(status: u16, body: &str) -> (m: String)
    requires
        100 <= status <= 999,
    ensures
        m@ == spec_elevenlabs_error(status, body@),
        m@.len() >= elevenlabs_error_lead().len() + 4,
        m@.subrange(elevenlabs_error_lead().len() as int, elevenlabs_error_lead().len() + 4int)
            == status_digits(status).push(' '),
{
    let t = trim(body);
    let mut m = String::from_str("ElevenLabs request failed with status ");
    let st = status_text(status);
    m.append(st.as_str());
    if !t.as_str().is_empty() {
        m.append(": ");
        m.append(t.as_str());
    }
    assert(m@.subrange(elevenlabs_error_lead().len() as int, elevenlabs_error_lead().len() + 4int)
        =~= st@.subrange(0, 4));
    m
}

/// Why a TTS request is refused before it is sent, if it is.
pub open spec fn spec_speak_request_error(api_key: Seq<char>, voice_id: Seq<char>, text: Seq<char>) -> Option<Seq<char>> {
    if trimmed(api_key).len() == 0 {
        Some("ElevenLabs API key is not set"@)
    } else if trimmed(voice_id).len() == 0 {
        Some("ElevenLabs voice ID is not set"@)
    } else if trimmed(text).len() == 0 {
        Some("Nothing to speak"@)
    } else {
        None
    }
}

/// Checks a TTS request before it is sent: the key, the voice id and the text
/// must each hold something besides whitespace, in that order.
pub fn check_speak_request(api_key: &str, voice_id: &str, text: &str) -> (r: Result<(), String>)
    ensures
        match r {
            Ok(()) => spec_speak_request_error(api_key@, voice_id@, text@) is None,
            Err(e) => spec_speak_request_error(api_key@, voice_id@, text@) == Some(e@),
        },
{
    if trim(api_key).as_str().is_empty() {
        return Err(String::from_str("ElevenLabs API key is not set"));
    }
    if trim(voice_id).as_str().is_empty() {
        return Err(String::from_str("ElevenLabs voice ID is not set"));
    }
    if trim(text).as_str().is_empty() {
        return Err(String::from_str("Nothing to speak"));
    }
    Ok(())
}

} // verus!
