use vstd::prelude::*;

use crate::http_header::{
    header, header_value_error, header_value_ok, header_views, status_code_text, status_digits, status_text,
};
use crate::json::{json_array, json_get, json_str, Json};
use crate::text::{
    capitalize_ascii, capitalized, first_segment, replace_char, replaced, segment_before,
};
use crate::text::{has_prefix, starts_with, trim_trailing_slashes, without_trailing_slashes};

verus! {

/// The id of the synthetic provider that routes through the local assistant CLI.
pub const CLAUDE_CODE_LOCAL_PROVIDER_ID: &'static str = "claude_code_local";

/// The base URL that marks the synthetic provider: its id spelt with
/// dashes, as a URL scheme.
pub open spec fn local_url_prefix() -> Seq<char> {
    replaced(CLAUDE_CODE_LOCAL_PROVIDER_ID@, '_', '-') + "://"@
}

/// The base URL that marks the synthetic provider.
pub fn local_provider_url_prefix() -> (u: String)
    ensures
        u@ == local_url_prefix(),
{
    let mut u = replace_char(CLAUDE_CODE_LOCAL_PROVIDER_ID, '_', '-');
    u.append("://");
    u
}

/// The command name of the local assistant CLI: the first word of the
/// synthetic provider's id.
pub open spec fn spec_cli_command() -> Seq<char> {
    segment_before(CLAUDE_CODE_LOCAL_PROVIDER_ID@, '_')
}

/// The command name of the local assistant CLI.
pub fn cli_command() -> (c: String)
    ensures
        c@ == spec_cli_command(),
{
    first_segment(CLAUDE_CODE_LOCAL_PROVIDER_ID, '_')
}

/// The product name of the local assistant CLI: its command name
/// capitalized, followed by ` Code`.
pub open spec fn spec_cli_product_name() -> Seq<char> {
    capitalized(spec_cli_command()) + " Code"@
}

/// The product name of the local assistant CLI.
pub fn cli_product_name() -> (n: String)
    ensures
        n@ == spec_cli_product_name(),
{
    let c = cli_command();
    let mut n = capitalize_ascii(c.as_str());
    n.append(" Code");
    n
}

/// A post-processing LLM provider.
#[derive(Clone, Debug)]
pub struct PostProcessProvider {
    pub id: String,
    pub label: String,
    pub base_url: String,
    pub allow_base_url_edit: bool,
    pub models_endpoint: Option<String>,
    pub supports_structured_output: bool,
}

/// OpenRouter-style reasoning options.
#[derive(Clone, Debug)]
pub struct ReasoningConfig {
    pub effort: Option<String>,
    pub exclude: Option<bool>,
}

impl Default for ReasoningConfig {
    fn default() -> (r: Self)
        ensures
            r.effort is None,
            r.exclude is None,
    {
        ReasoningConfig { effort: None, exclude: None }
    }
}

/// One chat message of a completion request.
#[derive(Clone, Debug)]
pub struct ChatMessage {
    pub role: String,
    pub content: String,
}

/// Whether a provider is the synthetic local-CLI provider: both its id and
/// its base URL must say so.
pub open spec fn spec_is_claude_code_local(id: Seq<char>, base_url: Seq<char>) -> bool {
    id == CLAUDE_CODE_LOCAL_PROVIDER_ID@ && has_prefix(base_url, local_url_prefix())
}

/// Is this the synthetic provider that routes through the local assistant CLI
/// (the user's subscription)? Checks the reserved base URL as well as the id,
/// so a renamed custom provider is not routed to the subprocess.
pub fn is_claude_code_local(provider: &PostProcessProvider) -> (r: bool)
    ensures
        r == spec_is_claude_code_local(provider.id@, provider.base_url@),
{
    let id_matches = crate::capture::str_equal(provider.id.as_str(), CLAUDE_CODE_LOCAL_PROVIDER_ID);
    if !id_matches {
        return false;
    }
    let prefix = local_provider_url_prefix();
    starts_with(provider.base_url.as_str(), prefix.as_str())
}

/// The headers every request to an OpenAI-compatible provider carries.
pub open spec fn common_headers() -> Seq<(Seq<char>, Seq<char>)> {
    seq![
        ("content-type"@, "application/json"@),
        ("referer"@, "https://github.com/cjpais/Handy"@),
        ("user-agent"@, "Handy/1.0 (+https://github.com/cjpais/Handy)"@),
        ("x-title"@, "Handy"@),
    ]
}

/// The request headers for `provider` with `api_key`: the common ones, then,
/// for a non-empty key, `x-api-key` and `anthropic-version` for Anthropic or a
/// bearer `authorization` otherwise. Fails when the key cannot stand in a header.
pub open spec fn spec_build_headers(provider_id: Seq<char>, api_key: Seq<char>) -> Result<Seq<(Seq<char>, Seq<char>)>, Seq<char>> {
    if api_key.len() == 0 {
        Ok(common_headers())
    } else if provider_id == "anthropic"@ {
        if header_value_ok(api_key) {
            Ok(common_headers() + seq![("x-api-key"@, api_key), ("anthropic-version"@, "2023-06-01"@)])
        } else {
            Err("Invalid API key header value: "@ + "failed to parse header value"@)
        }
    } else {
        let bearer = "Bearer "@ + api_key;
        if header_value_ok(bearer) {
            Ok(common_headers() + seq![("authorization"@, bearer)])
        } else {
            Err("Invalid authorization header value: "@ + "failed to parse header value"@)
        }
    }
}

/// The view of a header-building result.
pub open spec fn headers_result_view(r: Result<Vec<(String, String)>, String>) -> Result<Seq<(Seq<char>, Seq<char>)>, Seq<char>> {
    match r {
        Ok(h) => Ok(header_views(h@)),
        Err(e) => Err(e@),
    }
}

/// Builds the request headers for `provider`.
pub fn build_headers(provider: &PostProcessProvider, api_key: &str) -> (r: Result<Vec<(String, String)>, String>)
    ensures
        headers_result_view(r) == spec_build_headers(provider.id@, api_key@),
{
    let mut headers: Vec<(String, String)> = Vec::new();
    headers.push(header("content-type", "application/json"));
    headers.push(header("referer", "https://github.com/cjpais/Handy"));
    headers.push(header("user-agent", "Handy/1.0 (+https://github.com/cjpais/Handy)"));
    headers.push(header("x-title", "Handy"));
    assert(header_views(headers@) =~= common_headers());
    if api_key.is_empty() {
        return Ok(headers);
    }
    if crate::capture::str_equal(provider.id.as_str(), "anthropic") {
        match header_value_error(api_key) {
            Some(e) => {
                let mut msg = String::from_str("Invalid API key header value: ");
                msg.append(e.as_str());
                return Err(msg);
            },
            None => {},
        }
        headers.push(header("x-api-key", api_key));
        headers.push(header("anthropic-version", "2023-06-01"));
        assert(header_views(headers@) =~= common_headers() + seq![("x-api-key"@, api_key@), ("anthropic-version"@, "2023-06-01"@)]);
        Ok(headers)
    } else {
        let mut bearer = String::from_str("Bearer ");
        bearer.append(api_key);
        match header_value_error(bearer.as_str()) {
            Some(e) => {
                let mut msg = String::from_str("Invalid authorization header value: ");
                msg.append(e.as_str());
                return Err(msg);
            },
            None => {},
        }
        headers.push((String::from_str("authorization"), bearer));
        assert(header_views(headers@) =~= common_headers() + seq![("authorization"@, "Bearer "@ + api_key@)]);
        Ok(headers)
    }
}

/// The chat-completions endpoint under `base_url`.
pub open spec fn spec_chat_completions_url(base_url: Seq<char>) -> Seq<char> {
    without_trailing_slashes(base_url) + "/chat/completions"@
}

/// The chat-completions endpoint under `base_url`, trailing slashes dropped.
pub fn chat_completions_url(base_url: &str) -> (u: String)
    ensures
        u@ == spec_chat_completions_url(base_url@),
{
    let mut u = trim_trailing_slashes(base_url);
    u.append("/chat/completions");
    u
}

/// The model-list endpoint under `base_url`.
pub open spec fn spec_models_url(base_url: Seq<char>) -> Seq<char> {
    without_trailing_slashes(base_url) + "/models"@
}

/// The model-list endpoint under `base_url`, trailing slashes dropped.
pub fn models_url(base_url: &str) -> (u: String)
    ensures
        u@ == spec_models_url(base_url@),
{
    let mut u = trim_trailing_slashes(base_url);
    u.append("/models");
    u
}

/// The messages of a completion request: the system prompt when given, then the user content.
pub fn chat_messages(system_prompt: Option<String>, user_content: String) -> (m: Vec<ChatMessage>)
    ensures
        m@.len() == if system_prompt is Some { 2int } else { 1int },
        system_prompt matches Some(s) ==> m@[0].role@ == "system"@ && m@[0].content == s,
        m@.last().role@ == "user"@,
        m@.last().content == user_content,
{
    let mut m: Vec<ChatMessage> = Vec::new();
    match system_prompt {
        Some(s) => m.push(ChatMessage { role: String::from_str("system"), content: s }),
        None => {},
    }
    m.push(ChatMessage { role: String::from_str("user"), content: user_content });
    m
}

/// The message for a completion request answered with a status other than success.
pub open spec fn spec_chat_request_error(status: u16, body: Seq<char>) -> Seq<char> {
    "API request failed with status "@ + status_code_text(status) + ": "@ + body
}

/// Builds the message for a completion request answered with status `status`
/// and response body `body`; it holds the status's three digits.
pub fn chat_request_error(status: u16, body: &str) -> (m: String)
    requires
        100 <= status <= 999,
    ensures
        m@ == spec_chat_request_error(status, body@),
        m@.subrange(31, 35) == status_digits(status).push(' '),
{
    let mut m = String::from_str("API request failed with status ");
    let st = status_text(status);
    m.append(st.as_str());
    m.append(": ");
    m.append(body);
    proof {
        reveal_strlit("API request failed with status ");
    }
    assert(m@.subrange(31, 35) =~= st@.subrange(0, 4));
    m
}

/// The message for a model list request answered with a status other than success.
pub open spec fn spec_models_request_error(status: u16, body: Seq<char>) -> Seq<char> {
    "Model list request failed ("@ + status_code_text(status) + "): "@ + body
}

/// Builds the message for a model list request answered with status `status`
/// and response body `body`; it holds the status's three digits.
pub fn models_request_error(status: u16, body: &str) -> (m: String)
    requires
        100 <= status <= 999,
    ensures
        m@ == spec_models_request_error(status, body@),
        m@.subrange(27, 31) == status_digits(status).push(' '),
{
    let mut m = String::from_str("Model list request failed (");
    let st = status_text(status);
    m.append(st.as_str());
    m.append("): ");
    m.append(body);
    proof {
        reveal_strlit("Model list request failed (");
    }
    assert(m@.subrange(27, 31) =~= st@.subrange(0, 4));
    m
}

/// The reply of a completion: the first choice's content, if it has one.
pub fn first_choice_content(contents: &Vec<Option<String>>) -> (r: Option<String>)
    ensures
        r == (if contents@.len() > 0 { contents@[0] } else { None }),
{
    if contents.len() > 0 {
        match &contents[0] {
            Some(c) => Some(c.clone()),
            None => None,
        }
    } else {
        None
    }
}

/// The model ids of an OpenAI-style `data` list: each entry's `id`, or its
/// `name` when it has no string `id`; entries with neither are skipped.
pub open spec fn data_model_ids(entries: Seq<Json>) -> Seq<Seq<char>>
    decreases entries.len(),
{
    if entries.len() == 0 {
        Seq::empty()
    } else {
        let prev = data_model_ids(entries.drop_last());
        let e = entries.last();
        match json_str(json_get(e, "id"@)) {
            Some(id) => prev.push(id),
            None => match json_str(json_get(e, "name"@)) {
                Some(n) => prev.push(n),
                None => prev,
            },
        }
    }
}

/// The string elements of a JSON array, in order.
pub open spec fn string_elements(items: Seq<Json>) -> Seq<Seq<char>>
    decreases items.len(),
{
    if items.len() == 0 {
        Seq::empty()
    } else {
        let prev = string_elements(items.drop_last());
        match json_str(Some(items.last())) {
            Some(s) => prev.push(s),
            None => prev,
        }
    }
}

/// The model ids a model-list response names: from `{"data": [...]}` when
/// `data` is an array, else from a bare array of strings, else none.
pub open spec fn spec_models_from_response(parsed: Json) -> Seq<Seq<char>> {
    match json_array(json_get(parsed, "data"@)) {
        Some(entries) => data_model_ids(entries),
        None => match json_array(Some(parsed)) {
            Some(items) => string_elements(items),
            None => Seq::empty(),
        },
    }
}

/// Reads the model ids out of a parsed model-list response.
pub fn models_from_response(parsed: &Json) -> (models: Vec<String>)
    ensures
        crate::text::views(models@) == spec_models_from_response(*parsed),
{
    let mut models: Vec<String> = Vec::new();
    let data = match parsed.get("data") {
        Some(d) => d.as_array(),
        None => None,
    };
    match data {
        Some(entries) => {
            let mut k: usize = 0;
            while k < entries.len()
                invariant
                    k <= entries.len(),
                    crate::text::views(models@) == data_model_ids(entries@.take(k as int)),
                decreases entries.len() - k,
            {
                let e = &entries[k];
                assert(entries@.take(k + 1).drop_last() =~= entries@.take(k as int));
                assert(entries@.take(k + 1).last() == *e);
                let ghost prev = models@;
                match crate::json::str_member(Some(e), "id") {
                    Some(id) => {
                        models.push(id);
                        assert(crate::text::views(models@) =~= crate::text::views(prev).push(models@.last()@));
                    },
                    None => match crate::json::str_member(Some(e), "name") {
                        Some(n) => {
                            models.push(n);
                            assert(crate::text::views(models@) =~= crate::text::views(prev).push(models@.last()@));
                        },
                        None => {},
                    },
                }
                k = k + 1;
            }
            assert(entries@.take(entries.len() as int) =~= entries@);
        },
        None => match parsed.as_array() {
            Some(items) => {
                let mut k: usize = 0;
                while k < items.len()
                    invariant
                        k <= items.len(),
                        crate::text::views(models@) == string_elements(items@.take(k as int)),
                    decreases items.len() - k,
                {
                    let it = &items[k];
                    assert(items@.take(k + 1).drop_last() =~= items@.take(k as int));
                    assert(items@.take(k + 1).last() == *it);
                    match it.as_str() {
                        Some(s) => {
                            let ghost prev = models@;
                            models.push(String::from_str(s));
                            assert(crate::text::views(models@) =~= crate::text::views(prev).push(s@));
                        },
                        None => {},
                    }
                    k = k + 1;
                }
                assert(items@.take(items.len() as int) =~= items@);
            },
            None => {},
        },
    }
    models
}

/// The character of the standard base64 alphabet for a six-bit value:
/// `A`-`Z`, `a`-`z`, `0`-`9`, `+`, `/`.
pub open spec fn base64_symbol(v: int) -> char {
    if v < 26 {
        (65 + v) as char
    } else if v < 52 {
        (97 + v - 26) as char
    } else if v < 62 {
        (48 + v - 52) as char
    } else if v == 62 {
        '+'
    } else {
        '/'
    }
}

/// The standard, padded base64 text of `bytes`: each group of three bytes
/// gives four symbols of six bits each; a final group of one or two bytes is
/// filled with zero bits and padded with `=` to four characters.
pub open spec fn base64_standard(bytes: Seq<u8>) -> Seq<char>
    decreases bytes.len(),
{
    if bytes.len() == 0 {
        Seq::empty()
    } else if bytes.len() == 1 {
        let b0 = bytes[0] as int;
        seq![base64_symbol(b0 / 4), base64_symbol((b0 % 4) * 16), '=', '=']
    } else if bytes.len() == 2 {
        let b0 = bytes[0] as int;
        let b1 = bytes[1] as int;
        seq![base64_symbol(b0 / 4), base64_symbol((b0 % 4) * 16 + b1 / 16), base64_symbol((b1 % 16) * 4), '=']
    } else {
        let b0 = bytes[0] as int;
        let b1 = bytes[1] as int;
        let b2 = bytes[2] as int;
        seq![
            base64_symbol(b0 / 4),
            base64_symbol((b0 % 4) * 16 + b1 / 16),
            base64_symbol((b1 % 16) * 4 + b2 / 64),
            base64_symbol(b2 % 64),
        ] + base64_standard(bytes.skip(3))
    }
}

/// Calls `base64`'s `Engine::encode` with the `STANDARD` engine (standard
/// alphabet, with padding), which gives `base64_standard`. The call panics
/// when the encoded length (`base64::encoded_len`) overflows, which
/// `requires` rules out.
#[verifier::external_body]
fn base64_encode(bytes: &[u8]) -> (s: String)
    requires
        bytes@.len() / 3 * 4 + 4 <= usize::MAX,
    ensures
        s@ == base64_standard(bytes@),
{
    base64::Engine::encode(&base64::engine::general_purpose::STANDARD, bytes)
}

/// The data URL under which a PNG screenshot is sent in a multimodal message.
pub fn image_data_url(png: &[u8]) -> (u: String)
    requires
        png@.len() / 3 * 4 + 4 <= usize::MAX,
    ensures
        u@ == "data:image/png;base64,"@ + base64_standard(png@),
{
    let mut u = String::from_str("data:image/png;base64,");
    let b64 = base64_encode(png);
    u.append(b64.as_str());
    u
}

/// Whether a `data` entry names a model: it has a string `id` or a string `name`.
pub open spec fn names_model(e: Json) -> bool {
    json_str(json_get(e, "id"@)) is Some || json_str(json_get(e, "name"@)) is Some
}

/// How many of `entries` name a model.
pub open spec fn model_entry_count(entries: Seq<Json>) -> nat
    decreases entries.len(),
{
    if entries.len() == 0 {
        0
    } else {
        model_entry_count(entries.drop_last()) + if names_model(entries.last()) {
            1nat
        } else {
            0nat
        }
    }
}

proof fn lemma_data_model_ids_prefix(entries: Seq<Json>, j: int)
    requires
        0 <= j <= entries.len(),
    ensures
        data_model_ids(entries).len() == model_entry_count(entries),
        model_entry_count(entries.take(j)) <= model_entry_count(entries),
        data_model_ids(entries).take(model_entry_count(entries.take(j)) as int) == data_model_ids(entries.take(j)),
    decreases entries.len(),
{
    if j == entries.len() {
        assert(entries.take(j) =~= entries);
        if entries.len() > 0 {
            lemma_data_model_ids_prefix(entries.drop_last(), 0);
        }
        assert(data_model_ids(entries).take(data_model_ids(entries).len() as int) =~= data_model_ids(entries));
    } else {
        let rest = entries.drop_last();
        lemma_data_model_ids_prefix(rest, j);
        assert(rest.take(j) =~= entries.take(j));
        let d = data_model_ids(rest);
        let k = model_entry_count(entries.take(j)) as int;
        assert(data_model_ids(entries).take(k) =~= d.take(k));
    }
}

/// Each `data` entry with a string `id` gives that id as its model, and one
/// with no string `id` but a string `name` gives the name; the models come in
/// the entries' order, one per entry that names a model, so entry `i` gives
/// the model at the index that counts the naming entries before it.
pub proof fn lemma_models_follow_data_entries(parsed: Json, entries: Seq<Json>, i: int)
    requires
        json_array(json_get(parsed, "data"@)) == Some(entries),
        0 <= i < entries.len(),
    ensures
        ({
            let models = spec_models_from_response(parsed);
            let k = model_entry_count(entries.take(i)) as int;
            let e = entries[i];
            &&& models.len() == model_entry_count(entries)
            &&& names_model(e) ==> k < models.len()
            &&& json_str(json_get(e, "id"@)) matches Some(x) ==> models[k] == x
            &&& json_str(json_get(e, "id"@)) is None ==> (json_str(json_get(e, "name"@)) matches Some(n) ==> models[k] == n)
        }),
{
    lemma_data_model_ids_prefix(entries, i + 1);
    lemma_data_model_ids_prefix(entries, i);
    let t = entries.take(i + 1);
    assert(t.drop_last() =~= entries.take(i));
    assert(t.last() == entries[i]);
    let k = model_entry_count(entries.take(i)) as int;
    let m = data_model_ids(entries);
    if names_model(entries[i]) {
        assert(m.take(k + 1)[k] == m[k]);
    }
}

} // verus!
