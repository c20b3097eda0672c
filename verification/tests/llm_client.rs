use roary_mic::llm::{
    chat_request_error, models_request_error,
    is_claude_code_local, PostProcessProvider, cli_product_name, local_provider_url_prefix,
    CLAUDE_CODE_LOCAL_PROVIDER_ID,
};

fn local_provider() -> PostProcessProvider {
    PostProcessProvider {
        id: CLAUDE_CODE_LOCAL_PROVIDER_ID.to_string(),
        label: format!("{} (local subscription)", cli_product_name()),
        base_url: local_provider_url_prefix(),
        allow_base_url_edit: false,
        models_endpoint: None,
        supports_structured_output: false,
    }
}

#[test]
fn claude_code_local_routing_matches_synthetic_provider() {
    assert!(is_claude_code_local(&local_provider()));
}

#[test]
fn claude_code_local_routing_rejects_mismatched_id() {
    let mut p = local_provider();
    p.id = "custom".to_string();
    assert!(
        !is_claude_code_local(&p),
        "a custom provider with the sentinel URL should not be routed to the CLI"
    );
}

#[test]
fn claude_code_local_routing_rejects_mismatched_url() {
    let mut p = local_provider();
    p.base_url = "http://localhost:11434/v1".to_string();
    assert!(
        !is_claude_code_local(&p),
        "the provider id alone should not be enough — URL must match too"
    );
}

#[test]
fn regular_http_providers_are_not_treated_as_local() {
    let anthropic = PostProcessProvider {
        id: "anthropic".to_string(),
        label: "Anthropic".to_string(),
        base_url: "https://api.anthropic.com/v1".to_string(),
        allow_base_url_edit: false,
        models_endpoint: Some("/models".to_string()),
        supports_structured_output: false,
    };
    assert!(!is_claude_code_local(&anthropic));
}

#[test]
fn chat_request_error_carries_status_and_body() {
    let m = chat_request_error(429, "slow down");
    assert_eq!(m, "API request failed with status 429 Too Many Requests: slow down");
}

#[test]
fn models_request_error_carries_status_and_body() {
    let m = models_request_error(404, "no such route");
    assert_eq!(m, "Model list request failed (404 Not Found): no such route");
}

#[test]
fn request_errors_name_unknown_codes_by_digits() {
    let m = chat_request_error(599, "");
    assert!(m.starts_with("API request failed with status 599 "));
    let m = models_request_error(100, "x");
    assert_eq!(m, "Model list request failed (100 Continue): x");
}
