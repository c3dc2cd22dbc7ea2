use reqwest::StatusCode;
use rusty_agent_sdk::models::{
    api_error_message, parse_chat_response, parse_chat_response_full, Usage,
};
use rusty_agent_sdk::json::Json;
use rusty_agent_sdk::models::{format_api_error, read_chat_response};

#[test]
fn parse_chat_response_returns_first_choice_content() {
    let body = r#"{"choices":[{"message":{"content":"Hello"}}]}"#;

    let content = parse_chat_response(body).expect("response should parse");

    assert_eq!(content, "Hello");
}

#[test]
fn parse_chat_response_fails_when_choices_are_missing() {
    let body = r#"{"choices":[]}"#;

    let err = parse_chat_response(body).expect_err("missing choices should fail");
    let message = format!("{:?}", err);

    assert!(message.contains("No choices returned"));
}

#[test]
fn parse_chat_response_fails_on_invalid_json() {
    let err = parse_chat_response("not-json").expect_err("invalid json should fail");
    let message = format!("{:?}", err);

    assert!(message.contains("Failed to parse response"));
}

#[test]
fn api_error_message_uses_structured_error_when_available() {
    let body = r#"{"error":{"message":"Invalid key"}}"#;

    let message = api_error_message(StatusCode::UNAUTHORIZED.as_u16(), body);

    assert_eq!(message, "API error (401 Unauthorized): Invalid key");
}

#[test]
fn api_error_message_falls_back_to_raw_body() {
    let body = "upstream unavailable";

    let message = api_error_message(StatusCode::BAD_GATEWAY.as_u16(), body);

    assert_eq!(message, "API error (502 Bad Gateway): upstream unavailable");
}

// ---------------------------------------------------------------------------
// parse_chat_response_full tests
// ---------------------------------------------------------------------------

#[test]
fn parse_chat_response_full_extracts_all_fields() {
    let body = r#"{
        "choices": [{"message": {"content": "Hello!"}, "finish_reason": "stop"}],
        "usage": {"prompt_tokens": 10, "completion_tokens": 5, "total_tokens": 15},
        "model": "gpt-4"
    }"#;

    let result = parse_chat_response_full(body).expect("should parse full response");

    assert_eq!(result.text, "Hello!");
    assert_eq!(result.finish_reason, Some("stop".to_string()));
    assert_eq!(result.model, Some("gpt-4".to_string()));

    let usage = result.usage.expect("usage should be present");
    assert_eq!(
        usage,
        Usage {
            prompt_tokens: 10,
            completion_tokens: 5,
            total_tokens: 15,
        }
    );
}

#[test]
fn parse_chat_response_full_with_missing_optional_fields() {
    let body = r#"{"choices": [{"message": {"content": "Hi"}}]}"#;

    let result = parse_chat_response_full(body).expect("should parse without optionals");

    assert_eq!(result.text, "Hi");
    assert!(result.usage.is_none());
    assert!(result.finish_reason.is_none());
    assert!(result.model.is_none());
}

#[test]
fn parse_chat_response_full_fails_on_empty_choices() {
    let body = r#"{"choices": []}"#;

    let err = parse_chat_response_full(body).expect_err("empty choices should fail");
    let msg = format!("{:?}", err);

    assert!(msg.contains("No choices returned"));
}

#[test]
fn parse_chat_response_full_fails_on_invalid_json() {
    let err = parse_chat_response_full("not-json").expect_err("invalid json should fail");
    let msg = format!("{:?}", err);

    assert!(msg.contains("Failed to parse response"));
}

#[test]
fn parse_chat_response_rejects_a_choice_without_text() {
    let err = parse_chat_response(r#"{"choices":[{"message":{}}]}"#).unwrap_err();
    assert!(format!("{:?}", err).contains("Failed to parse response"));
    let err = parse_chat_response(r#"{"choices":[{"message":{"content":"a"}}],"usage":{"prompt_tokens":1}}"#)
        .unwrap_err();
    assert!(format!("{:?}", err).contains("Failed to parse response"));
}

#[test]
fn parse_chat_response_takes_the_first_choice() {
    let body = r#"{"choices":[{"message":{"content":"one"},"finish_reason":null},{"message":{"content":"two"}}],"model":null}"#;
    let result = parse_chat_response_full(body).expect("two choices parse");
    assert_eq!(result.text, "one");
    assert!(result.finish_reason.is_none());
    assert!(result.model.is_none());
}

#[test]
fn format_api_error_takes_the_status_text_as_given() {
    assert_eq!(
        format_api_error("418 I'm a teapot", r#"{"error":{"message":"short and stout"}}"#),
        "API error (418 I'm a teapot): short and stout"
    );
    assert_eq!(
        format_api_error("500 Internal Server Error", r#"{"error":{"code":1}}"#),
        "API error (500 Internal Server Error): {\"error\":{\"code\":1}}"
    );
}

#[test]
fn read_chat_response_reads_a_document() {
    let message = Json::Object(vec![("content".to_string(), Json::Text("hi".to_string()))]);
    let choice = Json::Object(vec![
        ("message".to_string(), message),
        ("finish_reason".to_string(), Json::Text("stop".to_string())),
    ]);
    let doc = Json::Object(vec![("choices".to_string(), Json::Array(vec![choice]))]);
    let parsed = read_chat_response(&doc).expect("document reads");
    assert_eq!(parsed.text, "hi");
    assert_eq!(parsed.finish_reason.as_deref(), Some("stop"));
    let empty = Json::Object(vec![("choices".to_string(), Json::Array(vec![]))]);
    assert!(format!("{:?}", read_chat_response(&empty).unwrap_err()).contains("No choices returned"));
}
