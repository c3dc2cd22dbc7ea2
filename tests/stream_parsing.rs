use rusty_agent_sdk::models::{parse_sse_event, parse_sse_line, StreamEvent, StreamMetadata};

#[test]
fn parse_sse_line_extracts_content_chunk() {
    let line = r#"data: {"choices":[{"delta":{"content":"Hel"}}]}"#;

    let events = parse_sse_line(line).expect("line should parse");

    assert_eq!(events, vec![StreamEvent::Content("Hel".to_string())]);
}

#[test]
fn parse_sse_line_marks_done_sentinel() {
    let events = parse_sse_line("data: [DONE]").expect("done sentinel should parse");

    assert_eq!(events, vec![StreamEvent::Done]);
}

#[test]
fn parse_sse_line_ignores_non_data_lines() {
    let events = parse_sse_line("event: completion").expect("non-data line should be ignored");

    assert_eq!(events, vec![StreamEvent::Ignore]);
}

#[test]
fn parse_sse_line_ignores_empty_content() {
    let line = r#"data: {"choices":[{"delta":{"content":""}}]}"#;

    let events = parse_sse_line(line).expect("line should parse");

    assert_eq!(events, vec![StreamEvent::Ignore]);
}

#[test]
fn parse_sse_line_returns_error_for_malformed_data_payload() {
    let err = parse_sse_line("data: {not-json}").expect_err("malformed payload should fail");
    let message = format!("{:?}", err);

    assert!(message.contains("Failed to parse streaming response chunk"));
}

#[test]
fn parse_sse_event_joins_multiline_data_payload() {
    let event = "event: message\ndata: {\"choices\":[{\"delta\":\ndata: {\"content\":\"Hi\"}}]}";
    let parsed = parse_sse_event(event).expect("multiline data should parse");
    assert_eq!(parsed, vec![StreamEvent::Content("Hi".to_string())]);
}

#[test]
fn parse_sse_event_ignores_events_without_data_lines() {
    let event = "id: 1\nevent: ping";
    let parsed = parse_sse_event(event).expect("event without data should be ignored");
    assert_eq!(parsed, vec![StreamEvent::Ignore]);
}

#[test]
fn parse_event_ping_without_data_is_ignored() {
    let parsed = parse_sse_event("event: ping").expect("ping should be ignored");
    assert_eq!(parsed, vec![StreamEvent::Ignore]);
}

#[test]
fn parse_event_content_and_finish_reason_gives_two_events() {
    let event = r#"data: {"choices":[{"delta":{"content":"Bye"},"finish_reason":"stop"}],"model":"m1"}"#;
    let parsed = parse_sse_event(event).expect("chunk should parse");
    assert_eq!(
        parsed,
        vec![
            StreamEvent::Content("Bye".to_string()),
            StreamEvent::Metadata(StreamMetadata {
                usage: None,
                finish_reason: Some("stop".to_string()),
                model: Some("m1".to_string()),
            }),
        ]
    );
}

#[test]
fn parse_event_usage_only_gives_metadata() {
    let event = r#"data: {"choices":[],"usage":{"prompt_tokens":3,"completion_tokens":4,"total_tokens":7}}"#;
    let parsed = parse_sse_event(event).expect("usage chunk should parse");
    match &parsed[..] {
        [StreamEvent::Metadata(m)] => {
            let u = m.usage.expect("usage present");
            assert_eq!((u.prompt_tokens, u.completion_tokens, u.total_tokens), (3, 4, 7));
            assert_eq!(m.finish_reason, None);
            assert_eq!(m.model, None);
        }
        other => panic!("unexpected events {:?}", other),
    }
}

#[test]
fn parse_event_blank_data_payload_is_ignored() {
    let parsed = parse_sse_event("data:   ").expect("blank payload is ignored");
    assert_eq!(parsed, vec![StreamEvent::Ignore]);
}

#[test]
fn parse_event_chunk_of_wrong_shape_fails() {
    let err = parse_sse_event(r#"data: {"choices":{}}"#).expect_err("choices must be a list");
    assert!(format!("{:?}", err).contains("Failed to parse streaming response chunk"));
    let err = parse_sse_event(r#"data: {"choices":[{"delta":{"content":5}}]}"#)
        .expect_err("content must be text");
    assert!(format!("{:?}", err).contains("Failed to parse streaming response chunk"));
}

#[test]
fn parse_sse_line_strips_carriage_returns() {
    let events = parse_sse_line("data: [DONE]\r\r").expect("done with CRs");
    assert_eq!(events, vec![StreamEvent::Done]);
    let events = parse_sse_line("  \r").expect("blank line");
    assert_eq!(events, vec![StreamEvent::Ignore]);
}
