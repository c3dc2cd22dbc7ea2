use rusty_agent_sdk::errors::SdkError;
use rusty_agent_sdk::frame::SseFramer;
use rusty_agent_sdk::http::{is_retryable_status, is_success_status, retry_delay};
use rusty_agent_sdk::stream::{
    backoff_step, connect_action, ConnectAction, ConnectOutcome, Delivery, StreamSession, WaitStep,
};
use rusty_agent_sdk::json::Json;
use rusty_agent_sdk::models::{chunk_to_events, StreamEvent};

const BODY: &str = "data: {\"choices\":[{\"delta\":{\"content\":\"Hé\"}}]}\r\n\r\n\
: keep-alive\n\n\
data: {\"choices\":[{\"delta\":{\"content\":\"llo \"}}]}\n\n\
data: {\"choices\":[{\"delta\":{\"content\":\"wörld\"},\"finish_reason\":\"stop\"}]}\n\n\
data: [DONE]\n\n";

fn frames(chunks: &[&[u8]]) -> Vec<Vec<u8>> {
    let mut framer = SseFramer::new();
    let mut out = Vec::new();
    for c in chunks {
        out.extend(framer.push_chunk(c));
    }
    out.extend(framer.finish());
    out
}

fn fragments(chunks: &[&[u8]]) -> (Vec<String>, Vec<Delivery>) {
    let mut session = StreamSession::new();
    let mut texts = Vec::new();
    let mut all = Vec::new();
    for c in chunks {
        all.extend(session.on_chunk(c));
    }
    all.extend(session.on_body_end());
    for d in &all {
        if let Delivery::Fragment(t) = d {
            texts.push(t.clone());
        }
    }
    (texts, all)
}

#[test]
fn framing_does_not_depend_on_chunk_boundaries() {
    let body = BODY.as_bytes();
    let whole = frames(&[body]);
    assert_eq!(whole.len(), 5);
    for cut in 0..=body.len() {
        let (a, b) = body.split_at(cut);
        assert_eq!(frames(&[a, b]), whole, "split at {}", cut);
    }
    let bytes: Vec<&[u8]> = body.chunks(1).collect();
    assert_eq!(frames(&bytes), whole);
}

#[test]
fn fragments_do_not_depend_on_chunk_boundaries() {
    let body = BODY.as_bytes();
    let (whole, _) = fragments(&[body]);
    assert_eq!(whole, vec!["Hé", "llo ", "wörld"]);
    for cut in 0..=body.len() {
        let (a, b) = body.split_at(cut);
        assert_eq!(fragments(&[a, b]).0, whole, "split at {}", cut);
    }
}

#[test]
fn framer_strips_carriage_return_and_joins_lines() {
    let events = frames(&[b"id: 1\r\ndata: a\r\ndata: b\r\n\r\n"]);
    assert_eq!(events, vec![b"id: 1\ndata: a\ndata: b".to_vec()]);
}

#[test]
fn final_event_without_blank_line_is_flushed() {
    let (texts, all) = fragments(&[b"data: {\"choices\":[{\"delta\":{\"content\":\"tail\"},\"finish_reason\":\"length\"}]}"]);
    assert_eq!(texts, vec!["tail"]);
    assert_eq!(all.len(), 2);
    match &all[1] {
        Delivery::Metadata(m) => assert_eq!(m.finish_reason.as_deref(), Some("length")),
        other => panic!("unexpected {:?}", other),
    }
}

#[test]
fn done_ends_the_stream() {
    let mut session = StreamSession::new();
    let out = session.on_chunk(b"data: [DONE]\n\ndata: {\"choices\":[{\"delta\":{\"content\":\"late\"}}]}\n\n");
    assert!(out.is_empty());
    assert!(session.is_stopped());
    assert!(session.on_chunk(b"data: {\"choices\":[{\"delta\":{\"content\":\"x\"}}]}\n\n").is_empty());
    assert!(session.on_body_end().is_empty());
}

#[test]
fn malformed_payload_fails_and_nothing_follows() {
    let mut session = StreamSession::new();
    let body = "data: {\"choices\":[{\"delta\":{\"content\":\"ok\"}}]}\n\n\
data: {not-json}\n\n\
data: {\"choices\":[{\"delta\":{\"content\":\"after\"}}]}\n\n";
    let out = session.on_chunk(body.as_bytes());
    assert_eq!(out.len(), 2);
    assert!(matches!(&out[0], Delivery::Fragment(t) if t == "ok"));
    match &out[1] {
        Delivery::Failure(SdkError::Runtime(m)) => {
            assert!(m.contains("Failed to parse streaming response chunk"))
        }
        other => panic!("unexpected {:?}", other),
    }
    assert!(session.is_stopped());
    assert!(session.on_chunk(b"data: {\"choices\":[{\"delta\":{\"content\":\"x\"}}]}\n\n").is_empty());
}

#[test]
fn transport_failure_while_streaming_is_terminal() {
    let mut session = StreamSession::new();
    let out = session.on_chunk(b"data: {\"choices\":[{\"delta\":{\"content\":\"a\"}}]}\n\n");
    assert_eq!(out.len(), 1);
    let out = session.on_transport_error("connection reset");
    assert_eq!(out.len(), 1);
    assert!(matches!(&out[0], Delivery::Failure(SdkError::Runtime(m)) if m == "connection reset"));
    assert!(session.is_stopped());
    assert!(session.on_chunk(b"data: {\"choices\":[{\"delta\":{\"content\":\"b\"}}]}\n\n").is_empty());
    assert!(session.on_transport_error("again").is_empty());
}

#[test]
fn inactivity_beyond_the_request_timeout_fails() {
    let mut session = StreamSession::new();
    assert!(session.on_idle(59_900, 60_000).is_empty());
    assert!(!session.is_stopped());
    let out = session.on_idle(60_000, 60_000);
    match &out[..] {
        [Delivery::Failure(SdkError::Runtime(m))] => {
            assert_eq!(m, "Streaming response timed out after 60s of inactivity.")
        }
        other => panic!("unexpected {:?}", other),
    }
    assert!(session.is_stopped());
}

#[test]
fn cancellation_ends_the_stream_silently() {
    let mut session = StreamSession::new();
    session.on_chunk(b"data: {\"choices\":[{\"delta\":{\"con");
    session.cancel();
    assert!(session.on_chunk(b"tent\":\"x\"}}]}\n\n").is_empty());
    assert!(session.on_body_end().is_empty());
    assert!(session.on_idle(u64::MAX, 1).is_empty());
    assert!(matches!(backoff_step(true, 100, 1000), WaitStep::Cancelled));
    assert!(matches!(backoff_step(false, 100, 1000), WaitStep::Sleep));
    assert!(matches!(backoff_step(true, 1000, 1000), WaitStep::Resume));
}

#[test]
fn backoff_doubles_and_is_capped() {
    let delays: Vec<u64> = (0..5).map(|k| retry_delay(250, k)).collect();
    assert_eq!(delays, vec![250, 500, 1000, 2000, 4000]);
    assert_eq!(retry_delay(250, 8), 250 * 256);
    assert_eq!(retry_delay(250, 30), 250 * 256);
    assert_eq!(retry_delay(u64::MAX / 2, 3), u64::MAX);
}

#[test]
fn retryable_statuses() {
    for s in [429u16, 500, 502, 503, 504] {
        assert!(is_retryable_status(s));
    }
    for s in [200u16, 400, 401, 404, 501, 505] {
        assert!(!is_retryable_status(s));
    }
    assert!(is_success_status(200) && is_success_status(299));
    assert!(!is_success_status(300) && !is_success_status(199));
}

#[test]
fn retryable_status_is_retried_until_attempts_run_out() {
    let rejected = || ConnectOutcome::Rejected { status: 503, body: "busy".to_string() };
    assert!(matches!(connect_action(0, 2, 250, rejected()), ConnectAction::Retry { delay_ms: 250 }));
    assert!(matches!(connect_action(1, 2, 250, rejected()), ConnectAction::Retry { delay_ms: 500 }));
    match connect_action(2, 2, 250, rejected()) {
        ConnectAction::Fail(SdkError::Runtime(m)) => {
            assert_eq!(m, "API error (503 Service Unavailable): busy")
        }
        other => panic!("unexpected {:?}", other),
    }
    assert!(matches!(connect_action(0, 2, 250, ConnectOutcome::Accepted), ConnectAction::Stream));
}

#[test]
fn non_retryable_failures_fail_at_once() {
    let out = connect_action(
        0,
        5,
        250,
        ConnectOutcome::Rejected { status: 401, body: r#"{"error":{"message":"Invalid key"}}"#.to_string() },
    );
    assert!(matches!(out, ConnectAction::Fail(SdkError::Runtime(m)) if m == "API error (401 Unauthorized): Invalid key"));
    let out = connect_action(
        0,
        5,
        250,
        ConnectOutcome::Transport { retryable: false, message: "bad url".to_string() },
    );
    assert!(matches!(out, ConnectAction::Fail(SdkError::Connection(m)) if m == "bad url"));
    let out = connect_action(
        5,
        5,
        250,
        ConnectOutcome::Transport { retryable: true, message: "timed out".to_string() },
    );
    assert!(matches!(out, ConnectAction::Fail(SdkError::Connection(m)) if m == "timed out"));
    let out = connect_action(
        1,
        5,
        100,
        ConnectOutcome::Transport { retryable: true, message: "timed out".to_string() },
    );
    assert!(matches!(out, ConnectAction::Retry { delay_ms: 200 }));
}

#[test]
fn error_constructors_keep_their_message() {
    assert_eq!(SdkError::connection("c"), SdkError::Connection("c".to_string()));
    assert_eq!(SdkError::runtime("r"), SdkError::Runtime("r".to_string()));
    assert_eq!(SdkError::value("v"), SdkError::Value("v".to_string()));
}

#[test]
fn invalid_utf8_in_an_event_is_replaced() {
    let mut session = StreamSession::new();
    let mut body = b"data: {\"choices\":[{\"delta\":{\"content\":\"a".to_vec();
    body.push(0xff);
    body.extend_from_slice(b"b\"}}]}\n\n");
    let out = session.on_chunk(&body);
    assert!(matches!(&out[..], [Delivery::Fragment(t)] if t == "a\u{fffd}b"));
}

#[test]
fn decoded_documents_are_read_into_events() {
    let delta = Json::Object(vec![("content".to_string(), Json::Text("x".to_string()))]);
    let choice = Json::Object(vec![("delta".to_string(), delta)]);
    let doc = Json::Object(vec![
        ("choices".to_string(), Json::Array(vec![choice])),
        ("usage".to_string(), Json::Null),
    ]);
    assert_eq!(chunk_to_events(&doc), Some(vec![StreamEvent::Content("x".to_string())]));
    let bad = Json::Object(vec![("choices".to_string(), Json::Number(Some(1)))]);
    assert_eq!(chunk_to_events(&bad), None);
    let usage = Json::Object(vec![
        ("prompt_tokens".to_string(), Json::Number(Some(1))),
        ("completion_tokens".to_string(), Json::Number(None)),
        ("total_tokens".to_string(), Json::Number(Some(2))),
    ]);
    let doc = Json::Object(vec![
        ("choices".to_string(), Json::Array(vec![])),
        ("usage".to_string(), usage),
    ]);
    assert_eq!(chunk_to_events(&doc), None);
}
