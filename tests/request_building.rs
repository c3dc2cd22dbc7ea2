use rusty_agent_sdk::models::{build_messages, ChatMessage};

#[test]
fn build_messages_from_prompt_only() {
    let msgs = build_messages(Some("Hello"), None, None)
        .expect("should build from prompt");
    assert_eq!(msgs.len(), 1);
    assert_eq!(msgs[0].role, "user");
    assert_eq!(msgs[0].content, "Hello");
}

#[test]
fn build_messages_with_system_prompt_and_prompt() {
    let msgs = build_messages(Some("Hello"), Some("You are helpful"), None)
        .expect("should build with system_prompt");
    assert_eq!(msgs.len(), 2);
    assert_eq!(msgs[0].role, "system");
    assert_eq!(msgs[0].content, "You are helpful");
    assert_eq!(msgs[1].role, "user");
    assert_eq!(msgs[1].content, "Hello");
}

#[test]
fn build_messages_from_messages_list() {
    let input = vec![
        ChatMessage {
            role: "user".into(),
            content: "Hi".into(),
        },
        ChatMessage {
            role: "assistant".into(),
            content: "Hello".into(),
        },
        ChatMessage {
            role: "user".into(),
            content: "How are you?".into(),
        },
    ];
    let msgs =
        build_messages(None, None, Some(input)).expect("should use messages");
    assert_eq!(msgs.len(), 3);
    assert_eq!(msgs[0].role, "user");
    assert_eq!(msgs[2].content, "How are you?");
}

#[test]
fn build_messages_with_system_prompt_and_messages_list() {
    let input = vec![ChatMessage {
        role: "user".into(),
        content: "Hi".into(),
    }];
    let msgs = build_messages(None, Some("Be concise"), Some(input))
        .expect("should prepend system_prompt");
    assert_eq!(msgs.len(), 2);
    assert_eq!(msgs[0].role, "system");
    assert_eq!(msgs[0].content, "Be concise");
    assert_eq!(msgs[1].role, "user");
}

#[test]
fn build_messages_prefers_messages_over_prompt() {
    let input = vec![ChatMessage {
        role: "user".into(),
        content: "From messages".into(),
    }];
    let msgs = build_messages(Some("From prompt"), None, Some(input))
        .expect("should prefer messages");
    assert_eq!(msgs.len(), 1);
    assert_eq!(msgs[0].content, "From messages");
}

#[test]
fn build_messages_fails_when_neither_prompt_nor_messages() {
    let err = build_messages(None, None, None).unwrap_err();
    let msg = format!("{:?}", err);
    assert!(msg.contains("Either 'prompt' or 'messages'"));
}
