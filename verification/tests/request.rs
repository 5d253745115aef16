//! Canonical prompts.

use kvrouters::{ChatCompletionRequest, ChatMessage};

fn request(messages: Vec<(&str, &str)>) -> ChatCompletionRequest {
    ChatCompletionRequest {
        model: "mock".to_string(),
        messages: messages
            .into_iter()
            .map(|(role, content)| ChatMessage {
                role: role.to_string(),
                content: content.to_string(),
            })
            .collect(),
        max_tokens: None,
        stream: false,
    }
}

#[test]
fn canonical_prompt_is_deterministic() {
    let a = request(vec![("user", "hello")]);
    let b = request(vec![("user", "hello")]);
    assert_eq!(a.canonical_prompt(), b.canonical_prompt());
    assert_eq!(a.canonical_prompt(), "user: hello");
}

#[test]
fn canonical_prompt_joins_messages_in_order_with_roles() {
    let request = request(vec![("user", "first"), ("assistant", "second")]);
    assert_eq!(request.canonical_prompt(), "user: first\nassistant: second");
}

#[test]
fn role_changes_are_visible_in_the_prompt() {
    let as_user = request(vec![("user", "same words")]);
    let as_assistant = request(vec![("assistant", "same words")]);
    assert_ne!(as_user.canonical_prompt(), as_assistant.canonical_prompt());
}

#[test]
fn later_turns_extend_the_prompt() {
    let first = request(vec![("system", "be brief"), ("user", "hi")]).canonical_prompt();
    let second = request(vec![
        ("system", "be brief"),
        ("user", "hi"),
        ("assistant", "hello"),
    ])
    .canonical_prompt();
    assert!(second.starts_with(&first));
    assert_eq!(second, "system: be brief\nuser: hi\nassistant: hello");
    assert_eq!(request(vec![]).canonical_prompt(), "");
}
