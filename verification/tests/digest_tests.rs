use ironclad_agent::context::Message;
use ironclad_agent::digest::{calculate_importance, truncate_str, EpisodicDigest};

#[test]
fn calculate_importance_base() {
    assert_eq!(calculate_importance(1, 0), 5);
    assert_eq!(calculate_importance(5, 1), 7);
    assert_eq!(calculate_importance(20, 5), 10);
}

#[test]
fn truncate_str_short() {
    assert_eq!(truncate_str("hello", 10), "hello");
}

#[test]
fn truncate_str_long() {
    let long = "a".repeat(300);
    assert!(truncate_str(&long, 200).len() <= 200);
}

#[test]
fn empty_session_produces_no_digest() {
    let digest = EpisodicDigest::from_messages("sid-1", "agent-1", &[]);
    assert!(digest.is_none());
}

#[test]
fn session_with_messages_produces_digest() {
    let msgs = vec![
        Message::new("user", "How do I sort a vector in Rust?"),
        Message::new("assistant", "Use vec.sort() or vec.sort_by()"),
    ];
    let digest = EpisodicDigest::from_messages("sid-1", "agent-1", &msgs).unwrap();
    assert_eq!(digest.session_id, "sid-1");
    assert!(!digest.summary.is_empty());
    assert!(digest.summary.contains("sort"));
    assert_eq!(digest.turn_count, 2);
    assert!(!digest.key_topics.is_empty());
}

#[test]
fn digest_persist_stores_in_episodic_memory() {
    let msgs = vec![
        Message::new("user", "Tell me about Rust"),
        Message::new("assistant", "Rust is a systems language"),
    ];
    let digest = EpisodicDigest::from_messages("sid-2", "agent-1", &msgs).unwrap();
    let content = digest.memory_content();
    assert!(content.starts_with("[Session Digest] "));
    assert!(content.contains("Turns: 2"));
}

#[test]
fn topics_limited_to_five() {
    let mut msgs = Vec::new();
    for i in 0..10 {
        msgs.push(Message::new("user", &format!("Topic {i}")));
        msgs.push(Message::new("assistant", "response"));
    }
    let digest = EpisodicDigest::from_messages("sid-3", "agent-1", &msgs).unwrap();
    assert!(digest.key_topics.len() <= 5);
}

#[test]
fn importance_caps_at_ten() {
    assert_eq!(calculate_importance(1000, 1000), 10);
}

#[test]
fn truncate_str_never_splits_a_character() {
    let s = "é".repeat(10);
    let t = truncate_str(&s, 5);
    assert!(t.len() <= 5);
    assert!(s.starts_with(&t));
}
