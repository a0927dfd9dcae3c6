use ironclad_agent::context::{CompactionStage, Message};
use ironclad_agent::governor::{adjust_priority, archive_digest, archive_stage, archive_trim_len};

fn conversation(n: usize, prefix: &str) -> Vec<Message> {
    (0..n)
        .map(|i| {
            let role = if i % 2 == 0 { "user" } else { "assistant" };
            Message::new(role, &format!("{prefix}{i}"))
        })
        .collect()
}

#[test]
fn compact_before_archive_fewer_than_4_messages_is_noop() {
    assert_eq!(archive_trim_len(2), None);
    assert_eq!(archive_trim_len(0), None);
}

#[test]
fn compact_before_archive_exactly_4_messages_is_noop() {
    assert_eq!(archive_trim_len(4), None);
}

#[test]
fn compact_before_archive_with_enough_messages_appends_digest() {
    assert_eq!(archive_trim_len(6), Some(2));
    let msgs = conversation(6, "message number ");
    let digest = archive_digest(&msgs[..2], archive_stage(10));
    assert!(digest.contains("[Conversation Summary"), "expected summary header");
}

#[test]
fn compact_before_archive_trims_old_keeps_recent_4() {
    let msgs = conversation(8, "content-");
    let n = archive_trim_len(msgs.len()).unwrap();
    assert_eq!(n, 4);
    let digest = archive_digest(&msgs[..n], CompactionStage::Verbatim);
    assert!(digest.contains("content-0"), "summary should include trimmed message 0");
    assert!(digest.contains("content-3"), "summary should include trimmed message 3");
    assert!(!digest.contains("content-4"));
}

#[test]
fn archive_digest_exact_text() {
    let msgs = vec![
        Message::new("system", "rules"),
        Message::new("user", "hi"),
        Message::new("assistant", "hello"),
    ];
    assert_eq!(
        archive_digest(&msgs, CompactionStage::SelectiveTrim),
        "[Conversation Summary — SelectiveTrim]\nuser: hi\nassistant: hello"
    );
}

#[test]
fn archive_digest_of_system_messages_only_keeps_contents() {
    let msgs = vec![Message::new("system", "a"), Message::new("system", "b")];
    assert_eq!(
        archive_digest(&msgs, CompactionStage::Verbatim),
        "[Conversation Summary — Verbatim]\na\nb"
    );
}

#[test]
fn archive_digest_body_capped_at_2000_chars() {
    let long = "é".repeat(3000);
    let msgs = vec![Message::new("system", &long)];
    let digest = archive_digest(&msgs, CompactionStage::Skeleton);
    let header = "[Conversation Summary — Skeleton]\n";
    assert!(digest.starts_with(header));
    assert_eq!(digest[header.len()..].chars().count(), 2000);
}

#[test]
fn archive_stage_thresholds() {
    assert_eq!(archive_stage(500), CompactionStage::Verbatim);
    assert_eq!(archive_stage(501), CompactionStage::SelectiveTrim);
    assert_eq!(archive_stage(750), CompactionStage::SelectiveTrim);
    assert_eq!(archive_stage(751), CompactionStage::SemanticCompress);
    assert_eq!(archive_stage(1250), CompactionStage::SemanticCompress);
    assert_eq!(archive_stage(2000), CompactionStage::TopicExtract);
    assert_eq!(archive_stage(2001), CompactionStage::Skeleton);
}

#[test]
fn adjust_priorities_boosts_reliable_skills() {
    // success 7, failure 0: more than five uses, all successful
    let p = adjust_priority(50, 7, 0, 10, 5).unwrap();
    assert!(p > 50, "priority should have been boosted from 50, got {p}");
    assert_eq!(p, 60);
    assert_eq!(adjust_priority(95, 7, 0, 10, 5), Some(100));
    assert_eq!(adjust_priority(100, 7, 0, 10, 5), None);
}

#[test]
fn adjust_priorities_decays_unreliable_skills() {
    let p = adjust_priority(50, 1, 3, 10, 5).unwrap();
    assert!(p < 50, "priority should have decayed from 50, got {p}");
    assert_eq!(p, 45);
    assert_eq!(adjust_priority(3, 1, 3, 10, 5), Some(0));
    assert_eq!(adjust_priority(0, 1, 3, 10, 5), None);
}

#[test]
fn adjust_priorities_leaves_middling_skills() {
    // exactly 80% is not above it
    assert_eq!(adjust_priority(50, 8, 2, 10, 5), None);
    // five uses are not more than five
    assert_eq!(adjust_priority(50, 5, 0, 10, 5), None);
    assert_eq!(adjust_priority(50, 9, 2, 10, 5), Some(60));
    assert_eq!(adjust_priority(50, 2, 2, 10, 5), None);
}
