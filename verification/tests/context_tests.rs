use ironclad_agent::context::{
    build_compaction_prompt, build_context, compact_to_stage, compress_context, count_tokens,
    extract_topic_sentence, extract_trimmable, find_last_role, inject_instruction_reminder,
    insert_compaction_summary, selective_trim, semantic_compress, skeleton_compress, soft_trim,
    token_budget, topic_extract, CompactionStage, ComplexityLevel, Message, TextCompressor,
};
use ironclad_agent::retrieval::estimate_tokens;

struct Unchanged;

impl TextCompressor for Unchanged {
    fn compress(&self, text: &str) -> String {
        text.to_string()
    }
}

struct Halving;

impl TextCompressor for Halving {
    fn compress(&self, text: &str) -> String {
        text[..text.len() / 2].to_string()
    }
}

fn make_msg(role: &str, content: &str) -> Message {
    Message::new(role, content)
}

#[test]
fn budget_values() {
    assert_eq!(token_budget(ComplexityLevel::L0), 4_000);
    assert_eq!(token_budget(ComplexityLevel::L1), 8_000);
    assert_eq!(token_budget(ComplexityLevel::L2), 16_000);
    assert_eq!(token_budget(ComplexityLevel::L3), 32_000);
}

#[test]
fn context_assembly_respects_budget() {
    let sys = "You are a helpful agent.";
    let mem = "User prefers concise answers.";
    let history = vec![make_msg("user", "Hello"), make_msg("assistant", "Hi there!")];

    let ctx = build_context(ComplexityLevel::L0, sys, mem, &history);

    assert!(!ctx.is_empty());
    assert_eq!(ctx[0].role, "system");
    assert_eq!(ctx[0].content, sys);

    let total_chars: usize = ctx.iter().map(|m| m.content.len()).sum();
    let total_tokens = total_chars.div_ceil(4);
    assert!(total_tokens <= token_budget(ComplexityLevel::L0));
}

#[test]
fn context_truncates_old_history() {
    let sys = "System prompt";
    let mem = "";
    let big_msg = "x".repeat(8000);
    let history = vec![make_msg("user", &big_msg), make_msg("user", "recent message")];

    let ctx = build_context(ComplexityLevel::L0, sys, mem, &history);
    assert!(ctx.len() >= 2);
    assert_eq!(ctx.last().unwrap().content, "recent message");
}

#[test]
fn count_tokens_basic() {
    let msgs = vec![make_msg("user", "hello world")];
    let tokens = count_tokens(&msgs);
    assert!(tokens > 0);
    assert_eq!(tokens, estimate_tokens("hello world"));
}

#[test]
fn soft_trim_preserves_recent() {
    let mut msgs = Vec::new();
    msgs.push(make_msg("system", "sys"));
    for i in 0..20 {
        msgs.push(make_msg(
            if i % 2 == 0 { "user" } else { "assistant" },
            &format!("message {i}"),
        ));
    }
    // 200 tokens at a soft trim ratio of 0.8.
    let result = soft_trim(&msgs, 160, 5);
    assert!(result.messages[0].role == "system");
    assert!(result.trimmed_count > 0);
    let last = result.messages.last().unwrap();
    assert_eq!(last.content, "message 19");
}

#[test]
fn extract_trimmable_gets_old_messages() {
    let mut msgs = Vec::new();
    msgs.push(make_msg("system", "sys"));
    for i in 0..10 {
        msgs.push(make_msg("user", &format!("msg {i}")));
    }
    let trimmed = extract_trimmable(&msgs, 3);
    assert_eq!(trimmed.len(), 7);
    assert_eq!(trimmed[0].content, "msg 0");
}

#[test]
fn build_compaction_prompt_format() {
    let msgs = vec![make_msg("user", "hi"), make_msg("assistant", "hello")];
    let prompt = build_compaction_prompt(&msgs);
    assert!(prompt.contains("Summarize"));
    assert!(prompt.contains("user: hi"));
    assert!(prompt.contains("assistant: hello"));
}

#[test]
fn insert_compaction_summary_placement() {
    let mut msgs = vec![make_msg("system", "sys"), make_msg("user", "hi")];
    insert_compaction_summary(&mut msgs, "summary here".into());
    assert_eq!(msgs.len(), 3);
    assert_eq!(msgs[0].role, "system");
    assert_eq!(msgs[1].role, "system");
    assert!(msgs[1].content.contains("summary here"));
    assert_eq!(msgs[2].role, "user");
}

#[test]
fn insert_compaction_summary_no_system_messages() {
    let mut msgs = vec![make_msg("user", "hello"), make_msg("assistant", "hi")];
    insert_compaction_summary(&mut msgs, "compacted info".into());
    assert_eq!(msgs.len(), 3);
    assert_eq!(msgs[0].role, "system");
    assert!(msgs[0].content.contains("compacted info"));
    assert_eq!(msgs[1].role, "user");
}

#[test]
fn insert_compaction_summary_all_system_messages() {
    let mut msgs = vec![make_msg("system", "sys1"), make_msg("system", "sys2")];
    insert_compaction_summary(&mut msgs, "final summary".into());
    assert_eq!(msgs.len(), 3);
    assert_eq!(msgs[2].role, "system");
    assert!(msgs[2].content.contains("final summary"));
}

#[test]
fn build_context_sys_prompt_exceeds_budget() {
    let big_sys = "z".repeat(20_000);
    let mem = "";
    let history = vec![make_msg("user", "hi")];

    let ctx = build_context(ComplexityLevel::L0, &big_sys, mem, &history);
    assert!(!ctx.is_empty());
    assert_eq!(ctx[0].role, "system");
    assert!(ctx[0].content.len() < big_sys.len());
    assert!(!ctx[0].content.is_empty());
}

#[test]
fn build_context_empty_history() {
    let sys = "Agent prompt";
    let mem = "Memory info";
    let history: Vec<Message> = vec![];

    let ctx = build_context(ComplexityLevel::L1, sys, mem, &history);
    assert_eq!(ctx.len(), 2);
    assert_eq!(ctx[0].content, sys);
    assert_eq!(ctx[1].content, mem);
}

#[test]
fn soft_trim_no_non_system_messages() {
    let msgs = vec![make_msg("system", "sys")];
    let result = soft_trim(&msgs, 160, 5);
    assert_eq!(result.messages.len(), 1);
    assert_eq!(result.trimmed_count, 0);
}

#[test]
fn extract_trimmable_fewer_than_preserve() {
    let msgs = vec![make_msg("user", "only one")];
    let trimmed = extract_trimmable(&msgs, 5);
    assert!(trimmed.is_empty());
}

#[test]
fn count_tokens_empty() {
    assert_eq!(count_tokens(&[]), 0);
}

#[test]
fn compaction_stage_ordering() {
    assert!(CompactionStage::Verbatim < CompactionStage::SelectiveTrim);
    assert!(CompactionStage::SelectiveTrim < CompactionStage::SemanticCompress);
    assert!(CompactionStage::SemanticCompress < CompactionStage::TopicExtract);
    assert!(CompactionStage::TopicExtract < CompactionStage::Skeleton);
}

#[test]
fn selective_trim_removes_filler() {
    let msgs = vec![
        make_msg("system", "sys prompt"),
        make_msg("user", "hello"),
        make_msg("assistant", "ok"),
        make_msg(
            "user",
            "Please analyze the data and find anomalies in the revenue stream",
        ),
        make_msg("assistant", "thanks"),
    ];
    let result = selective_trim(&msgs);
    assert_eq!(result.len(), 2);
    assert_eq!(result[0].role, "system");
    assert!(result[1].content.contains("analyze the data"));
}

#[test]
fn selective_trim_keeps_all_long_messages() {
    let msgs = vec![
        make_msg(
            "user",
            "This is a long enough message that should never be trimmed away",
        ),
        make_msg(
            "assistant",
            "I agree, this response is also long enough to stay around",
        ),
    ];
    let result = selective_trim(&msgs);
    assert_eq!(result.len(), 2);
}

#[test]
fn topic_extract_takes_first_sentence() {
    let msgs = vec![
        make_msg("system", "You are helpful."),
        make_msg(
            "user",
            "Deploy the model to production. Then run the test suite. Finally update docs.",
        ),
    ];
    let result = topic_extract(&msgs);
    assert_eq!(result.len(), 2);
    assert_eq!(result[0].content, "You are helpful.");
    assert_eq!(result[1].content, "Deploy the model to production.");
}

#[test]
fn skeleton_compress_creates_outline() {
    let msgs = vec![
        make_msg("system", "System prompt"),
        make_msg("user", "How does authentication work in this app?"),
        make_msg(
            "assistant",
            "Authentication uses JWT tokens with a 24-hour expiry. The flow starts at the login endpoint.",
        ),
    ];
    let result = skeleton_compress(&msgs);
    assert_eq!(result.len(), 2);
    assert_eq!(result[0].content, "System prompt");
    assert_eq!(result[1].role, "assistant");
    assert!(result[1].content.contains("[Conversation Skeleton]"));
    assert!(result[1].content.contains("[user]"));
    assert!(result[1].content.contains("[assistant]"));
}

#[test]
fn skeleton_compress_empty_non_system() {
    let msgs = vec![make_msg("system", "sys")];
    let result = skeleton_compress(&msgs);
    assert_eq!(result.len(), 1);
    assert_eq!(result[0].role, "system");
}

#[test]
fn compact_to_stage_verbatim_is_identity() {
    let msgs = vec![make_msg("user", "test"), make_msg("assistant", "resp")];
    let result = compact_to_stage(&msgs, CompactionStage::Verbatim, &Unchanged);
    assert_eq!(result.len(), msgs.len());
    assert_eq!(result[0].content, "test");
    assert_eq!(result[1].content, "resp");
}

#[test]
fn compact_to_stage_dispatches_correctly() {
    let msgs = vec![
        make_msg("user", "hi"),
        make_msg(
            "user",
            "Analyze the market data and identify trends in revenue growth over Q3",
        ),
    ];
    let trimmed = compact_to_stage(&msgs, CompactionStage::SelectiveTrim, &Unchanged);
    assert_eq!(trimmed.len(), 1);
    assert!(trimmed[0].content.contains("Analyze"));
}

#[test]
fn extract_topic_sentence_with_period() {
    assert_eq!(
        extract_topic_sentence("First sentence. Second sentence. Third."),
        "First sentence."
    );
}

#[test]
fn extract_topic_sentence_with_question() {
    assert_eq!(
        extract_topic_sentence("What is this? More details here."),
        "What is this?"
    );
}

#[test]
fn extract_topic_sentence_no_punctuation() {
    let short = "Just some text without ending";
    assert_eq!(extract_topic_sentence(short), short);
}

#[test]
fn extract_topic_sentence_very_long() {
    let long = "x".repeat(200);
    let result = extract_topic_sentence(&long);
    assert!(result.len() <= 120);
}

#[test]
fn inject_reminder_skips_short_conversations() {
    let mut msgs = vec![
        make_msg("system", "You are helpful."),
        make_msg("user", "Hello"),
        make_msg("assistant", "Hi!"),
        make_msg("user", "How are you?"),
        make_msg("assistant", "Good, thanks!"),
    ];
    let injected = inject_instruction_reminder(&mut msgs, "[Reminder] Be helpful.");
    assert!(!injected);
    assert_eq!(msgs.len(), 5);
}

#[test]
fn inject_reminder_fires_for_long_conversations() {
    let mut msgs = vec![make_msg("system", "You are helpful.")];
    for i in 0..10 {
        msgs.push(make_msg("user", &format!("question {i}")));
        msgs.push(make_msg("assistant", &format!("answer {i}")));
    }
    let len_before = msgs.len();
    let injected = inject_instruction_reminder(&mut msgs, "[Reminder] Always be thorough.");
    assert!(injected);
    assert_eq!(msgs.len(), len_before + 1);

    let last_user_idx = msgs.iter().rposition(|m| m.role == "user").unwrap();
    assert_eq!(msgs[last_user_idx - 1].role, "system");
    assert!(msgs[last_user_idx - 1]
        .content
        .contains("[Reminder] Always be thorough."));
}

#[test]
fn inject_reminder_places_before_last_user_message() {
    let mut msgs = vec![make_msg("system", "System prompt.")];
    for i in 0..5 {
        msgs.push(make_msg("user", &format!("q{i}")));
        msgs.push(make_msg("assistant", &format!("a{i}")));
    }
    msgs.push(make_msg("user", "final question"));

    let injected = inject_instruction_reminder(&mut msgs, "[Reminder] Key directive.");
    assert!(injected);

    assert_eq!(msgs.last().unwrap().content, "final question");
    assert_eq!(msgs.last().unwrap().role, "user");

    let second_last = &msgs[msgs.len() - 2];
    assert_eq!(second_last.role, "system");
    assert!(second_last.content.contains("[Reminder]"));
}

#[test]
fn inject_reminder_no_user_messages_appends_at_end() {
    let mut msgs = vec![make_msg("system", "System prompt.")];
    for i in 0..10 {
        msgs.push(make_msg("assistant", &format!("response {i}")));
    }
    let len_before = msgs.len();
    let injected = inject_instruction_reminder(&mut msgs, "[Reminder] Test.");
    assert!(injected);
    assert_eq!(msgs.len(), len_before + 1);
    assert_eq!(msgs.last().unwrap().content, "[Reminder] Test.");
}

#[test]
fn semantic_compress_rewrites_only_long_messages() {
    let long = "a".repeat(120);
    let msgs = vec![
        make_msg("system", &long),
        make_msg("user", &long),
        make_msg("assistant", "short"),
    ];
    let out = semantic_compress(&msgs, &Halving);
    assert_eq!(out.len(), 3);
    assert_eq!(out[0].content, long);
    assert_eq!(out[1].content.len(), 60);
    assert_eq!(out[2].content, "short");
}

#[test]
fn find_last_role_finds_the_newest() {
    let msgs = vec![
        make_msg("user", "a"),
        make_msg("assistant", "b"),
        make_msg("user", "c"),
    ];
    assert_eq!(find_last_role(&msgs, "user"), Some(2));
    assert_eq!(find_last_role(&msgs, "tool"), None);
}

#[test]
fn context_keeps_system_message_first_within_budget() {
    let history: Vec<Message> = (0..50)
        .map(|i| make_msg("user", &"w".repeat(100 + i)))
        .collect();
    let ctx = build_context(ComplexityLevel::L0, "sys", "mem", &history);
    assert_eq!(ctx[0].role, "system");
    let total: usize = ctx.iter().map(|m| estimate_tokens(&m.content)).sum();
    assert!(total <= token_budget(ComplexityLevel::L0));
}

#[test]
fn compress_context_keeps_last_user_and_short_messages() {
    let long = "x".repeat(300);
    let mut msgs = vec![
        make_msg("system", &long),
        make_msg("user", &long),
        make_msg("assistant", "short"),
        make_msg("user", &long),
    ];
    compress_context(&mut msgs, |s: String| s[..s.len() / 2].to_string());
    assert_eq!(msgs[0].content.len(), 150);
    assert_eq!(msgs[1].content.len(), 150);
    assert_eq!(msgs[2].content, "short");
    assert_eq!(msgs[3].content.len(), 300);
    assert_eq!(msgs[1].role, "user");
}

#[test]
fn soft_trim_skips_a_large_message_and_keeps_order() {
    let long = "x".repeat(40);
    let msgs = vec![
        make_msg("system", "sys"),
        make_msg("user", "aaaa"),
        make_msg("assistant", &long),
        make_msg("user", "bbbb"),
    ];
    let result = soft_trim(&msgs, 4, 3);
    let contents: Vec<&str> = result.messages.iter().map(|m| m.content.as_str()).collect();
    assert_eq!(contents, vec!["sys", "aaaa", "bbbb"]);
    assert_eq!(result.trimmed_count, 1);
    assert_eq!(result.total_tokens, 3);
}
