use ironclad_agent::memory::{
    classify_turn, plan_turn_ingestion, turn_summary, MemoryBudgets, MemoryWrite, TurnType,
};

#[test]
fn classify_turn_tool_use() {
    let results = vec![("echo".into(), "hello".into())];
    assert_eq!(
        classify_turn("test", "response", &results),
        TurnType::ToolUse
    );
}

#[test]
fn classify_turn_financial() {
    assert_eq!(
        classify_turn("check my wallet balance", "Your balance is 42 USDC", &[]),
        TurnType::Financial
    );
}

#[test]
fn classify_turn_social() {
    assert_eq!(
        classify_turn("hello how are you", "I'm great!", &[]),
        TurnType::Social
    );
}

#[test]
fn classify_turn_creative() {
    assert_eq!(
        classify_turn("write a poem about rust", "Here's a poem...", &[]),
        TurnType::Creative
    );
}

#[test]
fn classify_turn_reasoning() {
    assert_eq!(
        classify_turn("explain monads", "A monad is a design pattern...", &[]),
        TurnType::Reasoning
    );
}

#[test]
fn truncation_emoji_at_boundary() {
    let msg = format!("{}{}", "A".repeat(198), "🦀");
    assert!(msg.len() == 202);
    let summary = turn_summary(&msg);
    assert!(summary.len() <= 200);
    assert!(summary.is_char_boundary(summary.len()));
    assert_eq!(summary, "A".repeat(198));
}

#[test]
fn truncation_cjk_near_boundary() {
    let msg = format!("{}{}", "B".repeat(199), "中");
    assert!(msg.len() == 202);
    let summary = turn_summary(&msg);
    assert!(summary.len() <= 200);
    assert!(summary.is_char_boundary(summary.len()));
}

#[test]
fn truncation_ascii_over_200() {
    let msg = "C".repeat(300);
    let summary = turn_summary(&msg);
    assert_eq!(summary.len(), 200);
}

#[test]
fn classify_turn_financial_payment() {
    assert_eq!(
        classify_turn(
            "make a payment of $50 from wallet",
            "Processing payment",
            &[]
        ),
        TurnType::Financial
    );
}

#[test]
fn classify_turn_financial_transfer() {
    assert_eq!(
        classify_turn("transfer 10 USDC", "Transferring...", &[]),
        TurnType::Financial
    );
}

#[test]
fn classify_turn_creative_compose() {
    assert_eq!(
        classify_turn("compose a sonnet", "Here is your sonnet...", &[]),
        TurnType::Creative
    );
}

#[test]
fn classify_turn_creative_design() {
    assert_eq!(
        classify_turn("design a logo concept", "Here's the concept...", &[]),
        TurnType::Creative
    );
}

#[test]
fn classify_turn_creative_generate() {
    assert_eq!(
        classify_turn("generate a story", "Once upon a time...", &[]),
        TurnType::Creative
    );
}

#[test]
fn classify_turn_social_thanks() {
    assert_eq!(
        classify_turn("thanks for your help", "You're welcome!", &[]),
        TurnType::Social
    );
}

#[test]
fn classify_turn_tool_use_takes_precedence() {
    assert_eq!(
        classify_turn(
            "check my wallet balance",
            "Done",
            &[("wallet".into(), "42".into())]
        ),
        TurnType::ToolUse
    );
}

#[test]
fn rollover_goes_to_working() {
    let b = MemoryBudgets::from_shares(99, 29, 24, 19, 14, 9);
    let sum = b.working + b.episodic + b.semantic + b.procedural + b.relationship;
    assert_eq!(sum, 99, "all tokens must be distributed");
    assert_eq!(b.working, 33);
}

#[test]
fn zero_total_tokens() {
    assert_eq!(
        MemoryBudgets::from_shares(0, 0, 0, 0, 0, 0),
        MemoryBudgets {
            working: 0,
            episodic: 0,
            semantic: 0,
            procedural: 0,
            relationship: 0,
        }
    );
}

fn working_count(plan: &[MemoryWrite]) -> usize {
    plan.iter()
        .filter(|w| matches!(w, MemoryWrite::Working { .. }))
        .count()
}

#[test]
fn ingest_turn_stores_memories() {
    let plan = plan_turn_ingestion(
        "session-1234",
        "What is Rust?",
        "Rust is a systems programming language focused on safety and performance.",
        &[],
    );
    assert_eq!(working_count(&plan), 1);
    assert!(plan.iter().any(|w| matches!(w,
        MemoryWrite::Working { entry_type, .. } if entry_type == "turn_summary")));
}

#[test]
fn ingest_turn_with_tools_stores_episodic() {
    let plan = plan_turn_ingestion(
        "session-1234",
        "echo hello",
        "Tool says: hello",
        &[("echo".into(), "hello".into())],
    );
    assert!(plan.iter().any(|w| matches!(w,
        MemoryWrite::Episodic { category, content, importance: 7 }
            if category == "tool_use" && content == "Used tool 'echo': hello")));
}

#[test]
fn ingest_turn_financial_stores_episodic() {
    let plan = plan_turn_ingestion(
        "session-1234",
        "check my wallet balance",
        "Your balance is 42 USDC",
        &[],
    );
    assert!(plan.iter().any(|w| matches!(w,
        MemoryWrite::Episodic { content, .. } if content.contains("Financial interaction"))));
}

#[test]
fn ingest_turn_long_reasoning_stores_semantic() {
    let long_response = "A ".repeat(60);
    let plan = plan_turn_ingestion("session-1234", "explain monads", &long_response, &[]);
    assert!(plan.iter().any(|w| matches!(w,
        MemoryWrite::Semantic { category, key, .. }
            if category == "learned" && key == "turn_session-")));
}

#[test]
fn ingest_turn_long_creative_stores_semantic() {
    let long_response = "B ".repeat(60);
    let plan = plan_turn_ingestion("abc", "write a poem about Rust", &long_response, &[]);
    assert!(plan.iter().any(|w| matches!(w,
        MemoryWrite::Semantic { key, .. } if key == "turn_unknown")));
}

#[test]
fn ingest_turn_short_reasoning_skips_semantic() {
    let plan = plan_turn_ingestion("session-1234", "explain monads", "short answer", &[]);
    assert!(!plan
        .iter()
        .any(|w| matches!(w, MemoryWrite::Semantic { .. })));
}

#[test]
fn ingest_turn_truncates_long_summary() {
    let long_response = "X".repeat(300);
    let plan = plan_turn_ingestion("session-1234", "explain something", &long_response, &[]);
    for w in &plan {
        if let MemoryWrite::Working { content, .. } = w {
            assert!(content.len() <= 200);
        }
    }
}

#[test]
fn ingest_turn_records_procedural_success() {
    let plan = plan_turn_ingestion(
        "session-1234",
        "use custom_tool",
        "done",
        &[("custom_tool".into(), "success".into())],
    );
    assert!(plan.iter().any(|w| matches!(w,
        MemoryWrite::ProceduralSuccess { tool_name } if tool_name == "custom_tool")));
}

#[test]
fn budgets_keep_shares_when_they_exceed_the_total() {
    let b = MemoryBudgets::from_shares(10, 5, 5, 5, 0, 0);
    assert_eq!(b.working, 5);
    assert_eq!(b.episodic, 5);
}
