use ironclad_agent::learning::{
    assemble_candidates, candidate_windows, chronological, distinct_tools_display,
    sanitize_name, synthesize_skill_md, truncate, window_successes, CandidateProcedure,
    learn_start, learn_step, LearnAction, LearnEvent, LearnGate, LearnPhase, ProcedureStep,
    ToolCall,
};

fn make_call(name: &str, status: &str, time: &str) -> ToolCall {
    ToolCall {
        tool_name: name.into(),
        input: format!(r#"{{"action":"{name}"}}"#),
        output: Some(format!("{name} output")),
        status: status.into(),
        created_at: time.into(),
    }
}

/// The detection pipeline: calls in time order, windows from `min_length`
/// up to twice that, kept when their success ratio reaches the threshold.
fn detect(calls: Vec<ToolCall>, min_length: usize, min_success_ratio: f64) -> Vec<CandidateProcedure> {
    let calls = chronological(calls);
    let windows = candidate_windows(calls.len(), min_length);
    let accepted: Vec<(usize, usize)> = windows
        .into_iter()
        .filter(|&(start, size)| {
            let ok = window_successes(&calls, start, size);
            (ok as f64 / size as f64) >= min_success_ratio
        })
        .collect();
    assemble_candidates(&calls, &accepted)
}

fn sample_calls() -> Vec<ToolCall> {
    vec![
        make_call("bash", "success", "2025-01-01T00:00:03Z"),
        make_call("read", "success", "2025-01-01T00:00:01Z"),
        make_call("edit", "success", "2025-01-01T00:00:02Z"),
    ]
}

#[test]
fn detect_three_step_procedure() {
    let candidates = detect(sample_calls(), 3, 0.7);
    assert!(!candidates.is_empty());
    let c = &candidates[0];
    assert_eq!(c.tool_sequence, vec!["read", "edit", "bash"]);
    assert_eq!(c.success_count, 3);
    assert_eq!(c.steps.len(), 3);
    assert_eq!(c.name, "read-edit-bash");
}

#[test]
fn no_detection_below_min_length() {
    let calls = vec![
        make_call("read", "success", "2025-01-01T00:00:01Z"),
        make_call("edit", "success", "2025-01-01T00:00:02Z"),
    ];
    assert!(detect(calls, 3, 0.7).is_empty());
}

#[test]
fn no_detection_below_success_ratio() {
    let calls = vec![
        make_call("read", "error", "2025-01-01T00:00:01Z"),
        make_call("edit", "error", "2025-01-01T00:00:02Z"),
        make_call("bash", "success", "2025-01-01T00:00:03Z"),
    ];
    assert!(detect(calls, 3, 0.7).is_empty());
}

#[test]
fn skip_identical_tools() {
    let calls = vec![
        make_call("bash", "success", "2025-01-01T00:00:01Z"),
        make_call("bash", "success", "2025-01-01T00:00:02Z"),
        make_call("bash", "success", "2025-01-01T00:00:03Z"),
    ];
    assert!(detect(calls, 3, 0.7).is_empty());
}

#[test]
fn synthesize_skill_md_format() {
    let candidate = CandidateProcedure {
        name: "read-edit-bash".into(),
        description: "3-step procedure using read → edit → bash".into(),
        tool_sequence: vec!["read".into(), "edit".into(), "bash".into()],
        success_count: 3,
        steps: vec![
            ProcedureStep {
                tool_name: "read".into(),
                input_summary: "file.rs".into(),
                output_summary: Some("contents".into()),
                status: "success".into(),
            },
            ProcedureStep {
                tool_name: "edit".into(),
                input_summary: "change line 5".into(),
                output_summary: None,
                status: "success".into(),
            },
            ProcedureStep {
                tool_name: "bash".into(),
                input_summary: "cargo test".into(),
                output_summary: Some("ok".into()),
                status: "success".into(),
            },
        ],
    };
    let md = synthesize_skill_md(&candidate);
    assert!(md.contains("---"));
    assert!(md.contains("name: read-edit-bash"));
    assert!(md.contains("triggers:") && md.contains("  - read"));
    assert!(md.contains("## Steps"));
    assert!(md.contains("1. **read**"));
    assert!(md.contains("2. **edit**"));
    assert!(md.contains("3. **bash**"));
    assert!(md.contains("## When to Use"));
}

#[test]
fn sanitize_name_handles_special_chars() {
    assert_eq!(sanitize_name("read/edit.bash"), "read-edit-bash");
    assert_eq!(sanitize_name("Read-EDIT_Bash"), "read-edit_bash");
}

#[test]
fn chronological_orders_by_time_and_keeps_every_call() {
    let sorted = chronological(sample_calls());
    let names: Vec<&str> = sorted.iter().map(|c| c.tool_name.as_str()).collect();
    assert_eq!(names, vec!["read", "edit", "bash"]);
    assert_eq!(sorted.len(), 3);
}

#[test]
fn candidate_windows_sizes_up_to_twice_min() {
    let w = candidate_windows(4, 2);
    assert_eq!(w, vec![(0, 2), (1, 2), (2, 2), (0, 3), (1, 3), (0, 4)]);
    assert!(candidate_windows(1, 2).is_empty());
}

#[test]
fn duplicate_windows_are_named_once() {
    let calls = vec![
        make_call("read", "success", "1"),
        make_call("edit", "success", "2"),
        make_call("read", "success", "3"),
        make_call("edit", "success", "4"),
    ];
    let candidates = assemble_candidates(&calls, &[(0, 2), (2, 2), (1, 2)]);
    let names: Vec<&str> = candidates.iter().map(|c| c.name.as_str()).collect();
    assert_eq!(names, vec!["read-edit", "edit-read"]);
    assert_eq!(candidates[0].description, "2-step procedure using read → edit");
}

#[test]
fn distinct_tools_display_keeps_first_occurrences() {
    let seq = vec!["a".to_string(), "b".to_string(), "a".to_string()];
    assert_eq!(distinct_tools_display(&seq), "a → b");
}

#[test]
fn truncate_adds_ellipsis_only_when_cut() {
    assert_eq!(truncate("short", 10), "short");
    assert_eq!(truncate("abcdef", 3), "abc…");
}

fn run(gate: LearnGate, events: &[LearnEvent]) -> Vec<LearnAction> {
    let mut state = learn_start();
    let mut actions = Vec::new();
    for e in events {
        let (next, action) = learn_step(&gate, &state, *e);
        state = next;
        actions.push(action);
    }
    actions
}

const ON: LearnGate = LearnGate { enabled: true, max_learned_skills: 10 };

#[test]
fn learning_disabled_stops_at_once() {
    let gate = LearnGate { enabled: false, max_learned_skills: 10 };
    assert_eq!(run(gate, &[LearnEvent::Start]), vec![LearnAction::Stop]);
}

#[test]
fn learning_stops_at_the_cap_and_on_unreadable_counts() {
    assert_eq!(
        run(ON, &[LearnEvent::Start, LearnEvent::SkillCount(Some(10))]),
        vec![LearnAction::CountSkills, LearnAction::Stop]
    );
    assert_eq!(
        run(ON, &[LearnEvent::Start, LearnEvent::SkillCount(None)]),
        vec![LearnAction::CountSkills, LearnAction::Stop]
    );
    assert_eq!(
        run(ON, &[LearnEvent::Start, LearnEvent::SkillCount(Some(2)), LearnEvent::ToolCallsLoaded(Some(0))]),
        vec![LearnAction::CountSkills, LearnAction::LoadToolCalls, LearnAction::Stop]
    );
}

#[test]
fn learning_reinforces_known_and_creates_new_skills() {
    let events = [
        LearnEvent::Start,
        LearnEvent::SkillCount(Some(0)),
        LearnEvent::ToolCallsLoaded(Some(3)),
        LearnEvent::CandidatesDetected(2),
        LearnEvent::Known(Some(true)),
        LearnEvent::Done,
        LearnEvent::Known(Some(false)),
        LearnEvent::Stored(true),
        LearnEvent::Written(true),
        LearnEvent::Done,
    ];
    assert_eq!(
        run(ON, &events),
        vec![
            LearnAction::CountSkills,
            LearnAction::LoadToolCalls,
            LearnAction::DetectCandidates,
            LearnAction::LookUp(0),
            LearnAction::Reinforce(0),
            LearnAction::LookUp(1),
            LearnAction::Store(1),
            LearnAction::WriteSkill(1),
            LearnAction::RecordPath(1),
            LearnAction::Stop,
        ]
    );
}

#[test]
fn learning_skips_a_candidate_whose_store_fails() {
    let events = [
        LearnEvent::Start,
        LearnEvent::SkillCount(Some(0)),
        LearnEvent::ToolCallsLoaded(Some(3)),
        LearnEvent::CandidatesDetected(2),
        LearnEvent::Known(Some(false)),
        LearnEvent::Stored(false),
        LearnEvent::Known(None),
    ];
    let actions = run(ON, &events);
    assert_eq!(actions[5], LearnAction::LookUp(1));
    assert_eq!(actions[6], LearnAction::Stop);
    let (s, a) = learn_step(&ON, &learn_start(), LearnEvent::Done);
    assert_eq!(a, LearnAction::Stop);
    assert_eq!(s.phase, LearnPhase::Stopped);
}
