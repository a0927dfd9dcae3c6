use ironclad_agent::orchestration::{
    OrchestrationError, OrchestrationPattern, Orchestrator, SubtaskStatus, WorkflowStatus,
};

fn simple_tasks() -> Vec<(String, Vec<String>)> {
    vec![
        ("Research the topic".into(), vec!["research".into()]),
        ("Write the summary".into(), vec!["summarization".into()]),
        ("Review the output".into(), vec!["review".into()]),
    ]
}

#[test]
fn create_workflow() {
    let mut orch = Orchestrator::new();
    let id = orch.create_workflow(
        "Test Flow",
        OrchestrationPattern::Sequential,
        simple_tasks(),
    );
    assert!(id.starts_with("wf_"));
    let wf = orch.get_workflow(&id).unwrap();
    assert_eq!(wf.subtasks.len(), 3);
    assert_eq!(wf.status, WorkflowStatus::Created);
}

#[test]
fn assign_and_start() {
    let mut orch = Orchestrator::new();
    let wf_id = orch.create_workflow("Test", OrchestrationPattern::Sequential, simple_tasks());
    let task_id = orch.get_workflow(&wf_id).unwrap().subtasks[0].id.clone();

    orch.assign_agent(&wf_id, &task_id, "agent-research").unwrap();
    let task = &orch.get_workflow(&wf_id).unwrap().subtasks[0];
    assert_eq!(task.status, SubtaskStatus::Assigned);
    assert_eq!(task.assigned_agent.as_deref(), Some("agent-research"));

    orch.start_task(&wf_id, &task_id).unwrap();
    assert_eq!(
        orch.get_workflow(&wf_id).unwrap().subtasks[0].status,
        SubtaskStatus::Running
    );
}

#[test]
fn complete_workflow() {
    let mut orch = Orchestrator::new();
    let wf_id = orch.create_workflow("Test", OrchestrationPattern::Parallel, simple_tasks());
    let task_ids: Vec<String> = orch
        .get_workflow(&wf_id)
        .unwrap()
        .subtasks
        .iter()
        .map(|t| t.id.clone())
        .collect();

    for tid in &task_ids {
        orch.complete_task(&wf_id, tid, "done".into()).unwrap();
    }

    let wf = orch.get_workflow(&wf_id).unwrap();
    assert_eq!(wf.status, WorkflowStatus::Completed);
    assert!(wf.completed_at.is_some());
}

#[test]
fn fail_task_fails_workflow() {
    let mut orch = Orchestrator::new();
    let wf_id = orch.create_workflow("Test", OrchestrationPattern::Sequential, simple_tasks());
    let task_id = orch.get_workflow(&wf_id).unwrap().subtasks[0].id.clone();

    orch.fail_task(&wf_id, &task_id, "something broke").unwrap();
    assert_eq!(
        orch.get_workflow(&wf_id).unwrap().status,
        WorkflowStatus::Failed
    );
}

#[test]
fn sequential_next_tasks() {
    let mut orch = Orchestrator::new();
    let wf_id = orch.create_workflow("Seq", OrchestrationPattern::Sequential, simple_tasks());

    let next = orch.next_tasks(&wf_id).unwrap();
    assert_eq!(next.len(), 1);
    assert_eq!(next[0].description, "Research the topic");
}

#[test]
fn parallel_next_tasks() {
    let mut orch = Orchestrator::new();
    let wf_id = orch.create_workflow("Par", OrchestrationPattern::Parallel, simple_tasks());

    let next = orch.next_tasks(&wf_id).unwrap();
    assert_eq!(next.len(), 3);
}

#[test]
fn capability_matching() {
    let mut orch = Orchestrator::new();
    let wf_id = orch.create_workflow("Match", OrchestrationPattern::Parallel, simple_tasks());

    let agents = vec![
        (
            "researcher".into(),
            vec!["research".into(), "analysis".into()],
        ),
        (
            "writer".into(),
            vec!["summarization".into(), "writing".into()],
        ),
    ];

    let matches = orch.match_capabilities(&wf_id, &agents).unwrap();
    assert!(!matches.is_empty());
    assert_eq!(matches.len(), 2);
}

#[test]
fn pattern_display() {
    assert_eq!(
        OrchestrationPattern::Sequential.to_display_string(),
        "sequential"
    );
    assert_eq!(OrchestrationPattern::Parallel.to_display_string(), "parallel");
    assert_eq!(
        OrchestrationPattern::FanOutFanIn.to_display_string(),
        "fan-out/fan-in"
    );
    assert_eq!(OrchestrationPattern::Handoff.to_display_string(), "handoff");
}

#[test]
fn workflow_not_found() {
    let orch = Orchestrator::new();
    assert!(orch.get_workflow("nope").is_none());
    assert!(orch.next_tasks("nope").is_err());
}

#[test]
fn workflow_ids_are_numbered_and_distinct() {
    let mut orch = Orchestrator::new();
    let a = orch.create_workflow("A", OrchestrationPattern::Parallel, simple_tasks());
    let b = orch.create_workflow("B", OrchestrationPattern::Parallel, simple_tasks());
    assert_eq!(a, "wf_1");
    assert_eq!(b, "wf_2");
    assert_eq!(orch.workflow_count(), 2);
    let wf = orch.get_workflow(&b).unwrap();
    assert_eq!(wf.subtasks[2].id, "wf_2_task_2");
}

#[test]
fn unknown_task_is_reported() {
    let mut orch = Orchestrator::new();
    let wf = orch.create_workflow("A", OrchestrationPattern::Sequential, simple_tasks());
    let err = orch.start_task(&wf, "no-such-task").unwrap_err();
    assert!(matches!(err, OrchestrationError::TaskNotFound(ref t) if t == "no-such-task"));
    let err = orch.start_task("wf_9", "x").unwrap_err();
    assert!(matches!(err, OrchestrationError::WorkflowNotFound(ref w) if w == "wf_9"));
}

#[test]
fn handoff_next_task_follows_completion() {
    let mut orch = Orchestrator::new();
    let wf = orch.create_workflow("H", OrchestrationPattern::Handoff, simple_tasks());
    let first = orch.get_workflow(&wf).unwrap().subtasks[0].id.clone();
    orch.complete_task(&wf, &first, "ok".into()).unwrap();
    let next = orch.next_tasks(&wf).unwrap();
    assert_eq!(next.len(), 1);
    assert_eq!(next[0].description, "Write the summary");
}
