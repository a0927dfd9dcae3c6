use ironclad_agent::agent_loop::{AgentLoop, ReactAction, ReactState};

#[test]
fn state_transitions() {
    let mut agent = AgentLoop::new(100);
    assert_eq!(agent.state, ReactState::Idle);

    let s = agent.transition(ReactAction::Think);
    assert_eq!(s, ReactState::Thinking);

    let s = agent.transition(ReactAction::Act {
        tool_name: "echo".into(),
        params: "{}".into(),
    });
    assert_eq!(s, ReactState::Acting);

    let s = agent.transition(ReactAction::Observe);
    assert_eq!(s, ReactState::Observing);

    let s = agent.transition(ReactAction::Persist);
    assert_eq!(s, ReactState::Persisting);

    let s = agent.transition(ReactAction::Finish);
    assert_eq!(s, ReactState::Done);
}

#[test]
fn idle_detection() {
    let mut agent = AgentLoop::new(100);

    assert!(!agent.is_idle());
    agent.transition(ReactAction::NoOp);
    assert!(!agent.is_idle());
    agent.transition(ReactAction::NoOp);
    assert!(!agent.is_idle());
    agent.transition(ReactAction::NoOp);
    assert!(agent.is_idle());
    assert_eq!(agent.state, ReactState::Idle);

    agent.transition(ReactAction::Think);
    assert!(!agent.is_idle());
}

#[test]
fn loop_detection() {
    let mut agent = AgentLoop::new(100);

    for _ in 0..3 {
        agent.transition(ReactAction::Act {
            tool_name: "echo".into(),
            params: r#"{"msg":"hi"}"#.into(),
        });
    }

    assert!(agent.is_looping("echo", r#"{"msg":"hi"}"#));
    assert!(!agent.is_looping("echo", r#"{"msg":"bye"}"#));
    assert!(!agent.is_looping("other", r#"{"msg":"hi"}"#));

    agent.transition(ReactAction::Act {
        tool_name: "read".into(),
        params: "{}".into(),
    });
    assert!(!agent.is_looping("echo", r#"{"msg":"hi"}"#));
}

#[test]
fn max_turns_forces_done() {
    let mut agent = AgentLoop::new(2);

    agent.transition(ReactAction::Think);
    agent.transition(ReactAction::Think);
    let s = agent.transition(ReactAction::Think);
    assert_eq!(s, ReactState::Done);
}

#[test]
fn loop_detection_needs_a_full_window() {
    let mut agent = AgentLoop::new(100);
    agent.transition(ReactAction::Act {
        tool_name: "echo".into(),
        params: "{}".into(),
    });
    agent.transition(ReactAction::Act {
        tool_name: "echo".into(),
        params: "{}".into(),
    });
    assert!(!agent.is_looping("echo", "{}"));
}

#[test]
fn turn_count_increments_per_transition() {
    let mut agent = AgentLoop::new(10);
    agent.transition(ReactAction::Think);
    agent.transition(ReactAction::Observe);
    assert_eq!(agent.turn_count, 2);
    assert_eq!(agent.max_turns, 10);
}
