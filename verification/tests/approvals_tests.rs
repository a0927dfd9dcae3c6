use ironclad_agent::approvals::{
    ApprovalError, ApprovalManager, ApprovalPolicy, ApprovalStatus, ToolClassification,
};
use ironclad_agent::policy::InputAuthority;

fn test_config() -> ApprovalPolicy {
    ApprovalPolicy {
        enabled: true,
        gated_tools: vec!["shell".into(), "write_file".into()],
        blocked_tools: vec!["rm_rf".into()],
        timeout_seconds: 60,
    }
}

fn disabled_config() -> ApprovalPolicy {
    ApprovalPolicy {
        enabled: false,
        ..test_config()
    }
}

#[test]
fn classify_safe_tool() {
    let mgr = ApprovalManager::new(test_config());
    assert_eq!(mgr.classify_tool("read_file"), ToolClassification::Safe);
}

#[test]
fn classify_gated_tool() {
    let mgr = ApprovalManager::new(test_config());
    assert_eq!(mgr.classify_tool("shell"), ToolClassification::Gated);
    assert_eq!(mgr.classify_tool("write_file"), ToolClassification::Gated);
}

#[test]
fn classify_blocked_tool() {
    let mgr = ApprovalManager::new(test_config());
    assert_eq!(mgr.classify_tool("rm_rf"), ToolClassification::Blocked);
}

#[test]
fn check_tool_blocked_returns_error() {
    let mgr = ApprovalManager::new(test_config());
    let result = mgr.check_tool("rm_rf");
    assert!(result.is_err());
    assert!(matches!(result, Err(ApprovalError::Blocked(ref t)) if t == "rm_rf"));
}

#[test]
fn check_tool_disabled_always_safe() {
    let mgr = ApprovalManager::new(disabled_config());
    assert_eq!(mgr.check_tool("shell").unwrap(), ToolClassification::Safe);
    assert_eq!(mgr.check_tool("rm_rf").unwrap(), ToolClassification::Safe);
}

#[test]
fn request_approval_creates_pending() {
    let mut mgr = ApprovalManager::new(test_config());
    let req = mgr
        .request_approval("shell", "ls -la", Some("sess-1"), InputAuthority::External)
        .unwrap();
    assert_eq!(req.status, ApprovalStatus::Pending);
    assert_eq!(req.tool_name, "shell");
    assert_eq!(req.requested_authority, InputAuthority::External);
    assert!(req.decided_by.is_none());
    assert_eq!(req.timeout_at - req.created_at, 60_000);
}

#[test]
fn request_approval_preserves_requested_authority() {
    let mut mgr = ApprovalManager::new(test_config());
    let req = mgr
        .request_approval("shell", "ls", None, InputAuthority::Peer)
        .unwrap();
    assert_eq!(req.requested_authority, InputAuthority::Peer);
}

#[test]
fn approve_request() {
    let mut mgr = ApprovalManager::new(test_config());
    let req = mgr
        .request_approval("shell", "ls", None, InputAuthority::External)
        .unwrap();
    let approved = mgr.approve(&req.id, "admin").unwrap();
    assert_eq!(approved.status, ApprovalStatus::Approved);
    assert_eq!(approved.decided_by.as_deref(), Some("admin"));
    assert!(approved.decided_at.is_some());
}

#[test]
fn deny_request() {
    let mut mgr = ApprovalManager::new(test_config());
    let req = mgr
        .request_approval("write_file", "{}", None, InputAuthority::External)
        .unwrap();
    let denied = mgr.deny(&req.id, "admin").unwrap();
    assert_eq!(denied.status, ApprovalStatus::Denied);
}

#[test]
fn approve_nonexistent_fails() {
    let mut mgr = ApprovalManager::new(test_config());
    let result = mgr.approve("nonexistent", "admin");
    assert!(matches!(result, Err(ApprovalError::NotFound(ref id)) if id == "nonexistent"));
}

#[test]
fn double_approve_fails() {
    let mut mgr = ApprovalManager::new(test_config());
    let req = mgr
        .request_approval("shell", "cmd", None, InputAuthority::External)
        .unwrap();
    mgr.approve(&req.id, "admin").unwrap();
    let result = mgr.approve(&req.id, "admin2");
    assert!(matches!(
        result,
        Err(ApprovalError::AlreadyDecided(_, ApprovalStatus::Approved))
    ));
}

#[test]
fn list_pending_filters() {
    let mut mgr = ApprovalManager::new(test_config());
    mgr.request_approval("shell", "1", None, InputAuthority::External)
        .unwrap();
    let req2 = mgr
        .request_approval("write_file", "2", None, InputAuthority::External)
        .unwrap();
    mgr.approve(&req2.id, "admin").unwrap();

    let pending = mgr.list_pending();
    assert_eq!(pending.len(), 1);
    assert_eq!(pending[0].tool_name, "shell");
}

#[test]
fn expire_timed_out() {
    let mut mgr = ApprovalManager::new(ApprovalPolicy {
        timeout_seconds: 0,
        ..test_config()
    });
    let req = mgr
        .request_approval("shell", "cmd", None, InputAuthority::External)
        .unwrap();
    let expired = mgr.expire_at(req.timeout_at + 10);
    assert_eq!(expired, vec![req.id.clone()]);
    assert_eq!(mgr.list_pending().len(), 0);
    assert_eq!(
        mgr.get_request(&req.id).unwrap().status,
        ApprovalStatus::TimedOut
    );
}

#[test]
fn expire_keeps_requests_before_their_deadline() {
    let mut mgr = ApprovalManager::new(test_config());
    let req = mgr
        .request_approval("shell", "cmd", None, InputAuthority::External)
        .unwrap();
    assert!(mgr.expire_at(req.timeout_at - 1).is_empty());
    assert_eq!(mgr.list_pending().len(), 1);
    assert!(mgr.expire_timed_out().is_empty());
}

#[test]
fn clear_decided() {
    let mut mgr = ApprovalManager::new(test_config());
    mgr.request_approval("shell", "1", None, InputAuthority::External)
        .unwrap();
    let req2 = mgr
        .request_approval("write_file", "2", None, InputAuthority::External)
        .unwrap();
    mgr.approve(&req2.id, "admin").unwrap();

    let cleared = mgr.clear_decided();
    assert_eq!(cleared, 1);
    assert_eq!(mgr.list_all().len(), 1);
}

#[test]
fn request_ids_are_distinct() {
    let mut mgr = ApprovalManager::new(test_config());
    let a = mgr.request_approval("shell", "1", None, InputAuthority::External).unwrap();
    let b = mgr.request_approval("shell", "2", None, InputAuthority::External).unwrap();
    assert_ne!(a.id, b.id);
}
