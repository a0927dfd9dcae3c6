use ironclad_agent::script_runner::{select_interpreter, truncate_str, InterpreterError, sandbox_profile};

#[test]
fn truncate_str_within_limit() {
    let s = "hello world";
    assert_eq!(truncate_str(s, 100), "hello world");
}

#[test]
fn truncate_str_at_limit() {
    let s = "hello";
    assert_eq!(truncate_str(s, 5), "hello");
}

#[test]
fn truncate_str_beyond_limit() {
    let s = "hello world";
    let truncated = truncate_str(s, 5);
    assert_eq!(truncated, "hello");
}

#[test]
fn truncate_str_multibyte_boundary() {
    let s = "café";
    let truncated = truncate_str(s, 4);
    assert_eq!(truncated, "caf");
}

fn allowed(names: &[&str]) -> Vec<String> {
    names.iter().map(|s| s.to_string()).collect()
}

#[test]
fn interpreter_from_shebang_rejected_when_not_allowed() {
    let r = select_interpreter(
        Some("#!/usr/bin/ruby"),
        "rb",
        &allowed(&["bash", "python3"]),
        "python3",
    );
    assert!(matches!(r, Err(InterpreterError::NotAllowed(ref s)) if s == "ruby"));
}

#[test]
fn interpreter_from_env_shebang() {
    let r = select_interpreter(
        Some("#!/usr/bin/env python3"),
        "py",
        &allowed(&["python3"]),
        "python3",
    );
    assert_eq!(r.unwrap(), "python3");
}

#[test]
fn interpreter_from_extension_when_no_shebang() {
    let r = select_interpreter(Some("print('hi')"), "py", &allowed(&["python3"]), "python3");
    assert_eq!(r.unwrap(), "python3");
    let r = select_interpreter(Some("echo hi"), "bash", &allowed(&["bash"]), "python3");
    assert_eq!(r.unwrap(), "bash");
    let r = select_interpreter(None, "js", &allowed(&["node"]), "python3");
    assert_eq!(r.unwrap(), "node");
}

#[test]
fn interpreter_unknown_extension_is_refused() {
    let r = select_interpreter(Some("some content"), "xyz", &allowed(&["bash"]), "python3");
    assert!(matches!(r, Err(InterpreterError::UnknownExtension(ref e)) if e == "xyz"));
}

#[test]
fn interpreter_from_extension_must_be_allowed() {
    let r = select_interpreter(None, "sh", &allowed(&["python3"]), "python3");
    assert!(matches!(r, Err(InterpreterError::NotAllowed(ref s)) if s == "bash"));
}

#[test]
fn sandbox_profile_denies_by_default_and_lists_grants() {
    let p = sandbox_profile(Some("/work"), &["/data".to_string(), "/opt/x".to_string()], false);
    assert!(p.starts_with("(version 1)\n(deny default)\n\n"));
    assert!(p.contains("(allow file-write* (subpath \"/tmp\"))\n"));
    assert!(p.contains("; Workspace directory — writable\n(allow file-write* (subpath \"/work\"))\n\n"));
    assert!(p.contains("(allow file-write* (subpath \"/data\"))\n(allow file-write* (subpath \"/opt/x\"))\n\n; IPC"));
    assert!(p.ends_with("; Network denied (sandbox_env + !network_allowed)\n"));
    assert!(!p.contains("(allow network*)"));
}

#[test]
fn sandbox_profile_without_workspace_allows_network_when_asked() {
    let p = sandbox_profile(None, &[], true);
    assert!(!p.contains("Workspace directory"));
    assert!(p.contains("(allow ipc-posix-shm-write-data)\n\n; Network access allowed by configuration\n(allow network*)\n"));
    assert!(p.ends_with("(allow network*)\n"));
}
