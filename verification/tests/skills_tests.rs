use ironclad_agent::skills::{
    content_hash, hex_string, split_instruction_md, triggers_match, FrontmatterError, LoadedSkill,
    SkillInfo, SkillRegistry,
};

fn words(ws: &[&str]) -> Vec<String> {
    ws.iter().map(|w| w.to_string()).collect()
}

#[test]
fn trigger_keywords_match() {
    let review = words(&["review", "code"]);
    let deploy = words(&["deploy", "release"]);

    assert!(triggers_match(&review, &["review"]));
    assert!(!triggers_match(&deploy, &["review"]));
    assert!(triggers_match(&deploy, &["deploy"]));
    assert!(!triggers_match(&review, &["deploy"]));
    assert!(!triggers_match(&review, &["unrelated"]));
    assert!(!triggers_match(&deploy, &["unrelated"]));
}

#[test]
fn trigger_matching_ignores_case_and_matches_substrings() {
    let t = words(&["Code-Review"]);
    assert!(triggers_match(&t, &["REVIEW"]));
    assert!(!triggers_match(&t, &[]));
}

#[test]
fn content_hash_is_sha256_hex() {
    assert_eq!(
        content_hash(b"abc"),
        "ba7816bf8f01cfea414140de5dae2223b00361a396177a9cb410ff61f20015ad"
    );
}

#[test]
fn hex_string_lowercase_pairs() {
    assert_eq!(hex_string(&[0x00, 0xab, 0x0f]), "00ab0f");
}

#[test]
fn parse_md_instruction_split() {
    let doc = "---\nname: review\n---\n\nReview the code.\n";
    let (yaml, body) = split_instruction_md(doc).unwrap();
    assert_eq!(yaml, "\nname: review\n");
    assert_eq!(body, "Review the code.");
}

#[test]
fn instruction_split_errors() {
    assert_eq!(split_instruction_md("no frontmatter"), Err(FrontmatterError::Missing));
    assert_eq!(split_instruction_md("---\nname: x\n"), Err(FrontmatterError::Unclosed));
}

fn instruction(name: &str, description: &str, keywords: &[&str], body: &str, hash: &str) -> LoadedSkill {
    LoadedSkill::Instruction(
        SkillInfo {
            name: name.into(),
            description: description.into(),
            trigger_keywords: words(keywords),
            priority: 5,
        },
        hash.into(),
        body.into(),
    )
}

#[test]
fn trigger_matching() {
    let mut registry = SkillRegistry::new();
    registry.register(instruction("code_review", "Reviews code", &["review", "code"], "Review the code.", "hash_a"));
    registry.register(instruction("deploy", "Deploys services", &["deploy", "release"], "Deploy the service.", "hash_b"));

    let matches = registry.match_skills(&["review"]);
    assert_eq!(matches.len(), 1);
    assert_eq!(matches[0].name(), "code_review");

    let matches = registry.match_skills(&["deploy"]);
    assert_eq!(matches.len(), 1);
    assert_eq!(matches[0].name(), "deploy");

    let matches = registry.match_skills(&["unrelated"]);
    assert!(matches.is_empty());
}

#[test]
fn registry_keeps_registration_order_and_hashes() {
    let mut registry = SkillRegistry::default();
    registry.register(instruction("b", "d", &["Shared"], "x", "h1"));
    registry.register(LoadedSkill::Structured(
        SkillInfo {
            name: "a".into(),
            description: "d".into(),
            trigger_keywords: words(&["shared-tool"]),
            priority: 3,
        },
        "h2".into(),
    ));
    let matches = registry.match_skills(&["SHARED"]);
    assert_eq!(matches.len(), 2);
    assert_eq!(matches[0].name(), "b");
    assert_eq!(matches[1].name(), "a");
    assert_eq!(matches[0].hash(), "h1");
    assert_eq!(matches[1].hash(), "h2");
    assert!(registry.match_skills(&[]).is_empty());
}
