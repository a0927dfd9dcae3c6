use ironclad_agent::interview::{
    build_interview_prompt, INTERVIEW_CATEGORIES, INTERVIEW_SYSTEM_PROMPT,
    MIN_CATEGORIES_FOR_GENERATION,
};

#[test]
fn interview_prompt_contains_all_categories() {
    let prompt = build_interview_prompt();
    for cat in INTERVIEW_CATEGORIES {
        assert!(
            prompt.contains(cat),
            "Interview prompt missing category: {cat}"
        );
    }
}

#[test]
fn interview_prompt_contains_output_format() {
    let prompt = build_interview_prompt();
    assert!(prompt.contains("OS.toml"));
    assert!(prompt.contains("FIRMWARE.toml"));
    assert!(prompt.contains("OPERATOR.toml"));
    assert!(prompt.contains("DIRECTIVES.toml"));
}

#[test]
fn interview_prompt_contains_opening_script() {
    let prompt = build_interview_prompt();
    assert!(prompt.contains("Initiating personality interview sequence"));
}

#[test]
fn min_categories_is_reasonable() {
    assert!(MIN_CATEGORIES_FOR_GENERATION <= INTERVIEW_CATEGORIES.len());
    assert!(MIN_CATEGORIES_FOR_GENERATION >= 4);
}

#[test]
fn interview_prompt_is_the_system_prompt() {
    assert_eq!(build_interview_prompt(), INTERVIEW_SYSTEM_PROMPT);
}
