use ironclad_agent::analyzer::{
    BudgetPressure,
    CachedTurnSavings,
    ContextDrift,
    CostAcceleration,
    CostQualityMismatch,
    EmptyReasoning,
    ExpensiveTurn,
    FrequentEscalation,
    HighToolDensity,
    HistoryCostDominant,
    LargeOutputRatio,
    LowCoverageWarning,
    MemoryHelps,
    MemoryStarvation,
    ModelChurn,
    QualityDeclining,
    ShallowHistory,
    SystemPromptHeavy,
    SystemPromptTax,
    ToolFailures,
    ToolSuccessRate,
    UnderutilizedMemory,
    RuleCategory,
};

#[test]
fn budget_pressure_name_and_category() {
    assert_eq!(BudgetPressure.name(), "budget_pressure");
    assert_eq!(BudgetPressure.category(), RuleCategory::Budget);
}

#[test]
fn system_prompt_heavy_name_and_category() {
    assert_eq!(SystemPromptHeavy.name(), "system_prompt_heavy");
    assert_eq!(SystemPromptHeavy.category(), RuleCategory::Prompt);
}

#[test]
fn memory_starvation_name_and_category() {
    assert_eq!(MemoryStarvation.name(), "memory_starvation");
    assert_eq!(MemoryStarvation.category(), RuleCategory::Memory);
}

#[test]
fn shallow_history_name_and_category() {
    assert_eq!(ShallowHistory.name(), "shallow_history");
    assert_eq!(ShallowHistory.category(), RuleCategory::Quality);
}

#[test]
fn high_tool_density_name_and_category() {
    assert_eq!(HighToolDensity.name(), "high_tool_density");
    assert_eq!(HighToolDensity.category(), RuleCategory::Tools);
}

#[test]
fn tool_failures_name_and_category() {
    assert_eq!(ToolFailures.name(), "tool_failures");
    assert_eq!(ToolFailures.category(), RuleCategory::Tools);
}

#[test]
fn expensive_turn_name_and_category() {
    assert_eq!(ExpensiveTurn.name(), "expensive_turn");
    assert_eq!(ExpensiveTurn.category(), RuleCategory::Cost);
}

#[test]
fn empty_reasoning_name_and_category() {
    assert_eq!(EmptyReasoning.name(), "empty_reasoning");
    assert_eq!(EmptyReasoning.category(), RuleCategory::Quality);
}

#[test]
fn system_prompt_tax_name_and_category() {
    assert_eq!(SystemPromptTax.name(), "system_prompt_tax");
    assert_eq!(SystemPromptTax.category(), RuleCategory::Cost);
}

#[test]
fn history_cost_dominant_name_and_category() {
    assert_eq!(HistoryCostDominant.name(), "history_cost_dominant");
    assert_eq!(HistoryCostDominant.category(), RuleCategory::Cost);
}

#[test]
fn large_output_ratio_name_and_category() {
    assert_eq!(LargeOutputRatio.name(), "large_output_ratio");
    assert_eq!(LargeOutputRatio.category(), RuleCategory::Cost);
}

#[test]
fn cached_turn_savings_name_and_category() {
    assert_eq!(CachedTurnSavings.name(), "cached_turn_savings");
    assert_eq!(CachedTurnSavings.category(), RuleCategory::Cost);
}

#[test]
fn context_drift_name_and_category() {
    assert_eq!(ContextDrift.name(), "context_drift");
    assert_eq!(ContextDrift.category(), RuleCategory::Budget);
}

#[test]
fn frequent_escalation_name_and_category() {
    assert_eq!(FrequentEscalation.name(), "frequent_escalation");
    assert_eq!(FrequentEscalation.category(), RuleCategory::Quality);
}

#[test]
fn cost_acceleration_name_and_category() {
    assert_eq!(CostAcceleration.name(), "cost_acceleration");
    assert_eq!(CostAcceleration.category(), RuleCategory::Cost);
}

#[test]
fn underutilized_memory_name_and_category() {
    assert_eq!(UnderutilizedMemory.name(), "underutilized_memory");
    assert_eq!(UnderutilizedMemory.category(), RuleCategory::Memory);
}

#[test]
fn tool_success_rate_name_and_category() {
    assert_eq!(ToolSuccessRate.name(), "tool_success_rate");
    assert_eq!(ToolSuccessRate.category(), RuleCategory::Tools);
}

#[test]
fn model_churn_name_and_category() {
    assert_eq!(ModelChurn.name(), "model_churn");
    assert_eq!(ModelChurn.category(), RuleCategory::Quality);
}

#[test]
fn quality_declining_name_and_category() {
    assert_eq!(QualityDeclining.name(), "quality_declining");
    assert_eq!(QualityDeclining.category(), RuleCategory::Quality);
}

#[test]
fn cost_quality_mismatch_name_and_category() {
    assert_eq!(CostQualityMismatch.name(), "cost_quality_mismatch");
    assert_eq!(CostQualityMismatch.category(), RuleCategory::Cost);
}

#[test]
fn memory_helps_name_and_category() {
    assert_eq!(MemoryHelps.name(), "memory_helps");
    assert_eq!(MemoryHelps.category(), RuleCategory::Memory);
}

#[test]
fn low_coverage_warning_name_and_category() {
    assert_eq!(LowCoverageWarning.name(), "low_coverage_warning");
    assert_eq!(LowCoverageWarning.category(), RuleCategory::Quality);
}
