//! The context analyzer's vocabulary: tip severities and categories, tips,
//! and the identity (name and category) of every per-turn and per-session
//! analysis rule.

use vstd::prelude::*;

verus! {

#[derive(Debug, Clone, Copy, PartialEq, Eq, Structural)]
pub enum Severity {
    Info,
    Warning,
    Critical,
}

#[derive(Debug, Clone, Copy, PartialEq, Eq, Structural)]
pub enum RuleCategory {
    Budget,
    Memory,
    Prompt,
    Tools,
    Cost,
    Quality,
}

/// One piece of advice produced by an analysis rule.
#[derive(Debug)]
pub struct Tip {
    pub severity: Severity,
    pub category: RuleCategory,
    pub rule_name: String,
    pub message: String,
    pub suggestion: String,
}

// ── Per-turn rules ──────────────────────────────────────────────

pub struct BudgetPressure;

impl BudgetPressure {
    pub fn name(&self) -> (r: &'static str)
        ensures
            r@ == "budget_pressure"@,
    {
        "budget_pressure"
    }

    pub fn category(&self) -> (r: RuleCategory)
        ensures
            r == RuleCategory::Budget,
    {
        RuleCategory::Budget
    }
}

pub struct SystemPromptHeavy;

impl SystemPromptHeavy {
    pub fn name(&self) -> (r: &'static str)
        ensures
            r@ == "system_prompt_heavy"@,
    {
        "system_prompt_heavy"
    }

    pub fn category(&self) -> (r: RuleCategory)
        ensures
            r == RuleCategory::Prompt,
    {
        RuleCategory::Prompt
    }
}

pub struct MemoryStarvation;

impl MemoryStarvation {
    pub fn name(&self) -> (r: &'static str)
        ensures
            r@ == "memory_starvation"@,
    {
        "memory_starvation"
    }

    pub fn category(&self) -> (r: RuleCategory)
        ensures
            r == RuleCategory::Memory,
    {
        RuleCategory::Memory
    }
}

pub struct ShallowHistory;

impl ShallowHistory {
    pub fn name(&self) -> (r: &'static str)
        ensures
            r@ == "shallow_history"@,
    {
        "shallow_history"
    }

    pub fn category(&self) -> (r: RuleCategory)
        ensures
            r == RuleCategory::Quality,
    {
        RuleCategory::Quality
    }
}

pub struct HighToolDensity;

impl HighToolDensity {
    pub fn name(&self) -> (r: &'static str)
        ensures
            r@ == "high_tool_density"@,
    {
        "high_tool_density"
    }

    pub fn category(&self) -> (r: RuleCategory)
        ensures
            r == RuleCategory::Tools,
    {
        RuleCategory::Tools
    }
}

pub struct ToolFailures;

impl ToolFailures {
    pub fn name(&self) -> (r: &'static str)
        ensures
            r@ == "tool_failures"@,
    {
        "tool_failures"
    }

    pub fn category(&self) -> (r: RuleCategory)
        ensures
            r == RuleCategory::Tools,
    {
        RuleCategory::Tools
    }
}

pub struct ExpensiveTurn;

impl ExpensiveTurn {
    pub fn name(&self) -> (r: &'static str)
        ensures
            r@ == "expensive_turn"@,
    {
        "expensive_turn"
    }

    pub fn category(&self) -> (r: RuleCategory)
        ensures
            r == RuleCategory::Cost,
    {
        RuleCategory::Cost
    }
}

pub struct EmptyReasoning;

impl EmptyReasoning {
    pub fn name(&self) -> (r: &'static str)
        ensures
            r@ == "empty_reasoning"@,
    {
        "empty_reasoning"
    }

    pub fn category(&self) -> (r: RuleCategory)
        ensures
            r == RuleCategory::Quality,
    {
        RuleCategory::Quality
    }
}

pub struct SystemPromptTax;

impl SystemPromptTax {
    pub fn name(&self) -> (r: &'static str)
        ensures
            r@ == "system_prompt_tax"@,
    {
        "system_prompt_tax"
    }

    pub fn category(&self) -> (r: RuleCategory)
        ensures
            r == RuleCategory::Cost,
    {
        RuleCategory::Cost
    }
}

pub struct HistoryCostDominant;

impl HistoryCostDominant {
    pub fn name(&self) -> (r: &'static str)
        ensures
            r@ == "history_cost_dominant"@,
    {
        "history_cost_dominant"
    }

    pub fn category(&self) -> (r: RuleCategory)
        ensures
            r == RuleCategory::Cost,
    {
        RuleCategory::Cost
    }
}

pub struct LargeOutputRatio;

impl LargeOutputRatio {
    pub fn name(&self) -> (r: &'static str)
        ensures
            r@ == "large_output_ratio"@,
    {
        "large_output_ratio"
    }

    pub fn category(&self) -> (r: RuleCategory)
        ensures
            r == RuleCategory::Cost,
    {
        RuleCategory::Cost
    }
}

pub struct CachedTurnSavings;

impl CachedTurnSavings {
    pub fn name(&self) -> (r: &'static str)
        ensures
            r@ == "cached_turn_savings"@,
    {
        "cached_turn_savings"
    }

    pub fn category(&self) -> (r: RuleCategory)
        ensures
            r == RuleCategory::Cost,
    {
        RuleCategory::Cost
    }
}

// ── Session-aggregate rules ─────────────────────────────────────

pub struct ContextDrift;

impl ContextDrift {
    pub fn name(&self) -> (r: &'static str)
        ensures
            r@ == "context_drift"@,
    {
        "context_drift"
    }

    pub fn category(&self) -> (r: RuleCategory)
        ensures
            r == RuleCategory::Budget,
    {
        RuleCategory::Budget
    }
}

pub struct FrequentEscalation;

impl FrequentEscalation {
    pub fn name(&self) -> (r: &'static str)
        ensures
            r@ == "frequent_escalation"@,
    {
        "frequent_escalation"
    }

    pub fn category(&self) -> (r: RuleCategory)
        ensures
            r == RuleCategory::Quality,
    {
        RuleCategory::Quality
    }
}

pub struct CostAcceleration;

impl CostAcceleration {
    pub fn name(&self) -> (r: &'static str)
        ensures
            r@ == "cost_acceleration"@,
    {
        "cost_acceleration"
    }

    pub fn category(&self) -> (r: RuleCategory)
        ensures
            r == RuleCategory::Cost,
    {
        RuleCategory::Cost
    }
}

pub struct UnderutilizedMemory;

impl UnderutilizedMemory {
    pub fn name(&self) -> (r: &'static str)
        ensures
            r@ == "underutilized_memory"@,
    {
        "underutilized_memory"
    }

    pub fn category(&self) -> (r: RuleCategory)
        ensures
            r == RuleCategory::Memory,
    {
        RuleCategory::Memory
    }
}

pub struct ToolSuccessRate;

impl ToolSuccessRate {
    pub fn name(&self) -> (r: &'static str)
        ensures
            r@ == "tool_success_rate"@,
    {
        "tool_success_rate"
    }

    pub fn category(&self) -> (r: RuleCategory)
        ensures
            r == RuleCategory::Tools,
    {
        RuleCategory::Tools
    }
}

pub struct ModelChurn;

impl ModelChurn {
    pub fn name(&self) -> (r: &'static str)
        ensures
            r@ == "model_churn"@,
    {
        "model_churn"
    }

    pub fn category(&self) -> (r: RuleCategory)
        ensures
            r == RuleCategory::Quality,
    {
        RuleCategory::Quality
    }
}

pub struct QualityDeclining;

impl QualityDeclining {
    pub fn name(&self) -> (r: &'static str)
        ensures
            r@ == "quality_declining"@,
    {
        "quality_declining"
    }

    pub fn category(&self) -> (r: RuleCategory)
        ensures
            r == RuleCategory::Quality,
    {
        RuleCategory::Quality
    }
}

pub struct CostQualityMismatch;

impl CostQualityMismatch {
    pub fn name(&self) -> (r: &'static str)
        ensures
            r@ == "cost_quality_mismatch"@,
    {
        "cost_quality_mismatch"
    }

    pub fn category(&self) -> (r: RuleCategory)
        ensures
            r == RuleCategory::Cost,
    {
        RuleCategory::Cost
    }
}

pub struct MemoryHelps;

impl MemoryHelps {
    pub fn name(&self) -> (r: &'static str)
        ensures
            r@ == "memory_helps"@,
    {
        "memory_helps"
    }

    pub fn category(&self) -> (r: RuleCategory)
        ensures
            r == RuleCategory::Memory,
    {
        RuleCategory::Memory
    }
}

pub struct LowCoverageWarning;

impl LowCoverageWarning {
    pub fn name(&self) -> (r: &'static str)
        ensures
            r@ == "low_coverage_warning"@,
    {
        "low_coverage_warning"
    }

    pub fn category(&self) -> (r: RuleCategory)
        ensures
            r == RuleCategory::Quality,
    {
        RuleCategory::Quality
    }
}

/// Builds analysis prompts for a model-backed deep analysis.
pub struct LlmAnalyzer;

} // verus!
