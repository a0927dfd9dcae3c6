//! Recommendation vocabulary: categories with their labels and icons,
//! priorities, and the evidence behind a recommendation.

use vstd::prelude::*;

verus! {

#[derive(Debug, Clone, Copy, PartialEq, Eq, Structural)]
pub enum RecommendationCategory {
    QueryCrafting,
    ModelSelection,
    SessionManagement,
    MemoryLeverage,
    CostOptimization,
    ToolUsage,
    Configuration,
}

pub open spec fn category_label(c: RecommendationCategory) -> Seq<char> {
    match c {
        RecommendationCategory::QueryCrafting => "Query Crafting"@,
        RecommendationCategory::ModelSelection => "Model Selection"@,
        RecommendationCategory::SessionManagement => "Session Management"@,
        RecommendationCategory::MemoryLeverage => "Memory Leverage"@,
        RecommendationCategory::CostOptimization => "Cost Optimization"@,
        RecommendationCategory::ToolUsage => "Tool Usage"@,
        RecommendationCategory::Configuration => "Configuration"@,
    }
}

pub open spec fn category_icon(c: RecommendationCategory) -> Seq<char> {
    match c {
        RecommendationCategory::QueryCrafting => "pencil"@,
        RecommendationCategory::ModelSelection => "cpu"@,
        RecommendationCategory::SessionManagement => "chat"@,
        RecommendationCategory::MemoryLeverage => "memory"@,
        RecommendationCategory::CostOptimization => "dollar"@,
        RecommendationCategory::ToolUsage => "wrench"@,
        RecommendationCategory::Configuration => "gear"@,
    }
}

impl RecommendationCategory {
    pub fn label(&self) -> (r: &'static str)
        ensures
            r@ == category_label(*self),
    {
        match self {
            RecommendationCategory::QueryCrafting => "Query Crafting",
            RecommendationCategory::ModelSelection => "Model Selection",
            RecommendationCategory::SessionManagement => "Session Management",
            RecommendationCategory::MemoryLeverage => "Memory Leverage",
            RecommendationCategory::CostOptimization => "Cost Optimization",
            RecommendationCategory::ToolUsage => "Tool Usage",
            RecommendationCategory::Configuration => "Configuration",
        }
    }

    pub fn icon(&self) -> (r: &'static str)
        ensures
            r@ == category_icon(*self),
    {
        match self {
            RecommendationCategory::QueryCrafting => "pencil",
            RecommendationCategory::ModelSelection => "cpu",
            RecommendationCategory::SessionManagement => "chat",
            RecommendationCategory::MemoryLeverage => "memory",
            RecommendationCategory::CostOptimization => "dollar",
            RecommendationCategory::ToolUsage => "wrench",
            RecommendationCategory::Configuration => "gear",
        }
    }
}

#[derive(Debug, Clone, Copy, PartialEq, Eq, Structural)]
pub enum Priority {
    Low,
    Medium,
    High,
}

pub open spec fn priority_rank(p: Priority) -> u8 {
    match p {
        Priority::Low => 0,
        Priority::Medium => 1,
        Priority::High => 2,
    }
}

impl Priority {
    /// The position of the priority in the order Low < Medium < High.
    pub fn ordinal(&self) -> (r: u8)
        ensures
            r == priority_rank(*self),
    {
        match self {
            Priority::Low => 0,
            Priority::Medium => 1,
            Priority::High => 2,
        }
    }
}

/// A measured fact behind a recommendation.
#[derive(Debug, Clone)]
pub struct Evidence {
    pub metric: String,
    pub value: String,
    pub context: String,
}

/// Builds prompts for a model-backed deep analysis of a usage profile.
pub struct LlmRecommendationAnalyzer;

/// The indices of the priorities of rank `k`, in order.
pub open spec fn ranked(ps: Seq<Priority>, k: u8) -> Seq<int>
    decreases ps.len(),
{
    if ps.len() == 0 {
        seq![]
    } else if priority_rank(ps.last()) == k {
        ranked(ps.drop_last(), k).push(ps.len() - 1)
    } else {
        ranked(ps.drop_last(), k)
    }
}

/// The order recommendations are shown in: High first, then Medium, then
/// Low, each in the order they were made (a stable sort by priority,
/// highest first).
pub open spec fn priority_order_of(ps: Seq<Priority>) -> Seq<int> {
    ranked(ps, 2) + ranked(ps, 1) + ranked(ps, 0)
}

proof fn lemma_ranked(ps: Seq<Priority>, k: u8)
    ensures
        forall|i: int|
            0 <= i < ranked(ps, k).len() ==> 0 <= #[trigger] ranked(ps, k)[i] < ps.len()
                && priority_rank(ps[ranked(ps, k)[i]]) == k,
        forall|i: int, j: int|
            0 <= i < j < ranked(ps, k).len() ==> #[trigger] ranked(ps, k)[i] < #[trigger] ranked(
                ps,
                k,
            )[j],
    decreases ps.len(),
{
    if ps.len() > 0 {
        lemma_ranked(ps.drop_last(), k);
        let r = ranked(ps.drop_last(), k);
        assert forall|i: int| 0 <= i < r.len() implies ps[r[i]] == ps.drop_last()[r[i]] by {}
    }
}

proof fn lemma_ranked_lengths(ps: Seq<Priority>)
    ensures
        ranked(ps, 2).len() + ranked(ps, 1).len() + ranked(ps, 0).len() == ps.len(),
    decreases ps.len(),
{
    if ps.len() > 0 {
        lemma_ranked_lengths(ps.drop_last());
    }
}

/// Showing recommendations in priority order shows each exactly once, puts
/// none before one of higher priority, and keeps recommendations of equal
/// priority in the order they were made (the sort is stable).
pub proof fn lemma_priority_order_sorted(ps: Seq<Priority>)
    ensures
        priority_order_of(ps).len() == ps.len(),
        forall|i: int, j: int|
            0 <= i < j < priority_order_of(ps).len() ==> #[trigger] priority_order_of(ps)[i]
                != #[trigger] priority_order_of(ps)[j],
        forall|i: int, j: int|
            0 <= i < j < priority_order_of(ps).len() ==> priority_rank(
                ps[#[trigger] priority_order_of(ps)[i]],
            ) >= priority_rank(ps[#[trigger] priority_order_of(ps)[j]]),
        forall|i: int|
            0 <= i < priority_order_of(ps).len() ==> 0 <= #[trigger] priority_order_of(ps)[i]
                < ps.len(),
        forall|i: int, j: int|
            0 <= i < j < priority_order_of(ps).len() && priority_rank(
                ps[#[trigger] priority_order_of(ps)[i]],
            ) == priority_rank(ps[#[trigger] priority_order_of(ps)[j]]) ==> priority_order_of(ps)[i]
                < priority_order_of(ps)[j],
{
    lemma_ranked(ps, 2);
    lemma_ranked(ps, 1);
    lemma_ranked(ps, 0);
    lemma_ranked_lengths(ps);
    let a = ranked(ps, 2);
    let b = ranked(ps, 1);
    let c = ranked(ps, 0);
    let o = priority_order_of(ps);
    assert forall|i: int| 0 <= i < o.len() implies 0 <= #[trigger] o[i] < ps.len()
        && priority_rank(ps[o[i]]) == if i < a.len() {
        2u8
    } else if i < a.len() + b.len() {
        1u8
    } else {
        0u8
    } by {
        if i < a.len() {
            assert(o[i] == a[i]);
        } else if i < a.len() + b.len() {
            assert(o[i] == b[i - a.len()]);
        } else {
            assert(o[i] == c[i - a.len() - b.len()]);
        }
    }
    assert forall|i: int, j: int| 0 <= i < j < o.len() implies priority_rank(ps[#[trigger] o[i]])
        >= priority_rank(ps[#[trigger] o[j]]) && o[i] != o[j] && (priority_rank(ps[o[i]])
        == priority_rank(ps[o[j]]) ==> o[i] < o[j]) by {
        assert(0 <= o[i] < ps.len());
        if i < a.len() && j < a.len() {
            assert(a[i] < a[j]);
        } else if a.len() <= i && j < a.len() + b.len() {
            assert(b[i - a.len()] < b[j - a.len()]);
        } else if a.len() + b.len() <= i {
            assert(c[i - a.len() - b.len()] < c[j - a.len() - b.len()]);
        }
    }
}

fn indices_of_rank(ps: &[Priority], k: u8, out: &mut Vec<usize>)
    ensures
        final(out)@.map_values(|x: usize| x as int) == old(out)@.map_values(|x: usize| x as int) + ranked(
            ps@,
            k,
        ),
{
    let ghost start = out@.map_values(|x: usize| x as int);
    let mut i: usize = 0;
    while i < ps.len()
        invariant
            0 <= i <= ps@.len(),
            out@.map_values(|x: usize| x as int) == start + ranked(ps@.take(i as int), k),
        decreases ps@.len() - i,
    {
        assert(ps@.take(i + 1).drop_last() =~= ps@.take(i as int));
        assert(ps@.take(i + 1).last() == ps@[i as int]);
        let ghost o0 = out@.map_values(|x: usize| x as int);
        if ps[i].ordinal() == k {
            out.push(i);
            assert(out@.map_values(|x: usize| x as int) =~= o0.push(i as int));
            assert(start + ranked(ps@.take(i + 1), k) =~= (start + ranked(ps@.take(i as int), k)).push(
                i as int,
            ));
        }
        i = i + 1;
    }
    assert(ps@.take(ps@.len() as int) =~= ps@);
}

/// The positions of recommendations with the given priorities, in the order
/// they are shown: highest priority first, ties in their original order.
pub fn priority_order(priorities: &[Priority]) -> (r: Vec<usize>)
    ensures
        r@.map_values(|x: usize| x as int) == priority_order_of(priorities@),
{
    let mut out: Vec<usize> = Vec::new();
    indices_of_rank(priorities, 2, &mut out);
    indices_of_rank(priorities, 1, &mut out);
    indices_of_rank(priorities, 0, &mut out);
    assert(Seq::<int>::empty() + ranked(priorities@, 2) =~= ranked(priorities@, 2));
    out
}

} // verus!
