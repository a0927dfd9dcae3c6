use ironclad_agent::recommendations::{priority_order, Priority, RecommendationCategory};

#[test]
fn priority_order_is_stable_highest_first() {
    let ps = [
        Priority::Low,
        Priority::High,
        Priority::Medium,
        Priority::High,
        Priority::Low,
        Priority::Medium,
    ];
    assert_eq!(priority_order(&ps), vec![1, 3, 2, 5, 0, 4]);
}

#[test]
fn priority_order_of_nothing_is_empty() {
    assert!(priority_order(&[]).is_empty());
    assert_eq!(priority_order(&[Priority::Medium]), vec![0]);
}

#[test]
fn priority_ordinals_rise_with_priority() {
    assert_eq!(Priority::Low.ordinal(), 0);
    assert_eq!(Priority::Medium.ordinal(), 1);
    assert_eq!(Priority::High.ordinal(), 2);
}

#[test]
fn category_labels_and_icons() {
    assert_eq!(RecommendationCategory::QueryCrafting.label(), "Query Crafting");
    assert_eq!(RecommendationCategory::CostOptimization.icon(), "dollar");
    assert_eq!(RecommendationCategory::Configuration.label(), "Configuration");
    assert_eq!(RecommendationCategory::ToolUsage.icon(), "wrench");
}
