use koru_delta::lifecycle::transition_planner::{
    ImportanceScore, Transition, TransitionBatch, TransitionPlanner, TransitionType,
};
use koru_delta::lifecycle::MemoryTier;

fn create_score(id: &str, score: f32) -> ImportanceScore {
    ImportanceScore {
        distinction_id: id.to_string(),
        score: score.to_bits(),
        confidence: 0.8f32.to_bits(),
        weighted: (score * 0.8f32).to_bits(),
    }
}

fn bits(x: f32) -> u32 {
    x.to_bits()
}

#[test]
fn test_transition_planner_new() {
    let planner = TransitionPlanner::new();
    assert_eq!(planner.hot_capacity(), 1000);
    assert_eq!(planner.warm_capacity(), 10000);
}

#[test]
fn test_plan_transitions() {
    let planner = TransitionPlanner::new();
    let scores = vec![
        create_score("high1", 0.9),
        create_score("high2", 0.85),
        create_score("med1", 0.5),
        create_score("med2", 0.45),
        create_score("low1", 0.2),
        create_score("low2", 0.15),
        create_score("deep1", 0.05),
    ];
    let transitions = planner.plan_transitions(&scores);
    // Every item already sits in the tier its score places it in.
    assert!(transitions.is_empty());
}

#[test]
fn plan_transitions_moves_overflow_down() {
    let planner = TransitionPlanner::with_capacities(1, 10, 10);
    let scores = vec![create_score("a", 0.7), create_score("b", 0.9)];
    let transitions = planner.plan_transitions(&scores);
    // "b" ranks first and takes the one Hot slot; "a" is pushed to Warm.
    assert_eq!(transitions.len(), 1);
    assert_eq!(transitions[0].distinction_id, "a");
    assert_eq!(transitions[0].from_tier, MemoryTier::Hot);
    assert_eq!(transitions[0].to_tier, MemoryTier::Warm);
}

#[test]
fn test_plan_emergency_demotions() {
    let planner = TransitionPlanner::new();
    let scores = vec![
        create_score("low1", 0.2),
        create_score("low2", 0.3),
        create_score("low3", 0.4),
    ];
    let demotions = planner.select_emergency_demotions(&scores, 2);
    assert_eq!(demotions.len(), 2);
    // Lowest scores first.
    assert_eq!(demotions[0].distinction_id, "low1");
    assert_eq!(demotions[1].distinction_id, "low2");
}

#[test]
fn emergency_demotions_skip_hot_scores() {
    let planner = TransitionPlanner::new();
    let scores = vec![create_score("hot", 0.95), create_score("cool", 0.1)];
    let demotions = planner.select_emergency_demotions(&scores, 5);
    assert_eq!(demotions.len(), 1);
    assert_eq!(demotions[0].distinction_id, "cool");
}

#[test]
fn test_plan_promotions() {
    let planner = TransitionPlanner::new();
    let scores = vec![
        create_score("high1", 0.9),
        create_score("high2", 0.85),
        create_score("high3", 0.8),
    ];
    let promotions = planner.plan_promotions(&scores, 2);
    assert_eq!(promotions.len(), 2);
    // Highest scores first.
    assert_eq!(promotions[0].distinction_id, "high1");
    assert_eq!(promotions[0].to_tier, MemoryTier::Hot);
    assert_eq!(promotions[1].distinction_id, "high2");
}

#[test]
fn test_transition_types() {
    let demote = Transition::new("test".to_string(), MemoryTier::Hot, MemoryTier::Warm, bits(0.5));
    assert_eq!(demote.transition_type(), TransitionType::Demote);
    assert!(demote.is_demotion());
    assert!(!demote.is_promotion());

    let promote = Transition::new("test".to_string(), MemoryTier::Warm, MemoryTier::Hot, bits(0.8));
    assert_eq!(promote.transition_type(), TransitionType::Promote);
    assert!(promote.is_promotion());
    assert!(!promote.is_demotion());

    let archive = Transition::new("test".to_string(), MemoryTier::Cold, MemoryTier::Deep, bits(0.1));
    assert_eq!(archive.transition_type(), TransitionType::Archive);
}

#[test]
fn test_transition_batch() {
    let mut batch = TransitionBatch::new();
    assert!(batch.is_empty());
    batch.add(Transition::new("t1".to_string(), MemoryTier::Warm, MemoryTier::Hot, bits(0.8)));
    batch.add(Transition::new("t2".to_string(), MemoryTier::Hot, MemoryTier::Warm, bits(0.3)));
    batch.add(Transition::new("t3".to_string(), MemoryTier::Warm, MemoryTier::Hot, bits(0.9)));
    assert_eq!(batch.len(), 3);
    assert_eq!(batch.to_hot.len(), 2);
    assert_eq!(batch.to_warm.len(), 1);
    assert!(batch.to_cold.is_empty());
    assert!(batch.to_deep.is_empty());
}

#[test]
fn test_set_thresholds() {
    let mut planner = TransitionPlanner::new();
    planner.set_thresholds(bits(0.7), bits(0.4), bits(0.2));
    assert_eq!(planner.thresholds(), (bits(0.7), bits(0.4), bits(0.2)));
}

#[test]
fn thresholds_are_capped_at_one() {
    let mut planner = TransitionPlanner::new();
    planner.set_thresholds(bits(1.5), bits(0.4), bits(0.2));
    assert_eq!(planner.thresholds().0, bits(1.0));
}

#[test]
fn negative_thresholds_clamp_to_zero() {
    let mut planner = TransitionPlanner::new();
    planner.set_thresholds(bits(-0.5), bits(0.4), bits(0.2));
    assert_eq!(planner.thresholds().0, bits(0.0));
}

#[test]
fn negative_scores_rank_below_positive_ones() {
    let planner = TransitionPlanner::new();
    let scores = vec![create_score("neg", -0.5), create_score("pos", 0.2)];
    // Both fall under the Hot threshold; the lowest (negative) score comes first.
    let demote = planner.select_emergency_demotions(&scores, 2);
    let ids: Vec<&str> = demote.iter().map(|s| s.distinction_id.as_str()).collect();
    assert_eq!(ids, vec!["neg", "pos"]);
    // A negative score meets no threshold: it is taken to be in Deep already.
    let moves = planner.plan_transitions(&vec![create_score("neg", -0.5)]);
    assert!(moves.is_empty());
}

#[test]
fn emergency_transitions_move_hot_to_warm_with_given_priority() {
    let planner = TransitionPlanner::new();
    let chosen = planner.select_emergency_demotions(&vec![create_score("a", 0.3), create_score("b", 0.1)], 5);
    let priorities: Vec<u32> = chosen.iter().map(|s| (1.0 - f32::from_bits(s.score)).to_bits()).collect();
    let ts = planner.emergency_transitions(&chosen, &priorities);
    assert_eq!(ts.len(), 2);
    assert_eq!(ts[0].distinction_id, "b");
    assert_eq!(ts[0].from_tier, MemoryTier::Hot);
    assert_eq!(ts[0].to_tier, MemoryTier::Warm);
    assert_eq!(ts[0].importance_score, bits(0.1));
    assert_eq!(ts[0].priority, (1.0f32 - 0.1f32).to_bits());
    assert_eq!(ts[1].distinction_id, "a");
}
