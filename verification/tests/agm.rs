use belief_revision::{
    check_recovery, contract, contract_by_entrenchment, contract_multiple, expand, revise,
    revise_consistent, verify_agm_postulates, would_create_inconsistency, BeliefBase,
    EntrenchmentOrder, PropositionSet,
};

// ── BeliefBase tests ──

#[test]
fn test_belief_base_new_empty() {
    let bb = BeliefBase::new();
    assert!(bb.is_empty());
    assert_eq!(bb.len(), 0);
}

#[test]
fn test_belief_base_add() {
    let mut bb = BeliefBase::new();
    assert!(bb.add("sky_is_blue".into()));
    assert!(!bb.add("sky_is_blue".into())); // duplicate
    assert_eq!(bb.len(), 1);
}

#[test]
fn test_belief_base_remove() {
    let mut bb = BeliefBase::new();
    bb.add("a".into());
    assert!(bb.remove("a"));
    assert!(!bb.remove("a"));
    assert!(bb.is_empty());
}

#[test]
fn test_belief_base_contains() {
    let mut bb = BeliefBase::new();
    bb.add("gravity".into());
    assert!(bb.contains("gravity"));
    assert!(!bb.contains("magic"));
}

#[test]
fn test_belief_base_from_iter() {
    let bb = BeliefBase::from_propositions(vec!["a".into(), "b".into(), "c".into()]);
    assert_eq!(bb.len(), 3);
    assert!(bb.contains("a"));
    assert!(bb.contains("b"));
    assert!(bb.contains("c"));
}

#[test]
fn test_belief_base_union() {
    let bb1 = BeliefBase::from_propositions(vec!["a".into(), "b".into()]);
    let bb2 = BeliefBase::from_propositions(vec!["b".into(), "c".into()]);
    let union = bb1.union(&bb2);
    assert_eq!(union.len(), 3);
}

#[test]
fn test_belief_base_intersection() {
    let bb1 = BeliefBase::from_propositions(vec!["a".into(), "b".into()]);
    let bb2 = BeliefBase::from_propositions(vec!["b".into(), "c".into()]);
    let inter = bb1.intersection(&bb2);
    assert_eq!(inter.len(), 1);
    assert!(inter.contains("b"));
}

#[test]
fn test_belief_base_subset() {
    let bb1 = BeliefBase::from_propositions(vec!["a".into()]);
    let bb2 = BeliefBase::from_propositions(vec!["a".into(), "b".into()]);
    assert!(bb1.is_subset_of(&bb2));
    assert!(!bb2.is_subset_of(&bb1));
}

#[test]
fn test_belief_base_closure_no_implications() {
    let bb = BeliefBase::from_propositions(vec!["a".into(), "b".into()]);
    assert!(bb.check_closure().is_empty());
}

#[test]
fn test_belief_base_closure_with_implication() {
    let bb = BeliefBase::from_propositions(vec!["rain".into(), "rain=>wet".into()]);
    let missing = bb.check_closure();
    assert!(missing.contains(&"wet".to_string()));
}

#[test]
fn test_belief_base_closure_satisfied() {
    let bb = BeliefBase::from_propositions(vec!["rain".into(), "rain=>wet".into(), "wet".into()]);
    assert!(bb.check_closure().is_empty());
}

#[test]
fn test_belief_base_default() {
    let bb = BeliefBase::default();
    assert!(bb.is_empty());
}

// ── Entrenchment tests ──

#[test]
fn test_entrenchment_new() {
    let eo = EntrenchmentOrder::new();
    assert_eq!(eo.num_levels(), 0);
}

#[test]
fn test_entrenchment_add_rank() {
    let mut eo = EntrenchmentOrder::new();
    let rank0 = eo.add_rank(PropositionSet::from_strings(vec!["low".into()]));
    let rank1 = eo.add_rank(PropositionSet::from_strings(vec!["high".into()]));
    assert_eq!(rank0, 0);
    assert_eq!(rank1, 1);
}

#[test]
fn test_entrenchment_level() {
    let mut eo = EntrenchmentOrder::new();
    eo.add_rank(PropositionSet::from_strings(vec!["a".into()]));
    eo.add_rank(PropositionSet::from_strings(vec!["b".into()]));
    assert_eq!(eo.level("a"), Some(0));
    assert_eq!(eo.level("b"), Some(1));
    assert_eq!(eo.level("c"), None);
}

#[test]
fn test_entrenchment_at_least() {
    let mut eo = EntrenchmentOrder::new();
    eo.add_rank(PropositionSet::from_strings(vec!["a".into()]));
    eo.add_rank(PropositionSet::from_strings(vec!["b".into()]));
    assert!(eo.at_least_as_entrenched("b", "a"));
    assert!(!eo.at_least_as_entrenched("a", "b"));
}

#[test]
fn test_entrenchment_least() {
    let mut eo = EntrenchmentOrder::new();
    eo.add_rank(PropositionSet::from_strings(vec!["x".into(), "y".into()]));
    eo.add_rank(PropositionSet::from_strings(vec!["z".into()]));
    let least = eo.least_entrenched();
    assert_eq!(least.len(), 2);
    assert!(least.contains("x"));
}

#[test]
fn test_entrenchment_remove() {
    let mut eo = EntrenchmentOrder::new();
    eo.add_rank(PropositionSet::from_strings(vec!["a".into()]));
    assert!(eo.remove("a"));
    assert!(!eo.remove("a"));
    assert_eq!(eo.total_beliefs(), 0);
}

#[test]
fn test_entrenchment_beliefs_at_level() {
    let mut eo = EntrenchmentOrder::new();
    eo.add_rank(PropositionSet::from_strings(vec!["a".into(), "b".into()]));
    let at_0 = eo.beliefs_at_level(0);
    assert_eq!(at_0.len(), 2);
}

#[test]
fn test_entrenchment_beliefs_invalid_level() {
    let eo = EntrenchmentOrder::new();
    assert!(eo.beliefs_at_level(5).is_empty());
}

#[test]
fn test_entrenchment_default() {
    let eo = EntrenchmentOrder::default();
    assert_eq!(eo.num_levels(), 0);
}

// ── Contraction tests ──

#[test]
fn test_contraction_basic() {
    let bb = BeliefBase::from_propositions(vec!["a".into(), "b".into()]);
    let eo = EntrenchmentOrder::new();
    let contracted = contract(&bb, "a", &eo);
    assert!(!contracted.contains("a"));
    assert!(contracted.contains("b"));
}

#[test]
fn test_contraction_absent_belief() {
    let bb = BeliefBase::from_propositions(vec!["a".into()]);
    let eo = EntrenchmentOrder::new();
    let contracted = contract(&bb, "z", &eo);
    assert_eq!(contracted.len(), 1); // unchanged
}

#[test]
fn test_contraction_inclusion_postulate() {
    let bb = BeliefBase::from_propositions(vec!["a".into(), "b".into(), "c".into()]);
    let eo = EntrenchmentOrder::new();
    let contracted = contract(&bb, "b", &eo);
    assert!(contracted.is_subset_of(&bb)); // K−p ⊆ K
}

#[test]
fn test_contraction_success_postulate() {
    let bb = BeliefBase::from_propositions(vec!["a".into(), "b".into()]);
    let eo = EntrenchmentOrder::new();
    let contracted = contract(&bb, "a", &eo);
    assert!(!contracted.contains("a")); // p ∉ K−p
}

#[test]
fn test_contraction_vacuity_postulate() {
    let bb = BeliefBase::from_propositions(vec!["a".into()]);
    let eo = EntrenchmentOrder::new();
    let contracted = contract(&bb, "z", &eo);
    assert_eq!(contracted.len(), bb.len()); // K−p = K when p ∉ K
}

#[test]
fn test_contraction_multiple() {
    let bb = BeliefBase::from_propositions(vec!["a".into(), "b".into(), "c".into()]);
    let eo = EntrenchmentOrder::new();
    let contracted = contract_multiple(&bb, &["a", "c"], &eo);
    assert!(contracted.contains("b"));
    assert!(!contracted.contains("a"));
    assert!(!contracted.contains("c"));
}

#[test]
fn test_contraction_by_entrenchment() {
    let mut eo = EntrenchmentOrder::new();
    eo.add_rank(PropositionSet::from_strings(vec!["a".into()])); // level 0, least entrenched
    eo.add_rank(PropositionSet::from_strings(vec!["b".into()])); // level 1
    let bb = BeliefBase::from_propositions(vec!["a".into(), "b".into()]);
    let contracted = contract_by_entrenchment(&bb, "a", &eo);
    assert!(!contracted.contains("a"));
}

// ── Revision tests ──

#[test]
fn test_revision_basic() {
    let bb = BeliefBase::from_propositions(vec!["a".into()]);
    let eo = EntrenchmentOrder::new();
    let revised = revise(&bb, "b", &eo);
    assert!(revised.contains("b"));
}

#[test]
fn test_revision_removes_negation() {
    let bb = BeliefBase::from_propositions(vec!["¬rain".into(), "warm".into()]);
    let eo = EntrenchmentOrder::new();
    let revised = revise(&bb, "rain", &eo);
    assert!(revised.contains("rain"));
    assert!(!revised.contains("¬rain"));
    assert!(revised.contains("warm"));
}

#[test]
fn test_expansion() {
    let bb = BeliefBase::from_propositions(vec!["a".into()]);
    let expanded = expand(&bb, "b".into());
    assert!(expanded.contains("a"));
    assert!(expanded.contains("b"));
}

#[test]
fn test_revision_consistent_no_conflict() {
    let bb = BeliefBase::from_propositions(vec!["a".into()]);
    let revised = revise_consistent(&bb, "b");
    assert!(revised.contains("b"));
    assert!(revised.contains("a"));
}

#[test]
fn test_revision_consistent_with_conflict() {
    let bb = BeliefBase::from_propositions(vec!["¬x".into(), "y".into()]);
    let revised = revise_consistent(&bb, "x");
    assert!(revised.contains("x"));
    assert!(!revised.contains("¬x"));
}

#[test]
fn test_would_create_inconsistency() {
    let bb = BeliefBase::from_propositions(vec!["¬x".into()]);
    assert!(would_create_inconsistency(&bb, "x"));
    assert!(!would_create_inconsistency(&bb, "y"));
}

#[test]
fn test_revision_preserves_unrelated() {
    let bb = BeliefBase::from_propositions(vec!["a".into(), "b".into(), "c".into()]);
    let eo = EntrenchmentOrder::new();
    let revised = revise(&bb, "d", &eo);
    assert!(revised.contains("a"));
    assert!(revised.contains("b"));
    assert!(revised.contains("c"));
    assert!(revised.contains("d"));
}

// ── Recovery tests ──

#[test]
fn test_recovery_basic() {
    let bb = BeliefBase::from_propositions(vec!["a".into(), "b".into()]);
    let contracted = BeliefBase::from_propositions(vec!["b".into()]);
    let result = check_recovery(&bb, &contracted, "a");
    assert!(result.original_subset_of_recovered);
    assert!(result.recovered.contains("a"));
}

#[test]
fn test_recovery_adds_back() {
    let bb = BeliefBase::from_propositions(vec!["x".into(), "y".into()]);
    let mut contracted = bb.clone();
    contracted.remove("x");
    let result = check_recovery(&bb, &contracted, "x");
    assert!(result.recovered.contains("x"));
    assert!(result.recovered.contains("y"));
}

#[test]
fn test_recovery_new_beliefs() {
    let bb = BeliefBase::from_propositions(vec!["a".into()]);
    let contracted = BeliefBase::from_propositions(vec!["b".into()]);
    let result = check_recovery(&bb, &contracted, "a");
    // recovered has "a" and "b", original only has "a"
    assert!(result.new_beliefs.contains(&"b".to_string()));
}

// ── AGM Verification tests ──

#[test]
fn test_agm_verification_basic() {
    let bb = BeliefBase::from_propositions(vec!["a".into(), "b".into()]);
    let eo = EntrenchmentOrder::new();
    let verification = verify_agm_postulates(&bb, "a", &eo);
    assert!(verification.closure);
    assert!(verification.inclusion);
    assert!(verification.success);
}

#[test]
fn test_agm_verification_vacuity() {
    let bb = BeliefBase::from_propositions(vec!["a".into()]);
    let eo = EntrenchmentOrder::new();
    let verification = verify_agm_postulates(&bb, "z", &eo);
    assert!(verification.vacuity);
}

#[test]
fn test_agm_verification_all_satisfied() {
    let bb = BeliefBase::from_propositions(vec!["a".into(), "b".into()]);
    let eo = EntrenchmentOrder::new();
    let verification = verify_agm_postulates(&bb, "a", &eo);
    assert!(verification.all_satisfied());
}

#[test]
fn test_agm_full_cycle() {
    // Full cycle: start with beliefs, contract, revise, verify recovery
    let mut bb = BeliefBase::new();
    bb.add("earth_round".into());
    bb.add("gravity_exists".into());
    bb.add("sky_blue".into());

    let eo = EntrenchmentOrder::new();
    let contracted = contract(&bb, "sky_blue", &eo);
    assert!(!contracted.contains("sky_blue"));
    assert!(contracted.contains("earth_round"));

    let revised = revise(&contracted, "sky_green", &eo);
    assert!(revised.contains("sky_green"));
    assert!(revised.contains("earth_round"));
}

#[test]
fn test_agm_contraction_idempotent() {
    let bb = BeliefBase::from_propositions(vec!["a".into()]);
    let eo = EntrenchmentOrder::new();
    let c1 = contract(&bb, "a", &eo);
    let c2 = contract(&c1, "a", &eo);
    assert_eq!(c1.len(), c2.len());
}

#[test]
fn test_contraction_empty_base() {
    let bb = BeliefBase::new();
    let eo = EntrenchmentOrder::new();
    let contracted = contract(&bb, "a", &eo);
    assert!(contracted.is_empty());
}

#[test]
fn test_revision_empty_base() {
    let bb = BeliefBase::new();
    let eo = EntrenchmentOrder::new();
    let revised = revise(&bb, "a", &eo);
    assert!(revised.contains("a"));
    assert_eq!(revised.len(), 1);
}
