use belief_revision::text::{is_whitespace, negate, split_once, str_eq, trim};
use belief_revision::{
    check_recovery, contract, contract_by_entrenchment, contract_multiple, expand, revise,
    revise_consistent, verify_agm_postulates, would_create_inconsistency, BeliefBase,
    EntrenchmentOrder, PropositionSet,
};

fn base(items: &[&str]) -> BeliefBase {
    BeliefBase::from_propositions(items.iter().map(|s| s.to_string()).collect())
}

fn set(items: &[&str]) -> PropositionSet {
    PropositionSet::from_strings(items.iter().map(|s| s.to_string()).collect())
}

#[test]
fn beliefs_are_listed_in_string_order() {
    let bb = base(&["b", "¬x", "a", "B", "ab", "a"]);
    assert_eq!(bb.beliefs(), vec!["B", "a", "ab", "b", "¬x"]);
    assert_eq!(bb.len(), 5);
}

#[test]
fn closure_trims_and_follows_belief_order() {
    let bb = base(&["a", "a=>c", "a =>c", "q=>r"]);
    assert_eq!(bb.check_closure(), vec!["c".to_string(), "c".to_string()]);
}

#[test]
fn closure_splits_at_first_arrow() {
    let bb = base(&["a", "a=>b=>c"]);
    assert_eq!(bb.check_closure(), vec!["b=>c".to_string()]);
}

#[test]
fn closure_trims_unicode_white_space() {
    let bb = base(&["rain", "rain\u{00A0}=>\u{3000}wet\t"]);
    assert_eq!(bb.check_closure(), vec!["wet".to_string()]);
    let closed = base(&["rain", " rain => wet ", "wet"]);
    assert!(closed.check_closure().is_empty());
}

#[test]
fn closure_ignores_beliefs_without_arrow_or_antecedent() {
    let bb = base(&["x", "=>y", "x=", ">y"]);
    assert!(bb.check_closure().is_empty());
}

#[test]
fn text_helpers() {
    assert_eq!(trim("  a b \n"), "a b");
    assert_eq!(trim("\u{2003}x\u{205F}"), "x");
    assert_eq!(trim("   "), "");
    assert_eq!(split_once("p=>q=>r", "=>"), Some(("p", "q=>r")));
    assert_eq!(split_once("pq", "=>"), None);
    assert_eq!(split_once("=>", "=>"), Some(("", "")));
    assert!(str_eq("¬a", "¬a"));
    assert!(!str_eq("a", "ab"));
    assert_eq!(negate("rain"), "¬rain");
    for c in ['\t', '\n', '\r', ' ', '\u{85}', '\u{a0}', '\u{1680}', '\u{2000}', '\u{200a}',
        '\u{2028}', '\u{2029}', '\u{202f}', '\u{205f}', '\u{3000}', 'a', '\u{200b}', '\u{feff}',
        '¬', '\u{1f}', '\u{180e}'] {
        assert_eq!(is_whitespace(c), c.is_whitespace());
    }
}

#[test]
fn contraction_by_entrenchment_removes_weaker_implications() {
    let mut eo = EntrenchmentOrder::new();
    eo.add_rank(set(&["a", "x=>a"]));
    eo.add_rank(set(&["y=>a", "b"]));
    let bb = base(&["a", "x=>a", "y=>a", "z=>a", "b"]);
    let c = contract_by_entrenchment(&bb, "a", &eo);
    assert_eq!(c.beliefs(), vec!["b", "y=>a", "z=>a"]);
}

#[test]
fn contraction_by_entrenchment_unranked_target() {
    let mut eo = EntrenchmentOrder::new();
    eo.add_rank(set(&["x=>a"]));
    let bb = base(&["a", "x=>a"]);
    let c = contract_by_entrenchment(&bb, "a", &eo);
    // "a" has no level, so it counts as level 0: it goes, and so does "x=>a".
    assert!(c.is_empty());
    let empty = EntrenchmentOrder::new();
    // Without levels "a" itself still goes; the unranked "x=>a" stays.
    assert_eq!(contract_by_entrenchment(&bb, "a", &empty).beliefs(), vec!["x=>a"]);
}

#[test]
fn entrenchment_levels_and_comparison() {
    let mut eo = EntrenchmentOrder::default();
    assert_eq!(eo.add_rank(set(&["a", "b"])), 0);
    assert_eq!(eo.add_rank(set(&["b", "c"])), 1);
    assert_eq!(eo.level("b"), Some(0));
    assert_eq!(eo.level("c"), Some(1));
    assert!(eo.at_least_as_entrenched("zzz", "a"));
    assert!(!eo.at_least_as_entrenched("zzz", "c"));
    assert_eq!(eo.total_beliefs(), 4);
    assert!(eo.remove("b"));
    assert_eq!(eo.level("b"), Some(1));
    assert_eq!(eo.total_beliefs(), 3);
    assert!(eo.remove("b"));
    assert_eq!(eo.level("b"), None);
    assert!(!eo.remove("b"));
    assert_eq!(eo.beliefs_at_level(1), vec!["c"]);
    assert_eq!(eo.beliefs_at_level(0), vec!["a"]);
    assert_eq!(eo.num_levels(), 2);
    assert_eq!(eo.least_entrenched().strs(), vec!["a"]);
    assert!(EntrenchmentOrder::new().least_entrenched().is_empty());
}

#[test]
fn entrenchment_clone_is_independent() {
    let mut eo = EntrenchmentOrder::new();
    eo.add_rank(set(&["a"]));
    let copy = eo.clone();
    eo.remove("a");
    assert_eq!(copy.level("a"), Some(0));
    assert_eq!(eo.level("a"), None);
}

#[test]
fn revision_forms_agree() {
    let eo = EntrenchmentOrder::new();
    let bb = base(&["¬p", "q", "¬¬p"]);
    let r1 = revise(&bb, "p", &eo);
    let r2 = revise_consistent(&bb, "p");
    let levi = expand(&contract(&bb, "¬p", &eo), "p".to_string());
    assert_eq!(r1.beliefs(), vec!["p", "q", "¬¬p"]);
    assert_eq!(r1.beliefs(), r2.beliefs());
    assert_eq!(r1.beliefs(), levi.beliefs());
    assert!(would_create_inconsistency(&bb, "p"));
    assert!(would_create_inconsistency(&bb, "¬p"));
    assert!(!would_create_inconsistency(&bb, "q"));
}

#[test]
fn contraction_laws_on_values() {
    let eo = EntrenchmentOrder::new();
    let bb = base(&["a", "b"]);
    let c = contract(&bb, "a", &eo);
    assert!(c.is_subset_of(&bb));
    assert!(!c.contains("a"));
    let back = expand(&c, "a".to_string());
    assert_eq!(back.beliefs(), bb.beliefs());
    let twice = contract(&c, "a", &eo);
    assert_eq!(twice.beliefs(), c.beliefs());
    let none = contract_multiple(&bb, &[], &eo);
    assert_eq!(none.beliefs(), bb.beliefs());
    let all = contract_multiple(&bb, &["b", "a", "zz"], &eo);
    assert!(all.is_empty());
}

#[test]
fn recovery_reports_new_beliefs_in_order() {
    let original = base(&["a", "b"]);
    let contracted = base(&["d", "c"]);
    let result = check_recovery(&original, &contracted, "a");
    assert!(!result.original_subset_of_recovered);
    assert_eq!(result.recovered.beliefs(), vec!["a", "c", "d"]);
    assert_eq!(result.new_beliefs, vec!["c".to_string(), "d".to_string()]);
}

#[test]
fn agm_verification_fields() {
    let eo = EntrenchmentOrder::new();
    let bb = base(&["a", "b"]);
    for p in ["a", "b", "z", ""] {
        let v = verify_agm_postulates(&bb, p, &eo);
        assert!(v.closure && v.inclusion && v.vacuity && v.success && v.recovery_holds);
        assert!(v.all_satisfied());
        assert!(!v.contracted.contains(p));
    }
    let v = verify_agm_postulates(&BeliefBase::new(), "a", &eo);
    assert!(v.all_satisfied());
    assert!(v.contracted.is_empty());
}

#[test]
fn set_operations() {
    let x = base(&["a", "b", "c"]);
    let y = base(&["c", "d"]);
    assert_eq!(x.union(&y).beliefs(), vec!["a", "b", "c", "d"]);
    assert_eq!(x.intersection(&y).beliefs(), vec!["c"]);
    assert!(BeliefBase::new().is_subset_of(&y));
    assert!(!y.is_subset_of(&x));
    assert!(x.intersection(&BeliefBase::default()).is_empty());
}

#[test]
fn base_clone_is_independent() {
    let mut bb = base(&["a"]);
    let copy = bb.clone();
    bb.add("b".to_string());
    assert_eq!(copy.beliefs(), vec!["a"]);
    assert_eq!(bb.beliefs(), vec!["a", "b"]);
}

#[test]
fn proposition_set_operations() {
    let mut s = PropositionSet::new();
    assert!(s.is_empty());
    assert!(s.insert("m".to_string()));
    assert!(s.insert("a".to_string()));
    assert!(!s.insert("m".to_string()));
    assert_eq!(s.items().clone(), vec!["a".to_string(), "m".to_string()]);
    assert!(s.remove("a"));
    assert!(!s.remove("a"));
    assert_eq!(s.len(), 1);
    let t = set(&["m", "n"]);
    assert!(s.is_subset(&t));
    assert_eq!(s.union(&t).strs(), vec!["m", "n"]);
    assert_eq!(t.intersection(&s).strs(), vec!["m"]);
}
