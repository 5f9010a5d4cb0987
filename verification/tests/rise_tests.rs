use miniegg_with_slots::lang::AppliedId;
use miniegg_with_slots::rise::{
    app_pat, beta, eta, fission_re1, let_pat, map_fission, pvar_pat, reduction_re, rewrite_rise,
    Condition, ENodeOrPVar, Pattern, RecExpr2, RiseENode, Subst,
};
use miniegg_with_slots::slot::{Id, Slot};
use miniegg_with_slots::slotmap::SlotMap;

fn count_nodes(e: &RecExpr2) -> usize {
    1 + e.children.iter().map(count_nodes).sum::<usize>()
}

fn count_pattern_nodes(p: &Pattern) -> usize {
    1 + p.children.iter().map(count_pattern_nodes).sum::<usize>()
}

fn symbols(e: &RecExpr2, out: &mut Vec<String>) {
    if let RiseENode::Symbol(s) = &e.node {
        out.push(s.clone());
    }
    for c in &e.children {
        symbols(c, out);
    }
}

#[test]
fn beta_rewrites_an_applied_lambda_into_a_let() {
    let r = beta();
    assert_eq!(r.searcher, app_pat(
        miniegg_with_slots::rise::lam_pat(Slot(1), pvar_pat("?b")),
        pvar_pat("?t"),
    ));
    assert_eq!(r.applier, let_pat(Slot(1), pvar_pat("?t"), pvar_pat("?b")));
    assert_eq!(r.condition, Condition::Always);
}

#[test]
fn rewrite_rise_lists_the_rules_in_order() {
    let rules = rewrite_rise();
    assert_eq!(rules.len(), 12);
    assert_eq!(rules[0].searcher, beta().searcher);
    assert_eq!(rules[1].applier, eta().applier);
    assert_eq!(rules[8].condition, map_fission().condition);
    assert_eq!(count_pattern_nodes(&rules[11].searcher), 11);
}

#[test]
fn eta_condition_reads_the_slots_of_the_match() {
    let r = eta();
    let mut subst = Subst::new();
    subst.insert("?b", AppliedId::new(Id(4), SlotMap::from_pairs(&[(Slot(0), Slot(2))])));
    assert!(r.condition.holds(&subst));
    subst.insert("?b", AppliedId::new(Id(4), SlotMap::from_pairs(&[(Slot(0), Slot(1))])));
    assert!(!r.condition.holds(&subst));
}

#[test]
fn either_condition_holds_if_one_side_exposes_the_slot() {
    let c = Condition::SlotFreeInEither("?a".to_string(), "?b".to_string(), Slot(1));
    let mut subst = Subst::new();
    subst.insert("?a", AppliedId::new(Id(1), SlotMap::new()));
    subst.insert("?b", AppliedId::new(Id(2), SlotMap::from_pairs(&[(Slot(0), Slot(1))])));
    assert!(c.holds(&subst));
    let mut other = Subst::new();
    other.insert("?a", AppliedId::new(Id(1), SlotMap::new()));
    other.insert("?b", AppliedId::new(Id(2), SlotMap::new()));
    assert!(!c.holds(&other));
    assert!(Condition::SlotFreeIn("?b".to_string(), Slot(1)).holds(&subst));
    assert!(Condition::Always.holds(&other));
}

#[test]
fn subst_get_takes_the_latest_binding() {
    let mut subst = Subst::new();
    subst.insert("?x", AppliedId::new(Id(1), SlotMap::new()));
    subst.insert("?x", AppliedId::new(Id(2), SlotMap::new()));
    assert_eq!(subst.get(&"?x".to_string()).map(|a| a.id), Some(Id(2)));
    assert!(subst.get(&"?y".to_string()).is_none());
}

#[test]
fn reduction_expression_has_the_expected_shape() {
    let e = reduction_re();
    assert_eq!(count_nodes(&e), 41);
    assert!(matches!(e.node, RiseENode::App(_, _)));
    assert!(matches!(e.children[0].node, RiseENode::Lam(Slot(0), _)));
    assert!(matches!(e.children[1].node, RiseENode::Lam(Slot(3), _)));
}

#[test]
fn fission_expression_names_its_symbols_in_order() {
    let e = fission_re1();
    let mut names = Vec::new();
    symbols(&e, &mut names);
    assert_eq!(names, vec!["map", "f5", "f4", "f3", "f2", "f1"]);
    assert_eq!(count_nodes(&e), 14);
}

#[test]
fn pattern_variable_nodes_carry_their_names() {
    let p = pvar_pat("?q");
    assert_eq!(p.node, ENodeOrPVar::PVar("?q".to_string()));
    assert!(p.children.is_empty());
}
