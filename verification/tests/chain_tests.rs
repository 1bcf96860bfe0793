//! The equality-justification chain resolver.

use prototype::eqchain::{get_all_equality_expls, EqChainResult};
use prototype::items::EqualityExpl;
use prototype::parser::Z3Parser1;
use prototype::runner::ParseStatus;

fn run(lines: &[&str]) -> Z3Parser1 {
    let mut p = Z3Parser1::new();
    let v: Vec<String> = lines.iter().map(|s| s.to_string()).collect();
    let r = p.main_parse_loop(&v);
    assert!(matches!(r, Ok(ParseStatus::Finished)), "parse failed: {:?}", r);
    p
}

fn step_ids(chain: &[EqualityExpl]) -> Vec<String> {
    chain
        .iter()
        .map(|e| match e {
            EqualityExpl::Root { id } => id.clone(),
            EqualityExpl::Literal { from, .. } => from.clone(),
            EqualityExpl::Congruence { id, .. } => id.clone(),
            EqualityExpl::Theory { id, .. } => id.clone(),
            EqualityExpl::Axiom { id, .. } => id.clone(),
            EqualityExpl::Unknown { id, .. } => id.clone(),
        })
        .collect()
}

#[test]
fn literal_chain_in_order() {
    // two literal steps: a = c and c = b
    let p = run(&["[eq-expl] #a lit #x ; #c", "[eq-expl] #c lit #y ; #b"]);
    match get_all_equality_expls(&p.eq_expls, &"#a".to_string(), &"#b".to_string()) {
        EqChainResult::Chain(c) => {
            assert_eq!(step_ids(&c), vec!["#a".to_string(), "#c".to_string()]);
        }
        EqChainResult::Inconsistent(..) => panic!("chain expected"),
    }
}

#[test]
fn same_endpoints_give_empty_chain() {
    let p = run(&["[eq-expl] #a lit #x ; #c"]);
    match get_all_equality_expls(&p.eq_expls, &"#a".to_string(), &"#a".to_string()) {
        EqChainResult::Chain(c) => assert!(c.is_empty()),
        EqChainResult::Inconsistent(..) => panic!("chain expected"),
    }
}

#[test]
fn splice_through_shared_root() {
    // both endpoints walk to the same root r: a -> r, b -> r
    let p = run(&[
        "[eq-expl] #a lit #x ; #r",
        "[eq-expl] #b lit #y ; #r",
        "[eq-expl] #r root",
    ]);
    match get_all_equality_expls(&p.eq_expls, &"#a".to_string(), &"#b".to_string()) {
        EqChainResult::Chain(c) => {
            // forward from a (ending at the root), then backward from b with
            // the duplicate root dropped
            assert_eq!(step_ids(&c), vec!["#a".to_string(), "#r".to_string(), "#b".to_string()]);
        }
        EqChainResult::Inconsistent(..) => panic!("chain expected"),
    }
}

#[test]
fn unconnected_walks_report_inconsistency() {
    // the second walk stops on a missing step: nothing proves a = b
    let p = run(&["[eq-expl] #a lit #x ; #q"]);
    match get_all_equality_expls(&p.eq_expls, &"#a".to_string(), &"#b".to_string()) {
        EqChainResult::Chain(_) => panic!("inconsistency expected"),
        EqChainResult::Inconsistent(fwd, bwd) => {
            assert_eq!(step_ids(&fwd), vec!["#a".to_string()]);
            assert!(bwd.is_empty());
        }
    }
}

#[test]
fn cyclic_justifications_do_not_hang() {
    let p = run(&["[eq-expl] #a lit #x ; #b2", "[eq-expl] #b2 lit #y ; #a"]);
    match get_all_equality_expls(&p.eq_expls, &"#a".to_string(), &"#q".to_string()) {
        EqChainResult::Chain(_) => panic!("inconsistency expected"),
        EqChainResult::Inconsistent(..) => {}
    }
}

#[test]
fn congruence_records_argument_pairs() {
    let p = run(&["[eq-expl] #a cg (#1 #2) ; #b"]);
    match p.eq_expls.get(&"#a".to_string()) {
        Some(EqualityExpl::Congruence { id, arg_eqs, to }) => {
            assert_eq!(id, "#a");
            assert_eq!(arg_eqs, &vec![("#1".to_string(), "#2".to_string())]);
            assert_eq!(to, "#b");
        }
        other => panic!("congruence expected, got {:?}", other),
    }
}
