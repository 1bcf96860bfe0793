//! End-to-end dispatcher behaviour over small traces.

use prototype::items::Quantifier;
use prototype::parser::{ParseError, Z3Parser1};
use prototype::rational::Rational;
use prototype::runner::{LineOutcome, ParseStatus};
use prototype::text::replace_all;

fn run(lines: &[&str]) -> Z3Parser1 {
    let mut p = Z3Parser1::new();
    let v: Vec<String> = lines.iter().map(|s| s.to_string()).collect();
    let r = p.main_parse_loop(&v);
    assert!(matches!(r, Ok(ParseStatus::Finished)), "parse failed: {:?}", r);
    p
}

#[test]
fn end_to_end_single_instantiation() {
    let mut p = run(&[
        "[mk-var] #2 0",
        "[mk-quant] #1 q1 1 #2",
        "[new-match] a1 #1 #p1 ; #2",
        "[instance] a1 #2 0",
        "[end-of-instance]",
    ]);
    // one finalized instantiation at line 4 owned by quantifier #1
    let inst = p.instantiations.get(4).expect("instantiation at line 4");
    assert_eq!(inst.line_no, 4);
    assert_eq!(inst.quant_id, "#1");
    assert_eq!(inst.match_line_no, 3);
    // the quantifier recorded the instance and one unit of cost
    let q = p.quantifiers.get("#1").expect("quantifier #1");
    assert!(q.instances.contains(&4));
    assert_eq!((q.cost.num, q.cost.den), (1, 1));
    // the blamed term had no producer, so a sentinel edge stands in
    assert!(p.dependencies.iter().any(|d| d.from == 0 && d.quant == "#1" && d.to == 4));
    // cost propagation leaves a dependency-free instantiation at cost one
    p.update_costs().expect("cost pass");
    let inst = p.instantiations.get(4).unwrap();
    assert_eq!((inst.cost.num, inst.cost.den), (1, 1));
}

#[test]
fn mk_quant_rejects_missing_operands() {
    let mut p = Z3Parser1::new();
    let l: Vec<String> = ["[mk-quant]", "#1", "q1", "0"].iter().map(|s| s.to_string()).collect();
    assert_eq!(p.mk_quant(&l), Err(ParseError::MalformedRecord));
}

#[test]
fn mk_quant_rejects_unknown_operand() {
    let mut p = Z3Parser1::new();
    let l: Vec<String> =
        ["[mk-quant]", "#1", "q1", "1", "#2"].iter().map(|s| s.to_string()).collect();
    assert_eq!(p.mk_quant(&l), Err(ParseError::ReferentialError));
}

#[test]
fn instance_rejects_unknown_fingerprint() {
    let mut p = Z3Parser1::new();
    let l: Vec<String> = ["[instance]", "1f", "#2", "0"].iter().map(|s| s.to_string()).collect();
    assert_eq!(p.instance(&l, 0), Err(ParseError::ReferentialError));
}

#[test]
fn new_match_rejects_bad_fingerprint() {
    let mut p = Z3Parser1::new();
    let l: Vec<String> =
        ["[new-match]", "zz!", "#1", "#p1", ";"].iter().map(|s| s.to_string()).collect();
    assert_eq!(p.new_match(&l, 0), Err(ParseError::MalformedRecord));
}

#[test]
fn end_of_instance_rejects_empty_stack() {
    let mut p = Z3Parser1::new();
    assert_eq!(p.end_of_instance(), Err(ParseError::MalformedRecord));
}

#[test]
fn unknown_tags_are_skipped() {
    let p = run(&["[something-new] 1 2 3", "[push]", "[pop]", "[eof]", "[mk-var] #9 0"]);
    // the record after [eof] was never consumed
    assert!(p.terms.get("#9").is_none());
}

#[test]
fn mk_quant_builds_term_and_placeholders() {
    let p = run(&["[mk-var] #2 0", "[mk-quant] #1 q1 2 #2"]);
    let t = p.terms.get("#1").expect("quantifier body term");
    assert_eq!(t.kind, "FORALL");
    assert_eq!(t.text, "FORALL[#1](qvar_0[2])");
    let q = p.quantifiers.get("#1").unwrap();
    assert_eq!(q.num_vars, 2);
    assert_eq!(
        q.vars,
        vec![("qvar_0".to_string(), String::new()), ("qvar_1".to_string(), String::new())]
    );
    // the operand gained a back-reference to the new node
    assert_eq!(p.terms.get("#2").unwrap().dep_term_ids, vec!["#1".to_string()]);
}

#[test]
fn attach_meaning_renames_term() {
    let p = run(&["[mk-var] #2 0", "[attach-meaning] #2 arith (- 17)"]);
    let t = p.terms.get("#2").unwrap();
    assert_eq!(t.theory, "arith");
    assert_eq!(t.name, "(-17)");
}

#[test]
fn attach_vars_extracts_both_grammars() {
    let p = run(&[
        "[mk-var] #2 0",
        "[mk-quant] #1 q1 1 #2",
        "[attach-var-names] #1 (;Int) (|x| ; |Bool|)",
    ]);
    let q = p.quantifiers.get("#1").unwrap();
    assert!(q.vars_set);
    assert_eq!(
        q.vars,
        vec![("qvar_0".to_string(), "Int".to_string()), ("x".to_string(), "Bool".to_string())]
    );
}

#[test]
fn quantifier_pretty_text_substitutes_names() {
    let p = run(&[
        "[mk-var] #2 0",
        "[mk-quant] #1 q1 1 #2",
        "[attach-var-names] #1 (|x| ; |Int|)",
    ]);
    let q = p.quantifiers.get("#1").unwrap();
    assert_eq!(q.pretty_text(&p.terms, 8), "FORALL x: Int(q1[1](x[2]))");
}

#[test]
fn quantifier_without_body_renders_as_name() {
    let p = Z3Parser1::new();
    let q = Quantifier {
        num_vars: 0,
        name: "arith".to_string(),
        term: "N/A".to_string(),
        cost: Rational { num: 0, den: 1 },
        instances: vec![],
        vars: vec![],
        vars_set: false,
    };
    assert_eq!(q.pretty_text(&p.terms, 8), "arith");
}

#[test]
fn positional_sort_scan_is_greedy() {
    let p = run(&["[mk-var] #2 0", "[mk-quant] #1 q1 1 #2", "[attach-var-names] #1 (;Ar(y))"]);
    let q = p.quantifiers.get("#1").unwrap();
    assert_eq!(q.vars, vec![("qvar_0".to_string(), "Ar(y)".to_string())]);
}

#[test]
fn unknown_tag_is_reported_as_skipped() {
    let mut p = Z3Parser1::new();
    assert!(matches!(p.parse_line("[novel-tag] 1", 0), Ok(LineOutcome::Skipped)));
    assert!(matches!(p.parse_line("[push]", 1), Ok(LineOutcome::Proceed)));
    assert!(matches!(p.parse_line("[eof]", 2), Ok(LineOutcome::Eof)));
}

#[test]
fn replace_all_scans_left_to_right() {
    assert_eq!(replace_all("qvar_10 qvar_1", "qvar_1", "x"), "x0 x");
    assert_eq!(replace_all("aaa", "aa", "b"), "ba");
    assert_eq!(replace_all("abc", "z", "y"), "abc");
}

#[test]
fn theory_discovery_registers_quantifier() {
    let p = run(&["[inst-discovered] theory-solving 1a arith ;", "[instance] 1a #r 0",
        "[end-of-instance]"]);
    let q = p.quantifiers.get("arith").expect("lazily registered origin");
    assert_eq!(q.name, "arith");
    assert!(q.instances.contains(&2));
}
