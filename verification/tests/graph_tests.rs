//! Ranking and filtering the finished tables, and text utilities.

use prototype::graph::{
    filter_dependencies_by_cost, filter_instantiations_by_cost, sort_instantiations_by_cost,
};
use prototype::items::{DepType, Dependency, Instantiation};
use prototype::rational::Rational;
use prototype::render::add_link_to_svg;
use prototype::items::Term;
use prototype::store::TwoDMap;
use prototype::text::{parse_hex_u64, split_line, to_decimal};

fn inst(line: usize, num: u64, den: u64) -> Instantiation {
    Instantiation {
        line_no: line,
        match_line_no: line,
        fingerprint: 0,
        resulting_term: String::new(),
        z3_gen: 0,
        cost: Rational { num, den },
        quant_id: String::new(),
        pattern_id: String::new(),
        yields_terms: vec![],
        bound_terms: vec![],
        blamed_terms: vec![],
        equality_expls: vec![],
        dep_instantiations: vec![],
    }
}

fn dep(from: usize, to: usize) -> Dependency {
    Dependency {
        from,
        to,
        blamed: String::new(),
        dep_type: DepType::Term,
        quant: String::new(),
    }
}

#[test]
fn sort_is_descending_and_stable() {
    // lines 1..4 with costs 1/2, 3/1, 1/2, 3/1: ties keep line order
    let v = vec![inst(1, 1, 2), inst(2, 3, 1), inst(3, 1, 2), inst(4, 6, 2)];
    let sorted = sort_instantiations_by_cost(&v);
    let lines: Vec<usize> = sorted.iter().map(|i| i.line_no).collect();
    assert_eq!(lines, vec![2, 4, 1, 3]);
}

#[test]
fn filter_keeps_top_costs() {
    let v = vec![inst(1, 1, 2), inst(2, 3, 1), inst(3, 5, 1)];
    let top = filter_instantiations_by_cost(&v, 2);
    let lines: Vec<usize> = top.iter().map(|i| i.line_no).collect();
    assert_eq!(lines, vec![3, 2]);
    // asking for more than there are yields everything
    assert_eq!(filter_instantiations_by_cost(&v, 10).len(), 3);
}

#[test]
fn dependency_filter_restricts_to_given_targets() {
    let insts = vec![inst(4, 1, 1), inst(9, 1, 1)];
    let deps = vec![dep(0, 4), dep(4, 9), dep(4, 12), dep(0, 9)];
    let kept = filter_dependencies_by_cost(&insts, &deps);
    let pairs: Vec<(usize, usize)> = kept.iter().map(|d| (d.from, d.to)).collect();
    assert_eq!(pairs, vec![(0, 4), (4, 9), (0, 9)]);
}

#[test]
fn split_preserves_empty_tokens() {
    let toks = split_line("[a] b  c");
    assert_eq!(toks, vec!["[a]", "b", "", "c"]);
    assert_eq!(split_line(""), vec![""]);
}

#[test]
fn hex_fingerprints_parse_exactly() {
    assert_eq!(parse_hex_u64("1a"), Some(26));
    assert_eq!(parse_hex_u64("0"), Some(0));
    assert_eq!(parse_hex_u64("FFFFFFFFFFFFFFFF"), Some(u64::MAX));
    assert_eq!(parse_hex_u64("10000000000000000"), None);
    assert_eq!(parse_hex_u64("xyz"), None);
    assert_eq!(parse_hex_u64(""), None);
}

#[test]
fn decimal_rendering() {
    assert_eq!(to_decimal(0), "0");
    assert_eq!(to_decimal(7), "7");
    assert_eq!(to_decimal(1203), "1203");
}

#[test]
fn svg_link_is_injected_at_tenth_line() {
    let lines: Vec<String> = (0..12).map(|i| format!("line{}", i)).collect();
    let out = add_link_to_svg(&lines);
    assert_eq!(out.len(), 13);
    assert!(out[9].starts_with("<link"));
    assert_eq!(out[8], "line8");
    assert_eq!(out[10], "line9");
    // a short image is left untouched
    let short: Vec<String> = (0..5).map(|i| format!("l{}", i)).collect();
    assert_eq!(add_link_to_svg(&short), short);
}

#[test]
fn pretty_text_renders_operands() {
    let mut m: TwoDMap<Term> = TwoDMap::new();
    m.insert(
        "#1",
        Term {
            kind: "f".to_string(),
            id: 1,
            name: "f".to_string(),
            theory: String::new(),
            child_ids: vec!["#2".to_string()],
            dep_term_ids: vec![],
            resp_inst_line_no: None,
            text: String::new(),
        },
    );
    m.insert(
        "#2",
        Term {
            kind: "x".to_string(),
            id: 2,
            name: "x".to_string(),
            theory: String::new(),
            child_ids: vec![],
            dep_term_ids: vec![],
            resp_inst_line_no: None,
            text: String::new(),
        },
    );
    let root = m.get("#1").unwrap();
    assert_eq!(root.pretty_text(&m, 8), "f[1](x[2])");
    let leaf = m.get("#2").unwrap();
    assert_eq!(leaf.pretty_text(&m, 8), "x[2]");
}
