//! Entity store behaviour: round trips, overwrites and iteration order.

use prototype::items::Term;
use prototype::store::TwoDMap;

fn term(id: usize, name: &str) -> Term {
    Term {
        kind: name.to_string(),
        id,
        name: name.to_string(),
        theory: String::new(),
        child_ids: vec![],
        dep_term_ids: vec![],
        resp_inst_line_no: None,
        text: name.to_string(),
    }
}

#[test]
fn store_round_trip() {
    let mut m: TwoDMap<Term> = TwoDMap::new();
    m.insert("#5", term(5, "five"));
    let got = m.get("#5").expect("inserted entity must be found");
    assert_eq!(got.name, "five");
    assert_eq!(got.id, 5);
}

#[test]
fn store_unknown_id_is_absent() {
    let mut m: TwoDMap<Term> = TwoDMap::new();
    m.insert("#5", term(5, "five"));
    assert!(m.get("#6").is_none());
    assert!(m.get("other#5").is_none());
}

#[test]
fn store_insert_overwrites() {
    let mut m: TwoDMap<Term> = TwoDMap::new();
    m.insert("#5", term(5, "old"));
    m.insert("#5", term(5, "new"));
    assert_eq!(m.get("#5").unwrap().name, "new");
}

#[test]
fn store_get_mut_updates_in_place() {
    let mut m: TwoDMap<Term> = TwoDMap::new();
    m.insert("ns#1", term(1, "one"));
    if let Some(t) = m.get_mut("ns#1") {
        t.theory = "arith".to_string();
    }
    assert_eq!(m.get("ns#1").unwrap().theory, "arith");
}

#[test]
fn store_namespaces_are_separate() {
    let mut m: TwoDMap<Term> = TwoDMap::new();
    m.insert("a#1", term(1, "a1"));
    m.insert("b#1", term(1, "b1"));
    assert_eq!(m.get("a#1").unwrap().name, "a1");
    assert_eq!(m.get("b#1").unwrap().name, "b1");
    assert!(m.contains_namespace(&"a".to_string()));
    assert!(!m.contains_namespace(&"c".to_string()));
}

#[test]
fn store_iteration_is_ordinal_ascending() {
    let mut m: TwoDMap<Term> = TwoDMap::new();
    m.insert("#9", term(9, "nine"));
    m.insert("#2", term(2, "two"));
    m.insert("#5", term(5, "five"));
    assert_eq!(m.namespace_count(), 1);
    let items = m.entries_at(0);
    let ordinals: Vec<usize> = items.iter().map(|p| p.0).collect();
    assert_eq!(ordinals, vec![2, 5, 9]);
}

#[test]
fn store_normalizes_malformed_ordinals_to_zero() {
    let mut m: TwoDMap<Term> = TwoDMap::new();
    m.insert("q#oops", term(0, "zero"));
    assert_eq!(m.get("q#0").unwrap().name, "zero");
    assert_eq!(m.get("q#nonsense").unwrap().name, "zero");
}
