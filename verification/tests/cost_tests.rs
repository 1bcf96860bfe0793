//! Cost propagation: exact rational attribution over the finished tables.

use prototype::items::{Instantiation, Quantifier};
use prototype::parser::{ParseError, Z3Parser1};
use prototype::rational::Rational;
use prototype::runner::ParseStatus;

fn run(lines: &[&str]) -> Z3Parser1 {
    let mut p = Z3Parser1::new();
    let v: Vec<String> = lines.iter().map(|s| s.to_string()).collect();
    let r = p.main_parse_loop(&v);
    assert!(matches!(r, Ok(ParseStatus::Finished)), "parse failed: {:?}", r);
    p
}

#[test]
fn two_dependencies_each_get_half() {
    let mut p = run(&[
        "[mk-var] #2 0",
        "[mk-quant] #1 q1 1 #2",
        "[new-match] 1a #1 #p1 ;",
        "[instance] 1a #r1 0",
        "[mk-var] #3 0",
        "[attach-enode] #3 1",
        "[end-of-instance]",
        "[new-match] 1b #1 #p1 ;",
        "[instance] 1b #r2 0",
        "[mk-var] #4 0",
        "[attach-enode] #4 1",
        "[end-of-instance]",
        "[new-match] 1c #1 #p1 ; #3 #4",
        "[instance] 1c #r3 0",
        "[end-of-instance]",
    ]);
    // the last instantiation depends on the two producers
    let top = p.instantiations.get(14).unwrap();
    assert_eq!(top.dep_instantiations, vec![4, 9]);
    p.update_costs().expect("cost pass");
    // each producer got exactly half of the top instantiation's unit cost
    let half_plus_one = Rational { num: 3, den: 2 };
    let a = p.instantiations.get(4).unwrap().cost;
    let b = p.instantiations.get(9).unwrap().cost;
    assert!(a.same(half_plus_one));
    assert!(b.same(half_plus_one));
    // the top one is a source of the split, its own cost stays at one
    assert!(p.instantiations.get(14).unwrap().cost.same(Rational { num: 1, den: 1 }));
    // the quantifier holds its three firings plus the two half shares
    let q = p.quantifiers.get("#1").unwrap();
    assert!(q.cost.same(Rational { num: 4, den: 1 }));
}

#[test]
fn rational_half_split_is_exact() {
    let c = Rational { num: 1, den: 1 };
    let half = c.div_int(2).unwrap();
    assert_eq!((half.num, half.den), (1, 2));
    let back = half.add(half).unwrap();
    assert!(back.same(c));
}

#[test]
fn rational_add_mixed_denominators() {
    let a = Rational { num: 1, den: 1 };
    let b = Rational { num: 1, den: 2 };
    let s = a.add(b).unwrap();
    assert_eq!((s.num, s.den), (3, 2));
}

#[test]
fn rational_overflow_is_reported() {
    let big = Rational { num: u64::MAX, den: 1 };
    assert!(big.add(Rational { num: 1, den: 1 }).is_none());
    assert!(big.div_int(2).is_some());
    let deep = Rational { num: 1, den: u64::MAX };
    assert!(deep.div_int(2).is_none());
}

#[test]
fn cost_overflow_is_fatal() {
    // an instantiation whose cost cannot be added to itself any more
    let mut p = Z3Parser1::new();
    let inst = Instantiation {
        line_no: 1,
        match_line_no: 1,
        fingerprint: 0,
        resulting_term: String::new(),
        z3_gen: 0,
        cost: Rational { num: u64::MAX - 1, den: u64::MAX },
        quant_id: "q".to_string(),
        pattern_id: String::new(),
        yields_terms: vec![],
        bound_terms: vec![],
        blamed_terms: vec![],
        equality_expls: vec![],
        dep_instantiations: vec![1],
    };
    p.instantiations.insert_at_end(1, inst);
    p.quantifiers.insert(
        "q",
        Quantifier {
            num_vars: 0,
            name: "q".to_string(),
            term: String::new(),
            cost: Rational { num: 0, den: 1 },
            instances: vec![],
            vars: vec![],
            vars_set: false,
        },
    );
    assert_eq!(p.update_costs(), Err(ParseError::CostOverflow));
}

#[test]
fn missing_quantifier_is_referential() {
    let mut p = Z3Parser1::new();
    let inst = Instantiation {
        line_no: 1,
        match_line_no: 1,
        fingerprint: 0,
        resulting_term: String::new(),
        z3_gen: 0,
        cost: Rational { num: 1, den: 1 },
        quant_id: "ghostly".to_string(),
        pattern_id: String::new(),
        yields_terms: vec![],
        bound_terms: vec![],
        blamed_terms: vec![],
        equality_expls: vec![],
        dep_instantiations: vec![1],
    };
    p.instantiations.insert_at_end(1, inst);
    assert_eq!(p.update_costs(), Err(ParseError::ReferentialError));
}

#[test]
fn chain_propagates_backwards() {
    // one producer, one consumer: the producer ends at 1 + 1 = 2
    let mut p = run(&[
        "[mk-var] #2 0",
        "[mk-quant] #1 q1 1 #2",
        "[new-match] 1a #1 #p1 ;",
        "[instance] 1a #r1 0",
        "[mk-var] #3 0",
        "[attach-enode] #3 1",
        "[end-of-instance]",
        "[new-match] 1b #1 #p1 ; #3",
        "[instance] 1b #r2 0",
        "[end-of-instance]",
    ]);
    p.update_costs().expect("cost pass");
    assert!(p.instantiations.get(4).unwrap().cost.same(Rational { num: 2, den: 1 }));
}
