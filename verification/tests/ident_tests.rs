//! Identifier parsing behaviour.

use prototype::ident::parse_id;

#[test]
fn parse_id_namespace_and_ordinal() {
    assert_eq!(parse_id("ns#7"), ("ns".to_string(), 7));
}

#[test]
fn parse_id_without_ordinal_defaults_to_zero() {
    assert_eq!(parse_id("x"), ("x".to_string(), 0));
}

#[test]
fn parse_id_empty_namespace() {
    assert_eq!(parse_id("#12"), ("".to_string(), 12));
}

#[test]
fn parse_id_invalid_ordinal_defaults_to_zero() {
    assert_eq!(parse_id("a#b"), ("a".to_string(), 0));
    assert_eq!(parse_id("a#"), ("a".to_string(), 0));
    assert_eq!(parse_id("a#1x"), ("a".to_string(), 0));
}

#[test]
fn parse_id_overflowing_ordinal_defaults_to_zero() {
    assert_eq!(parse_id("a#99999999999999999999999"), ("a".to_string(), 0));
}

#[test]
fn parse_id_plus_sign_accepted() {
    assert_eq!(parse_id("a#+5"), ("a".to_string(), 5));
}

#[test]
fn parse_id_takes_first_two_segments() {
    assert_eq!(parse_id("a#7#9"), ("a".to_string(), 7));
}
