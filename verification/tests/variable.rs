use std::str::FromStr;

use handybars::parse::{Error, ErrorKind, Location};
use handybars::{Variable, VariableInner};

#[test]
fn parsing_variable_from_str_errors_if_space_in_path() {
    let var = Variable::from_str("a .b");
    assert_eq!(var, Err(Error::new(Location::new(1, 0), ErrorKind::SpaceInPath)));
}

#[test]
fn variable_join_reuses_vec_on_either_side() {
    let v1 = Variable::single("v");
    let v2 = Variable::from_parts(vec!["t".to_string(), "t2".to_string()]);
    let v3 = v1.clone().join(v2.clone());
    assert_eq!(
        v3.inner,
        VariableInner::Segments(vec!["v".to_string(), "t".to_string(), "t2".to_string()])
    );
    let v3 = v2.join(v1);
    assert_eq!(
        v3.inner,
        VariableInner::Segments(vec!["t".to_string(), "t2".to_string(), "v".to_string()])
    );
}

#[test]
fn parsing_variable_from_str_creates_single_if_only_one_element() {
    let var: Variable = "el".parse().unwrap();
    assert_eq!(var.inner, VariableInner::Single("el".to_string()));
}

#[test]
fn parsing_variable_with_trailing_dot_fails() {
    assert_eq!(
        Variable::from_str("x."),
        Err(Error::new(Location::new(1, 0), ErrorKind::EmptyVariableSegment))
    );
}

#[test]
fn parsing_variable_with_multiple_variables_space_seperated_fails() {
    assert_eq!(
        Variable::from_str("a.b c.d"),
        Err(Error::new(Location::new(4, 0), ErrorKind::TooManyVariablesInBlock))
    );
}

#[test]
fn parsing_variable_from_path_works() {
    let var: Variable = "x.y".parse().unwrap();
    assert_eq!(var, Variable::from_parts(vec!["x".to_string(), "y".to_string()]));
}

#[test]
fn a_variable_constructed_with_one_sized_vec_becomes_single() {
    assert_eq!(Variable::from_parts(vec!["a".to_string()]), Variable::single("a"));
}

#[test]
fn variable_len_counts_segments_and_separators() {
    let s = "a.b.c";
    let var = Variable::from_str(s).unwrap();
    assert_eq!(var.len(), s.len());
}

#[test]
fn variable_display_joins_segments_with_dots() {
    let var = Variable::from_parts(vec!["a".to_string(), "b".to_string(), "c".to_string()]);
    assert_eq!(var.to_string(), "a.b.c");
}

#[test]
fn variable_display_then_parse_round_trips() {
    let var = Variable::from_parts(vec!["a".to_string(), "b".to_string(), "c".to_string()]);
    let shown = var.to_string();
    assert_eq!(shown, "a.b.c");
    assert_eq!(Variable::from_str(&shown), Ok(var));
}

#[test]
fn variable_into_owned_keeps_the_path() {
    let var = Variable::single("x");
    assert_eq!(var.clone().into_owned(), var);
}

#[test]
fn parsing_empty_input_fails_with_empty_segment_at_origin() {
    assert_eq!(
        Variable::from_str(""),
        Err(Error::new(Location::new(0, 0), ErrorKind::EmptyVariableSegment))
    );
}

#[test]
fn joining_two_singles_makes_a_dotted_path() {
    let var = Variable::single("a").join(Variable::single("b"));
    assert_eq!(var.to_string(), "a.b");
}
