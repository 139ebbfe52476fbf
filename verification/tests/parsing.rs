use handybars::parse::{
    tokenize, try_parse_variable_segment, parse_template_inner, Error, ErrorKind, Location, Token,
    Tokenize,
};
use handybars::Variable;

#[test]
fn parse_template_inner_errors_with_space_in_path() {
    let r = parse_template_inner("x .y}}").unwrap();
    assert_eq!(r, Err(Error::new(Location::new(1, 0), ErrorKind::SpaceInPath)));
}

#[test]
fn parsing_tokens_with_space_before_template_works() {
    let tokens = tokenize("some {{ text }}").unwrap();
    assert_eq!(
        tokens,
        vec![Token::Str("some ".to_string()), Token::Variable(Variable::single("text"))]
    );
}

#[test]
fn invalid_template_causes_tokenize_to_halt() {
    let tokens = tokenize("{{invalid. }} some text");
    assert_eq!(tokens, Err(Error::new(Location::new(9, 0), ErrorKind::EmptyVariableSegment)));
}

#[test]
fn parsing_template_works_without_spaces() {
    let tokens = tokenize("{{test}}");
    assert_eq!(tokens, Ok(vec![Token::Variable(Variable::single("test"))]));
}

#[test]
fn parse_segment_stops_on_non_alphanumeric_chars() {
    let r = try_parse_variable_segment("x}");
    assert_eq!(r, Ok("x"));
}

#[test]
fn parse_segment_strips_trailing_spaces_in_singleton_case() {
    let r = try_parse_variable_segment("x ");
    assert_eq!(r, Ok("x"));
}

#[test]
fn parse_segment_parses_no_separator_case() {
    let input = "seg";
    let r = try_parse_variable_segment(input);
    assert_eq!(r, Ok(input))
}

#[test]
fn parse_segment_parses_with_seperator_returns_up_to_seperator() {
    let input = "seg.part.2";
    let r = try_parse_variable_segment(input);
    assert_eq!(r, Ok("seg"))
}

#[test]
fn parse_with_equals_works() {
    let s = "SOME_VAR={{ t1 }}\nexport THING=$SOME_VAR";
    let tkns = tokenize(s).unwrap();
    assert_eq!(
        tkns.as_slice(),
        &[
            Token::Str("SOME_VAR=".to_string()),
            Token::Variable(Variable::single("t1")),
            Token::Str("\nexport THING=$SOME_VAR".to_string())
        ]
    )
}

#[test]
fn parse_template_inner_parses_the_start_of_a_template() {
    let s = "some.txt }}h1";
    let (var, offset) = parse_template_inner(s).unwrap().unwrap();
    assert_eq!(offset, s.len() - 2, "stops at template end");
    assert_eq!(
        &var,
        &Variable::from_parts(vec!["some".to_string(), "txt".to_string()]),
        "strips spaces"
    );
}

#[test]
fn parsing_template_extracts_engine_samples() {
    let parsed = tokenize("{{ var }}etc").unwrap();
    assert_eq!(
        parsed.as_slice(),
        &[Token::Variable(Variable::single("var")), Token::Str("etc".to_string())]
    );
}

#[test]
fn location_adds_correctly() {
    assert_eq!(
        Location { line: 2, col: 0 }.add(Location { line: 1, col: 3 }),
        Location { line: 3, col: 3 }
    );
}

#[test]
fn location_subtracts_correctly() {
    assert_eq!(
        Location { line: 5, col: 3 }.sub(Location { line: 1, col: 2 }),
        Location { line: 4, col: 1 }
    );
}

#[test]
fn tokenizer_yields_nothing_after_an_error() {
    let mut tokens = Tokenize::new("{{ i.am.invalid. }} I would appear if not for the error");
    assert!(matches!(tokens.next(), Some(Err(_))));
    assert_eq!(tokens.next(), None);
}

#[test]
fn tokenizer_yields_literal_then_variable() {
    let mut tokens = Tokenize::new("some {{ text }}");
    assert_eq!(tokens.next(), Some(Ok(Token::Str("some ".to_string()))));
    assert_eq!(tokens.next(), Some(Ok(Token::Variable(Variable::single("text")))));
    assert_eq!(tokens.next(), None);
}

#[test]
fn empty_placeholder_falls_through_as_literal_text() {
    let tokens = tokenize("{{}}");
    assert_eq!(tokens, Ok(vec![Token::Str("{{}}".to_string())]));
}

#[test]
fn unclosed_placeholder_falls_through_as_literal_text() {
    let tokens = tokenize("ab{{cd");
    assert_eq!(tokens, Ok(vec![Token::Str("ab{{cd".to_string())]));
}

#[test]
fn tokenize_error_locations_count_rows_and_columns() {
    let tokens = tokenize("ab\n{{x. }}");
    assert_eq!(tokens, Err(Error::new(Location::new(3, 1), ErrorKind::EmptyVariableSegment)));
}

#[test]
fn error_display_counts_from_one() {
    let e = Error::new(Location::new(2, 1), ErrorKind::SpaceInPath);
    assert_eq!(e.display_string(), "space in variable path at line 2 column 3");
}

#[test]
fn invalid_character_message_shows_the_byte() {
    let k = ErrorKind::InvalidCharacter { token: 125 };
    assert_eq!(k.message(), "invalid character: '125'");
}

#[test]
fn location_display_names_row_and_column() {
    let l = Location::new(3, 1);
    assert_eq!(l.display_string(), "(row: 1, column: 3)");
}

#[test]
fn error_accessors_return_kind_and_location() {
    let e = Error::new(Location::new(4, 2), ErrorKind::NewlineInVariableSegment);
    assert_eq!(e.kind(), &ErrorKind::NewlineInVariableSegment);
    assert_eq!(e.location(), Location::new(4, 2));
    assert_eq!(Location::zero(), Location::new(0, 0));
}
