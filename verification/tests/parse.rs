use specmc_base::parse::{
    dispatch, dispatch_case, ensure_tokens, Identifier, Literal, Parse, ParseError,
};
use specmc_base::tokenize::token_stack;

fn stack(items: &[&str]) -> Vec<String> {
    items.iter().map(|item| item.to_string()).collect()
}

fn read_float(text: &str) -> Option<u64> {
    text.parse::<f64>().ok().map(f64::to_bits)
}

fn no_float(_text: &str) -> Option<u64> {
    None
}

fn invalid(token: &str, error: &str) -> ParseError {
    ParseError::InvalidToken { token: token.to_string(), error: error.to_string() }
}

fn parse_as<T: Parse>(tokens: &mut Vec<String>) -> Result<T, ParseError> {
    T::parse(tokens)
}

#[test]
fn test_identifier() {
    let mut tokens: Vec<String> = token_stack("cool_identifier");

    assert_eq!(Identifier::parse(&mut tokens), Ok(Identifier("cool_identifier".to_string())));

    assert!(tokens.is_empty());
    assert_eq!(Identifier::parse(&mut tokens), Err(ParseError::EndOfFile));
}

#[test]
fn test_literal() {
    let mut tokens: Vec<String> = token_stack("true false 0 +42 -5 123.0 +8.5 -11.4 \"string\"");

    assert_eq!(Literal::parse_with(&mut tokens, read_float), Ok(Literal::Boolean(true)));
    assert_eq!(Literal::parse_with(&mut tokens, read_float), Ok(Literal::Boolean(false)));
    assert_eq!(Literal::parse_with(&mut tokens, read_float), Ok(Literal::Integer(0)));
    assert_eq!(Literal::parse_with(&mut tokens, read_float), Ok(Literal::Integer(42)));
    assert_eq!(Literal::parse_with(&mut tokens, read_float), Ok(Literal::Integer(-5)));
    assert_eq!(Literal::parse_with(&mut tokens, read_float), Ok(Literal::Float(123.0f64.to_bits())));
    assert_eq!(Literal::parse_with(&mut tokens, read_float), Ok(Literal::Float(8.5f64.to_bits())));
    assert_eq!(Literal::parse_with(&mut tokens, read_float), Ok(Literal::Float((-11.4f64).to_bits())));
    assert_eq!(Literal::parse_with(&mut tokens, read_float), Ok(Literal::String("string".to_string())));

    assert!(tokens.is_empty());
    assert_eq!(Literal::parse_with(&mut tokens, read_float), Err(ParseError::EndOfFile));
}

#[test]
fn identifier_with_underscore_and_digit() {
    let mut tokens = stack(&["rest", "_x9"]);
    assert_eq!(Identifier::parse(&mut tokens), Ok(Identifier("_x9".to_string())));
    assert_eq!(tokens, stack(&["rest"]));
}

#[test]
fn identifier_must_not_start_with_a_digit() {
    let mut tokens = stack(&["rest", "9x"]);
    assert_eq!(
        Identifier::parse(&mut tokens),
        Err(invalid(
            "9x",
            "Identifiers must not start with a number and can only contain letters, numbers, and underscores"
        ))
    );
    assert_eq!(tokens, stack(&["rest"]));
}

#[test]
fn identifier_must_hold_letters_digits_and_underscores() {
    let mut tokens = stack(&["a-b"]);
    assert_eq!(
        Identifier::parse(&mut tokens),
        Err(invalid("a-b", "Identifiers can only contain letters, numbers, and underscores"))
    );
    assert!(tokens.is_empty());
    let mut tokens = stack(&["caf\u{e9}"]);
    assert_eq!(
        Identifier::parse(&mut tokens),
        Err(invalid("caf\u{e9}", "Identifiers can only contain letters, numbers, and underscores"))
    );
    let mut tokens = stack(&["\u{e9}cole"]);
    assert_eq!(
        Identifier::parse(&mut tokens),
        Err(invalid(
            "\u{e9}cole",
            "Identifiers must not start with a number and can only contain letters, numbers, and underscores"
        ))
    );
}

#[test]
fn identifier_must_not_be_empty() {
    let mut tokens = stack(&["rest", ""]);
    assert_eq!(Identifier::parse(&mut tokens), Err(invalid("", "Empty identifier")));
    assert_eq!(tokens, stack(&["rest"]));
}

#[test]
fn identifier_on_an_empty_stack() {
    let mut tokens: Vec<String> = Vec::new();
    assert_eq!(Identifier::parse(&mut tokens), Err(ParseError::EndOfFile));
    assert!(tokens.is_empty());
}

#[test]
fn identifier_of_one_character() {
    let mut tokens = stack(&["Z", "_", "a"]);
    assert_eq!(Identifier::parse(&mut tokens), Ok(Identifier("a".to_string())));
    assert_eq!(Identifier::parse(&mut tokens), Ok(Identifier("_".to_string())));
    assert_eq!(Identifier::parse(&mut tokens), Ok(Identifier("Z".to_string())));
    assert!(tokens.is_empty());
}

#[test]
fn a_rule_is_parsed_through_the_trait() {
    let mut tokens = token_stack("first second");
    assert_eq!(parse_as::<Identifier>(&mut tokens), Ok(Identifier("first".to_string())));
    assert_eq!(tokens, stack(&["second"]));
}

#[test]
fn literal_that_is_no_number_is_put_back() {
    let mut tokens = stack(&["rest", "@@"]);
    assert_eq!(Literal::parse_with(&mut tokens, read_float), Err(invalid("@@", "Invalid literal")));
    assert_eq!(tokens, stack(&["rest", "@@"]));
    assert_eq!(tokens.last(), Some(&"@@".to_string()));
}

#[test]
fn quoted_tokens_are_joined_with_nothing_between() {
    let mut tokens = stack(&["rest", "\"", "b", "a", "\""]);
    assert_eq!(Literal::parse_with(&mut tokens, read_float), Ok(Literal::String("ab".to_string())));
    assert_eq!(tokens, stack(&["rest"]));
}

#[test]
fn quoted_text_of_a_tokenized_string() {
    let mut tokens = token_stack("\"hello  big world\" next");
    assert_eq!(Literal::parse_with(&mut tokens, read_float), Ok(Literal::String("hellobigworld".to_string())));
    assert_eq!(tokens, stack(&["next"]));
    let mut tokens = token_stack("\"\"");
    assert_eq!(Literal::parse_with(&mut tokens, read_float), Ok(Literal::String(String::new())));
    assert!(tokens.is_empty());
    let mut tokens = token_stack("\"true 1 (x)\"");
    assert_eq!(Literal::parse_with(&mut tokens, read_float), Ok(Literal::String("true1(x)".to_string())));
}

#[test]
fn quote_that_is_not_closed_uses_up_the_stack() {
    let mut tokens = stack(&["c", "b", "a", "\""]);
    assert_eq!(Literal::parse_with(&mut tokens, read_float), Err(ParseError::EndOfFile));
    assert!(tokens.is_empty());
    let mut tokens = stack(&["\""]);
    assert_eq!(Literal::parse_with(&mut tokens, read_float), Err(ParseError::EndOfFile));
    assert!(tokens.is_empty());
}

#[test]
fn bare_sign_is_joined_to_the_next_token() {
    let mut tokens = stack(&["rest", "5", "-"]);
    assert_eq!(Literal::parse_with(&mut tokens, read_float), Ok(Literal::Integer(-5)));
    assert_eq!(tokens, stack(&["rest"]));
    let mut tokens = stack(&["2.5", "+"]);
    assert_eq!(Literal::parse_with(&mut tokens, read_float), Ok(Literal::Float(2.5f64.to_bits())));
    assert!(tokens.is_empty());
    let mut tokens = token_stack("- 7");
    assert_eq!(Literal::parse_with(&mut tokens, read_float), Ok(Literal::Integer(-7)));
}

#[test]
fn bare_sign_at_the_end_of_the_stack() {
    let mut tokens = stack(&["+"]);
    assert_eq!(Literal::parse_with(&mut tokens, read_float), Err(ParseError::EndOfFile));
    assert!(tokens.is_empty());
}

#[test]
fn bare_sign_before_no_number_goes_back_as_one_token() {
    let mut tokens = stack(&["rest", "x", "-"]);
    assert_eq!(Literal::parse_with(&mut tokens, read_float), Err(invalid("-x", "Invalid literal")));
    assert_eq!(tokens, stack(&["rest", "-x"]));
}

#[test]
fn whole_numbers_in_other_bases() {
    let mut tokens = token_stack("0x10 0o17 0b101 1_000 -0x10 +0b11 0xabcd_FFFF");
    assert_eq!(Literal::parse_with(&mut tokens, read_float), Ok(Literal::Integer(16)));
    assert_eq!(Literal::parse_with(&mut tokens, read_float), Ok(Literal::Integer(15)));
    assert_eq!(Literal::parse_with(&mut tokens, read_float), Ok(Literal::Integer(5)));
    assert_eq!(Literal::parse_with(&mut tokens, read_float), Ok(Literal::Integer(1000)));
    assert_eq!(Literal::parse_with(&mut tokens, read_float), Ok(Literal::Integer(-16)));
    assert_eq!(Literal::parse_with(&mut tokens, read_float), Ok(Literal::Integer(3)));
    assert_eq!(Literal::parse_with(&mut tokens, read_float), Ok(Literal::Integer(2882404351)));
    assert!(tokens.is_empty());
}

#[test]
fn whole_number_is_tried_before_the_reader_of_floats() {
    let mut tokens = stack(&["7"]);
    assert_eq!(Literal::parse_with(&mut tokens, |_text: &str| Some(1)), Ok(Literal::Integer(7)));
    let mut tokens = stack(&["7.0"]);
    assert_eq!(Literal::parse_with(&mut tokens, |_text: &str| Some(1)), Ok(Literal::Float(1)));
}

#[test]
fn reader_of_floats_is_asked_about_the_joined_text() {
    let mut tokens = stack(&["1.5", "-"]);
    let answer = Literal::parse_with(&mut tokens, |text: &str| if text == "-1.5" { Some(9) } else { None });
    assert_eq!(answer, Ok(Literal::Float(9)));
}

#[test]
fn number_too_large_for_a_whole_number_is_a_float() {
    let mut tokens = stack(&["99999999999999999999999"]);
    assert_eq!(Literal::parse_with(&mut tokens, read_float), Ok(Literal::Float(1e23f64.to_bits())));
    let mut tokens = stack(&["99999999999999999999999"]);
    assert_eq!(
        Literal::parse_with(&mut tokens, no_float),
        Err(invalid("99999999999999999999999", "Invalid literal"))
    );
    assert_eq!(tokens, stack(&["99999999999999999999999"]));
}

#[test]
fn floats_in_other_forms() {
    let mut tokens = token_stack("1e3 .5 5. inf -inf 2E-2");
    assert_eq!(Literal::parse_with(&mut tokens, read_float), Ok(Literal::Float(1000.0f64.to_bits())));
    assert_eq!(Literal::parse_with(&mut tokens, read_float), Ok(Literal::Float(0.5f64.to_bits())));
    assert_eq!(Literal::parse_with(&mut tokens, read_float), Ok(Literal::Float(5.0f64.to_bits())));
    assert_eq!(Literal::parse_with(&mut tokens, read_float), Ok(Literal::Float(f64::INFINITY.to_bits())));
    assert_eq!(Literal::parse_with(&mut tokens, read_float), Ok(Literal::Float(f64::NEG_INFINITY.to_bits())));
    assert_eq!(Literal::parse_with(&mut tokens, read_float), Ok(Literal::Float(0.02f64.to_bits())));
    assert!(tokens.is_empty());
}

#[test]
fn literal_on_an_empty_stack() {
    let mut tokens: Vec<String> = Vec::new();
    assert_eq!(Literal::parse_with(&mut tokens, read_float), Err(ParseError::EndOfFile));
    assert!(tokens.is_empty());
}

#[test]
fn truth_values_are_matched_exactly() {
    let mut tokens = stack(&["True"]);
    assert_eq!(Literal::parse_with(&mut tokens, read_float), Err(invalid("True", "Invalid literal")));
    assert_eq!(tokens, stack(&["True"]));
    let mut tokens = stack(&["false", "true"]);
    assert_eq!(Literal::parse_with(&mut tokens, no_float), Ok(Literal::Boolean(true)));
    assert_eq!(Literal::parse_with(&mut tokens, no_float), Ok(Literal::Boolean(false)));
}

#[test]
fn number_is_decided_from_what_was_read() {
    let mut tokens = stack(&["rest"]);
    assert_eq!(Literal::number(&mut tokens, "12".to_string(), Some(12), None), Ok(Literal::Integer(12)));
    assert_eq!(tokens, stack(&["rest"]));
    assert_eq!(Literal::number(&mut tokens, "12".to_string(), Some(12), Some(4)), Ok(Literal::Integer(12)));
    assert_eq!(tokens, stack(&["rest"]));
    assert_eq!(Literal::number(&mut tokens, "1.5".to_string(), None, Some(4)), Ok(Literal::Float(4)));
    assert_eq!(tokens, stack(&["rest"]));
    assert_eq!(Literal::number(&mut tokens, "x".to_string(), None, None), Err(invalid("x", "Invalid literal")));
    assert_eq!(tokens, stack(&["rest", "x"]));
}

#[test]
fn expected_tokens_are_taken_in_order() {
    let mut tokens = token_stack("( ) rest");
    assert_eq!(ensure_tokens(&mut tokens, &["(", ")"]), Ok(()));
    assert_eq!(tokens, stack(&["rest"]));
    assert_eq!(ensure_tokens(&mut tokens, &[]), Ok(()));
    assert_eq!(tokens, stack(&["rest"]));
}

#[test]
fn expected_token_that_is_missing() {
    let mut tokens = token_stack("(");
    assert_eq!(ensure_tokens(&mut tokens, &["(", ")"]), Err(ParseError::EndOfFile));
    assert!(tokens.is_empty());
}

#[test]
fn expected_token_that_is_another() {
    let mut tokens = token_stack("( ] rest");
    assert_eq!(ensure_tokens(&mut tokens, &["(", ")", "rest"]), Err(invalid("]", "Expected )")));
    assert_eq!(tokens, stack(&["rest"]));
}

#[test]
fn dispatch_case_takes_the_token_of_a_case() {
    let mut tokens = token_stack("enum Name");
    assert_eq!(dispatch_case(&mut tokens, &["struct", "enum", "type"]), Some(1));
    assert_eq!(tokens, stack(&["Name"]));
}

#[test]
fn dispatch_case_leaves_the_token_of_no_case() {
    let mut tokens = token_stack("union Name");
    assert_eq!(dispatch_case(&mut tokens, &["struct", "enum", "type"]), None);
    assert_eq!(tokens, stack(&["Name", "union"]));
    assert_eq!(dispatch_case(&mut tokens, &[]), None);
    assert_eq!(tokens, stack(&["Name", "union"]));
}

#[test]
fn dispatch_case_picks_the_first_of_equal_cases() {
    let mut tokens = stack(&["a"]);
    assert_eq!(dispatch_case(&mut tokens, &["b", "a", "a"]), Some(1));
    assert!(tokens.is_empty());
}

#[test]
fn dispatch_case_reads_an_empty_stack_as_the_empty_text() {
    let mut tokens: Vec<String> = Vec::new();
    assert_eq!(dispatch_case(&mut tokens, &["a", "b"]), None);
    assert!(tokens.is_empty());
    assert_eq!(dispatch_case(&mut tokens, &["a", ""]), Some(1));
    assert!(tokens.is_empty());
}

#[test]
fn dispatch_calls_the_handler_of_the_case() {
    let mut tokens = token_stack("enum Name rest");
    let answer = dispatch(
        &mut tokens,
        &["struct", "enum"],
        |case: usize, tokens: &mut Vec<String>| Identifier::parse(tokens).map(|name| (case, name)),
        |_tokens: &mut Vec<String>| Err(ParseError::EndOfFile),
    );
    assert_eq!(answer, Ok((1, Identifier("Name".to_string()))));
    assert_eq!(tokens, stack(&["rest"]));
}

#[test]
fn dispatch_calls_the_default_and_takes_nothing() {
    let mut tokens = token_stack("union Name");
    let answer = dispatch(
        &mut tokens,
        &["struct", "enum"],
        |case: usize, _tokens: &mut Vec<String>| format!("case {case}"),
        |tokens: &mut Vec<String>| format!("default before {}", tokens[tokens.len() - 1]),
    );
    assert_eq!(answer, "default before union");
    assert_eq!(tokens, stack(&["Name", "union"]));
}

#[test]
fn dispatch_on_an_empty_stack() {
    let mut tokens: Vec<String> = Vec::new();
    let answer = dispatch(
        &mut tokens,
        &["a"],
        |case: usize, _tokens: &mut Vec<String>| Some(case),
        |_tokens: &mut Vec<String>| None,
    );
    assert_eq!(answer, None);
    let answer = dispatch(
        &mut tokens,
        &["a", ""],
        |case: usize, tokens: &mut Vec<String>| Some((case, tokens.len())),
        |_tokens: &mut Vec<String>| None,
    );
    assert_eq!(answer, Some((1, 0)));
}

#[test]
fn errors_as_lines_of_text() {
    assert_eq!(ParseError::EndOfFile.to_string(), "Unexpected EOF");
    assert_eq!(invalid("9x", "Invalid literal").to_string(), "Invalid token: Invalid literal: 9x");
    assert_eq!(invalid("", "").to_string(), "Invalid token: : ");
}
