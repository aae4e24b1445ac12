use thbc::dc_gen::eval;
use thbc::tokenizer::Token;
use thbc::parser::Parser;
use thbc::tokenizer::Tokenizer;

#[test]
fn same_input_same_program() {
    assert_eq!(eval("(1+2)*3"), eval("(1+2)*3"));
    assert_eq!(eval("()"), eval("()"));
}

#[test]
fn subtraction_associates_left() {
    assert_eq!(
        Parser::parse(Tokenizer::new("1-2-3")),
        Parser::parse(Tokenizer::new("(1-2)-3"))
    );
    assert_eq!(Ok(String::from("1 2 - 3 - p")), eval("1-2-3"));
}

#[test]
fn division_associates_left() {
    assert_eq!(
        Parser::parse(Tokenizer::new("1/2/3")),
        Parser::parse(Tokenizer::new("(1/2)/3"))
    );
    assert_eq!(Ok(String::from("1 2 / 3 / p")), eval("1/2/3"));
}

#[test]
fn multiplication_binds_tighter_than_addition() {
    assert_eq!(Ok(String::from("1 2 3 * + p")), eval("1+2*3"));
}

#[test]
fn parentheses_override_precedence() {
    assert_eq!(Ok(String::from("1 2 + 3 * p")), eval("(1+2)*3"));
}

#[test]
fn mixed_levels_fold_left() {
    assert_eq!(Ok(String::from("1 2 3 * + 4 - p")), eval("1+2*3-4"));
    assert_eq!(Ok(String::from("1 2 * 3 + 4 5 * + p")), eval("1*2+3+4*5"));
}

#[test]
fn numerals_stay_in_source_order() {
    assert_eq!(Ok(String::from("4 3 + 2 1 * - p")), eval("4+3-2*1"));
}

#[test]
fn error_empty_input() {
    assert_eq!(Err(String::from("Unexpected end of input")), eval(""));
}

#[test]
fn error_empty_group() {
    assert_eq!(Err(String::from("Unexpected token: RightParen")), eval("()"));
}

#[test]
fn error_trailing_token() {
    assert_eq!(
        Err(String::from("Expected end of input, found Number(2.0)")),
        eval("1 2")
    );
}

#[test]
fn error_unclosed_group() {
    assert_eq!(Err(String::from("Unexpected end of input")), eval("(1"));
}

#[test]
fn error_operator_is_no_atom() {
    assert_eq!(Err(String::from("Unexpected token: Operator('+')")), eval("+"));
}

#[test]
fn first_error_propagates_before_trailing_check() {
    assert_eq!(Err(String::from("Unexpected token: Operator('+')")), eval("+ 1"));
    assert_eq!(Err(String::from("Unexpected token: RightParen")), eval("() 2"));
}

#[test]
fn error_mismatched_closing_token() {
    assert_eq!(
        Err(String::from("Expected: RightParen - Found Number(2.0)")),
        eval("(1 2")
    );
}

#[test]
fn error_power_has_no_production() {
    assert_eq!(
        Err(String::from("Expected end of input, found Operator('^')")),
        eval("1^2")
    );
    assert_eq!(Err(String::from("Unexpected token: Operator('^')")), eval("^"));
}

#[test]
fn error_register_has_no_production() {
    assert_eq!(Err(String::from("Unexpected token: Register('a')")), eval("a"));
}

#[test]
fn error_assignment_has_no_production() {
    assert_eq!(Err(String::from("Unexpected token: Assignment")), eval("="));
}

#[test]
fn error_unknown_character() {
    assert_eq!(Err(String::from("Unexpected token: Unknown('$')")), eval("$"));
}

#[test]
fn take_operator_reports_what_it_found() {
    assert_eq!(
        Err(String::from("Expected operator, found None")),
        Parser::from("").take_operator()
    );
    assert_eq!(
        Err(String::from("Expected operator, found Some(Number(1.0))")),
        Parser::from("1").take_operator()
    );
    assert_eq!(Ok('+'), Parser::from("+").take_operator());
}

#[test]
fn peek_operator_does_not_consume() {
    let mut p = Parser::from("*1");
    assert_eq!(Some('*'), p.peek_operator());
    assert_eq!(Some('*'), p.peek_operator());
}

#[test]
fn take_next_token_consumes_in_order() {
    let mut p = Parser::from("(1");
    assert_eq!(Ok(Token::LeftParen), p.take_next_token());
    let mut q = Parser::from("");
    assert_eq!(
        Err(String::from("Unexpected end of input")),
        q.take_next_token()
    );
}

#[test]
fn consume_token_requires_an_exact_match() {
    let mut p = Parser::from(")");
    assert_eq!(Ok(Token::RightParen), p.consume_token(Token::RightParen));
    let mut q = Parser::from("1");
    assert_eq!(
        Err(String::from("Expected: RightParen - Found Number(1.0)")),
        q.consume_token(Token::RightParen)
    );
}

#[test]
fn parse_tree_text_spells_the_structure() {
    let tree = Parser::parse(Tokenizer::new("1*2")).unwrap();
    assert_eq!(
        "BinOp { lhs: Num(1.0), op: '*', rhs: Num(2.0) }",
        tree.text()
    );
}
