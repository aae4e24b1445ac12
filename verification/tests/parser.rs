use thbc::numeral::Numeral;
use thbc::parser::binop;
use thbc::parser::num;
use thbc::parser::Expr;
use thbc::parser::Parser;
use thbc::tokenizer::Token;
use thbc::tokenizer::Tokenizer;

/// Builds the canonical numeral of a numeric literal.
fn numeral(s: &str) -> Numeral {
    match Tokenizer::new(s).next() {
        Some(Token::Number(n)) => n,
        _ => panic!("not a numeral"),
    }
}

/// A numeric leaf built from a literal.
fn leaf(s: &str) -> Expr {
    num(numeral(s))
}

#[test]
fn parse_atom_number() {
    let res = Parser::parse(Tokenizer::new("1")).unwrap();
    assert_eq!(leaf("1"), res);
}

#[test]
fn parse_atom_parens() {
    let res = Parser::parse(Tokenizer::new("(1)")).unwrap();
    assert_eq!(leaf("1"), res);
}

#[test]
fn parse_err_did_not_consume_whole_input() {
    let res = Parser::parse(Tokenizer::new("1 2"));
    assert_eq!(
        Err(String::from("Expected end of input, found Number(2.0)")),
        res
    );
}

#[test]
fn parse_mul() {
    let res = Parser::parse(Tokenizer::new("1*2")).unwrap();
    assert_eq!(binop(leaf("1"), '*', leaf("2")), res);
}

#[test]
fn parse_div() {
    let res = Parser::parse(Tokenizer::new("1/2")).unwrap();
    assert_eq!(binop(leaf("1"), '/', leaf("2")), res);
}

#[test]
fn parse_div_chain() {
    let res = Parser::parse(Tokenizer::new("1/2/4")).unwrap();
    assert_eq!(binop(binop(leaf("1"), '/', leaf("2")), '/', leaf("4")), res);
}

#[test]
fn parse_mul_chain() {
    let res = Parser::parse(Tokenizer::new("1*2*4")).unwrap();
    assert_eq!(binop(binop(leaf("1"), '*', leaf("2")), '*', leaf("4")), res);
}

#[test]
fn parse_mul_and_div() {
    let res = Parser::parse(Tokenizer::new("1/2*4")).unwrap();
    assert_eq!(binop(binop(leaf("1"), '/', leaf("2")), '*', leaf("4")), res);
}

#[test]
fn parse_with_parens() {
    let res = Parser::parse(Tokenizer::new("1*(2*4)")).unwrap();
    assert_eq!(binop(leaf("1"), '*', binop(leaf("2"), '*', leaf("4"))), res);
}

#[test]
fn parse_with_bunch_of_parens() {
    let res = Parser::parse(Tokenizer::new("(1*((2*3)*4))")).unwrap();
    assert_eq!(
        binop(
            leaf("1"),
            '*',
            binop(binop(leaf("2"), '*', leaf("3")), '*', leaf("4"))
        ),
        res
    );
}

#[test]
fn atom_ok() {
    assert_eq!(Parser::from("1").atom().unwrap(), leaf("1"));
    assert_eq!(Parser::from("(1)").atom().unwrap(), leaf("1"));
    assert_eq!(Parser::from("((1))").atom().unwrap(), leaf("1"));
}

#[test]
fn atom_err_empty_parens() {
    assert_eq!(
        Parser::from("()").atom(),
        Err(String::from("Unexpected token: RightParen")),
    );
}

#[test]
fn atom_err_not_an_atom() {
    assert_eq!(
        Parser::from("+").atom(),
        Err(String::from("Unexpected token: Operator('+')")),
    );
}

#[test]
fn atom_err_incomplete() {
    assert_eq!(
        Parser::from("(").atom(),
        Err(String::from("Unexpected end of input"))
    );
    assert_eq!(
        Parser::from("(1").atom(),
        Err(String::from("Unexpected end of input"))
    );
}

#[test]
fn maybe_mul_div_atom() {
    assert_eq!(Parser::from("1").maybe_mul_div().unwrap(), leaf("1"));
}

#[test]
fn maybe_mul_div() {
    assert_eq!(
        Parser::from("1*2").maybe_mul_div().unwrap(),
        binop(leaf("1"), '*', leaf("2"))
    );
    assert_eq!(
        Parser::from("1/2").maybe_mul_div().unwrap(),
        binop(leaf("1"), '/', leaf("2"))
    );
}

#[test]
fn mul_div_op() {
    assert_eq!(
        Parser::from("*2").mul_div_op(leaf("1")).unwrap(),
        binop(leaf("1"), '*', leaf("2"))
    );
    assert_eq!(
        Parser::from("/2").mul_div_op(leaf("1")).unwrap(),
        binop(leaf("1"), '/', leaf("2"))
    );
}

#[test]
fn maybe_mul_div_division() {
    assert_eq!(
        Parser::from("1/2/3").maybe_mul_div().unwrap(),
        binop(binop(leaf("1"), '/', leaf("2")), '/', leaf("3"))
    );
}

#[test]
fn mul_div_op_multiplication() {
    assert_eq!(
        Parser::from("*2*3").mul_div_op(leaf("1")).unwrap(),
        binop(binop(leaf("1"), '*', leaf("2")), '*', leaf("3"))
    );
    assert_eq!(
        Parser::from("*3")
            .mul_div_op(binop(leaf("1"), '*', leaf("2")))
            .unwrap(),
        binop(binop(leaf("1"), '*', leaf("2")), '*', leaf("3"))
    );
}

#[test]
fn maybe_mul_div_multiplication() {
    assert_eq!(
        Parser::from("1*2*3").maybe_mul_div().unwrap(),
        binop(binop(leaf("1"), '*', leaf("2")), '*', leaf("3"))
    );
}

#[test]
fn mul_div_op_division() {
    assert_eq!(
        Parser::from("/2/3").mul_div_op(leaf("1")).unwrap(),
        binop(binop(leaf("1"), '/', leaf("2")), '/', leaf("3"))
    );
    assert_eq!(
        Parser::from("/3")
            .mul_div_op(binop(leaf("1"), '/', leaf("2")))
            .unwrap(),
        binop(binop(leaf("1"), '/', leaf("2")), '/', leaf("3"))
    );
}

#[test]
fn parser_maybe_mul_div_atom() {
    assert_eq!(Parser::from("1").maybe_mul_div().unwrap(), leaf("1"));
}
