use thbc::dc_gen::eval;
use thbc::dc_gen::to_dc;
use thbc::numeral::Numeral;
use thbc::parser::binop;
use thbc::parser::num;
use thbc::tokenizer::Token;
use thbc::tokenizer::Tokenizer;

/// Builds the canonical numeral of a numeric literal.
fn numeral(s: &str) -> Numeral {
    match Tokenizer::new(s).next() {
        Some(Token::Number(n)) => n,
        _ => panic!("not a numeral"),
    }
}

#[test]
fn dc_num() {
    assert_eq!("1 p", to_dc(&num(numeral("1"))));
}

#[test]
fn dc_binop() {
    assert_eq!("1 2 * p", to_dc(&binop(num(numeral("1")), '*', num(numeral("2")))));
}

#[test]
fn dc_multiple_ops() {
    assert_eq!(
        "1 1 / 1 - p",
        to_dc(&binop(
            binop(num(numeral("1")), '/', num(numeral("1"))),
            '-',
            num(numeral("1"))
        ))
    );
}

#[test]
fn dc_fractional_number() {
    assert_eq!("2.5 p", to_dc(&num(numeral("2.5"))));
}

#[test]
fn eval_simple_product() {
    assert_eq!(Ok(String::from("1 2 * p")), eval("1*2"));
}

#[test]
fn eval_whitespace_is_skipped() {
    assert_eq!(Ok(String::from("1 2 + p")), eval(" 1\t+  2 "));
}

#[test]
fn eval_canonicalizes_leading_zeros() {
    assert_eq!(Ok(String::from("7 p")), eval("007"));
}

#[test]
fn eval_canonicalizes_trailing_fraction_zeros() {
    assert_eq!(Ok(String::from("1.5 p")), eval("1.50"));
}

#[test]
fn eval_bare_dot_fraction_dropped() {
    assert_eq!(Ok(String::from("1 p")), eval("1."));
}

#[test]
fn eval_zero_point_zero() {
    assert_eq!(Ok(String::from("0 p")), eval("0.0"));
}

#[test]
fn eval_keeps_fraction() {
    assert_eq!(Ok(String::from("1.25 3.5 / p")), eval("1.25/3.5"));
}
