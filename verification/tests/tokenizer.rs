use thbc::tokenizer::Token;
use thbc::tokenizer::Tokenizer;

/// Collects every token of a fresh tokenizer over `input`.
fn tokens(input: &str) -> Vec<Token> {
    let mut tokenizer = Tokenizer::new(input);
    let mut out: Vec<Token> = Vec::new();
    while let Some(tok) = tokenizer.next() {
        out.push(tok);
    }
    out
}

#[test]
fn retokenize_is_idempotent() {
    let input = "1 + (2.5*4) - 0.50 ^ $ = z";
    assert_eq!(tokens(input), tokens(input));
}

#[test]
fn tokenize_classifies_each_unit() {
    let toks = tokens("+(")
        .iter()
        .map(|t| t.text())
        .collect::<Vec<String>>();
    assert_eq!(toks, vec![String::from("Operator('+')"), String::from("LeftParen")]);
}

#[test]
fn tokenize_number_is_canonical() {
    let toks = tokens("0.50");
    assert_eq!(1, toks.len());
    assert_eq!("Number(0.5)", toks[0].text());
}

#[test]
fn tokenize_whitespace_only_is_empty() {
    assert_eq!(0, tokens(" \t\n").len());
}

#[test]
fn tokenize_keeps_unknown_characters() {
    let toks = tokens("$");
    assert_eq!(1, toks.len());
    assert_eq!("Unknown('$')", toks[0].text());
}

#[test]
fn tokenize_register_and_assignment() {
    let toks = tokens("x=");
    assert_eq!(2, toks.len());
    assert_eq!("Register('x')", toks[0].text());
    assert_eq!("Assignment", toks[1].text());
}

#[test]
fn tokenize_number_without_fraction_reads_with_dot_zero() {
    let toks = tokens("2");
    assert_eq!("Number(2.0)", toks[0].text());
}

#[test]
fn equal_values_tokenize_to_the_same_token() {
    let a = tokens("1");
    let b = tokens("01.0");
    assert!(a[0].same_as(&b[0]));
    let c = tokens("1.5");
    assert!(!a[0].same_as(&c[0]));
}

#[test]
fn lex_whitespace_stops_at_first_token() {
    let mut t = Tokenizer::new(" \t 12ab");
    t.lex_whitespace();
    let mut buffer: Vec<char> = Vec::new();
    t.lex_digits(&mut buffer);
    assert_eq!(vec!['1', '2'], buffer);
}
