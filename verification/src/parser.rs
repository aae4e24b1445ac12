//! Recursive-descent parsing.
//!
//! The grammar, from loosest to tightest binding:
//!
//! ```text
//! Expr   -> AddSub
//! AddSub -> MulDiv ( ('+'|'-') MulDiv )*      left-associative
//! MulDiv -> Atom ( ('*'|'/') Atom )*          left-associative
//! Atom   -> '(' Expr ')' | Number
//! ```
//!
//! `^` is lexed but has no production, so it is rejected wherever it is
//! first met.  The parser consumes tokens with one token of lookahead and
//! either builds an expression tree or stops at the first error, which
//! propagates to the caller unchanged; only after a complete expression
//! does the mandatory trailing-input check report a leftover token.  The
//! tree built, the exact message of each error, and the cursor position
//! are pinned down by the `spec_*` functions below, which mirror the
//! grammar one level each.

use crate::numeral::debug_chars;
use crate::numeral::Numeral;
use crate::numeral::NumeralModel;
use crate::text::push_char;
use crate::tokenizer::tokens_of;
use crate::tokenizer::Token;
use crate::tokenizer::TokenModel;
use crate::tokenizer::Tokenizer;
use vstd::prelude::*;
use vstd::string::StringExecFns;

verus! {

// == Begin Syntax Tree Elements ==
/// The model of an expression tree.
pub enum ExprModel {
    BinOp { lhs: Box<ExprModel>, op: char, rhs: Box<ExprModel> },
    Num(NumeralModel),
}

/// An expression tree: a numeric leaf, or an operator applied to two
/// exclusively owned subtrees.
#[derive(Debug, PartialEq)]
pub enum Expr {
    BinOp { lhs: Box<Expr>, op: char, rhs: Box<Expr> },
    Num(Numeral),
}

impl View for Expr {
    type V = ExprModel;

    open spec fn view(&self) -> ExprModel
        decreases self,
    {
        match self {
            Expr::BinOp { lhs, op, rhs } => ExprModel::BinOp {
                lhs: Box::new((**lhs).view()),
                op: *op,
                rhs: Box::new((**rhs).view()),
            },
            Expr::Num(n) => ExprModel::Num(n@),
        }
    }
}

/// An expression tree as diagnostics spell it, for the read-only
/// parse-tree view: `BinOp { lhs: Num(1.0), op: '*', rhs: Num(2.0) }`.
pub open spec fn expr_debug(e: ExprModel) -> Seq<char>
    decreases e,
{
    match e {
        ExprModel::BinOp { lhs, op, rhs } => "BinOp { lhs: "@ + expr_debug(*lhs) + ", op: "@
            + char_quoted(op) + ", rhs: "@ + expr_debug(*rhs) + " }"@,
        ExprModel::Num(n) => "Num("@ + debug_chars(n) + ")"@,
    }
}

impl Expr {
    /// Renders the tree as diagnostics spell it.
    pub fn text(&self) -> (s: String)
        ensures
            s@ == expr_debug(self@),
        decreases self,
    {
        match self {
            Expr::BinOp { lhs, op, rhs } => {
                let mut s = String::from_str("BinOp { lhs: ");
                let lx = lhs.text();
                s.append(lx.as_str());
                s.append(", op: ");
                push_quoted(&mut s, *op);
                s.append(", rhs: ");
                let rx = rhs.text();
                s.append(rx.as_str());
                s.append(" }");
                proof {
                    assert(s@ =~= expr_debug(self@));
                }
                s
            },
            Expr::Num(n) => {
                let mut s = String::from_str("Num(");
                let d = n.debug_text();
                s.append(d.as_str());
                s.append(")");
                proof {
                    assert(s@ =~= expr_debug(self@));
                }
                s
            },
        }
    }
}

/* Helper factory functions for building Exprs */
pub fn binop(lhs: Expr, op: char, rhs: Expr) -> (e: Expr)
    ensures
        e@ == (ExprModel::BinOp { lhs: Box::new(lhs@), op: op, rhs: Box::new(rhs@) }),
{
    Expr::BinOp { op, lhs: Box::new(lhs), rhs: Box::new(rhs) }
}

pub fn num(value: Numeral) -> (e: Expr)
    ensures
        e@ == ExprModel::Num(value@),
{
    Expr::Num(value)
}
// == End Syntax Tree Elements ==

// == Diagnostic messages ==
/// A character as diagnostics quote it.
pub open spec fn char_quoted(c: char) -> Seq<char> {
    seq!['\''] + seq![c] + seq!['\'']
}

/// A token as diagnostics spell it.
pub open spec fn token_debug(t: TokenModel) -> Seq<char> {
    match t {
        TokenModel::Unknown(c) => "Unknown("@ + char_quoted(c) + ")"@,
        TokenModel::Operator(c) => "Operator("@ + char_quoted(c) + ")"@,
        TokenModel::Number(n) => "Number("@ + debug_chars(n) + ")"@,
        TokenModel::Register(c) => "Register("@ + char_quoted(c) + ")"@,
        TokenModel::Assignment => "Assignment"@,
        TokenModel::LeftParen => "LeftParen"@,
        TokenModel::RightParen => "RightParen"@,
    }
}

pub open spec fn msg_unexpected_end() -> Seq<char> {
    "Unexpected end of input"@
}

pub open spec fn msg_unexpected_token(t: TokenModel) -> Seq<char> {
    "Unexpected token: "@ + token_debug(t)
}

pub open spec fn msg_expected_found(expected: TokenModel, found: TokenModel) -> Seq<char> {
    "Expected: "@ + token_debug(expected) + " - Found "@ + token_debug(found)
}

pub open spec fn msg_trailing(t: TokenModel) -> Seq<char> {
    "Expected end of input, found "@ + token_debug(t)
}

pub open spec fn msg_expected_operator(t: Option<TokenModel>) -> Seq<char> {
    "Expected operator, found "@ + (match t {
        None => "None"@,
        Some(tv) => "Some("@ + token_debug(tv) + ")"@,
    })
}

fn push_quoted(s: &mut String, c: char)
    ensures
        final(s)@ == old(s)@ + char_quoted(c),
{
    push_char(s, '\'');
    push_char(s, c);
    push_char(s, '\'');
    proof {
        assert(s@ =~= old(s)@ + char_quoted(c));
    }
}

impl Token {
    /// Renders the token as diagnostics spell it.
    pub fn text(&self) -> (s: String)
        ensures
            s@ == token_debug(self@),
    {
        match self {
            Token::Unknown(c) => {
                let mut s = String::from_str("Unknown(");
                push_quoted(&mut s, *c);
                s.append(")");
                proof {
                    assert(s@ =~= token_debug(self@));
                }
                s
            },
            Token::Operator(c) => {
                let mut s = String::from_str("Operator(");
                push_quoted(&mut s, *c);
                s.append(")");
                proof {
                    assert(s@ =~= token_debug(self@));
                }
                s
            },
            Token::Number(n) => {
                let mut s = String::from_str("Number(");
                let d = n.debug_text();
                s.append(d.as_str());
                s.append(")");
                proof {
                    assert(s@ =~= token_debug(self@));
                }
                s
            },
            Token::Register(c) => {
                let mut s = String::from_str("Register(");
                push_quoted(&mut s, *c);
                s.append(")");
                proof {
                    assert(s@ =~= token_debug(self@));
                }
                s
            },
            Token::Assignment => String::from_str("Assignment"),
            Token::LeftParen => String::from_str("LeftParen"),
            Token::RightParen => String::from_str("RightParen"),
        }
    }
}

fn end_of_input_msg() -> (s: String)
    ensures
        s@ == msg_unexpected_end(),
{
    String::from_str("Unexpected end of input")
}

fn unexpected_token_msg(t: &Token) -> (s: String)
    ensures
        s@ == msg_unexpected_token(t@),
{
    let mut s = String::from_str("Unexpected token: ");
    let tx = t.text();
    s.append(tx.as_str());
    s
}

fn expected_found_msg(expected: &Token, found: &Token) -> (s: String)
    ensures
        s@ == msg_expected_found(expected@, found@),
{
    let mut s = String::from_str("Expected: ");
    let ex = expected.text();
    s.append(ex.as_str());
    s.append(" - Found ");
    let fx = found.text();
    s.append(fx.as_str());
    proof {
        assert(s@ =~= msg_expected_found(expected@, found@));
    }
    s
}

fn trailing_msg(t: &Token) -> (s: String)
    ensures
        s@ == msg_trailing(t@),
{
    let mut s = String::from_str("Expected end of input, found ");
    let tx = t.text();
    s.append(tx.as_str());
    s
}

fn expected_operator_msg(t: &Option<Token>) -> (s: String)
    ensures
        s@ == (match t {
            None => msg_expected_operator(None),
            Some(tok) => msg_expected_operator(Some(tok@)),
        }),
{
    let mut s = String::from_str("Expected operator, found ");
    match t {
        None => {
            s.append("None");
        },
        Some(tok) => {
            s.append("Some(");
            let tx = tok.text();
            s.append(tx.as_str());
            s.append(")");
            proof {
                assert(s@ =~= msg_expected_operator(Some(tok@)));
            }
        },
    }
    s
}
// == End diagnostic messages ==

// == The grammar as spec functions ==
/// One step of the specification parser: the outcome and the tokens left
/// over.  On an error the leftover tokens record where the cursor stopped,
/// which the parser methods' contracts pin exactly.
pub struct ParseStep {
    pub res: Result<ExprModel, Seq<char>>,
    pub rest: Seq<TokenModel>,
}

/// The operator at the front of the input, if any, seen without consuming.
pub open spec fn peeked_operator(toks: Seq<TokenModel>) -> Option<char> {
    if toks.len() == 0 {
        None
    } else {
        match toks[0] {
            TokenModel::Operator(c) => Some(c),
            _ => None,
        }
    }
}

/// Atom -> '(' Expr ')' | Number
pub open spec fn spec_atom(toks: Seq<TokenModel>) -> ParseStep
    decreases toks.len(), 1int,
{
    if toks.len() == 0 {
        ParseStep { res: Err(msg_unexpected_end()), rest: toks }
    } else {
        match toks[0] {
            TokenModel::LeftParen => {
                let step = spec_expr(toks.skip(1));
                match step.res {
                    Ok(e) => {
                        if step.rest.len() == 0 {
                            ParseStep { res: Err(msg_unexpected_end()), rest: step.rest }
                        } else if step.rest[0] is RightParen {
                            ParseStep { res: Ok(e), rest: step.rest.skip(1) }
                        } else {
                            ParseStep {
                                res: Err(msg_expected_found(TokenModel::RightParen, step.rest[0])),
                                rest: step.rest.skip(1),
                            }
                        }
                    },
                    Err(m) => step,
                }
            },
            TokenModel::Number(n) => ParseStep {
                res: Ok(ExprModel::Num(n)),
                rest: toks.skip(1),
            },
            _ => ParseStep { res: Err(msg_unexpected_token(toks[0])), rest: toks.skip(1) },
        }
    }
}

/// MulDivOp -> ('*'|'/') Atom, folding into `lhs` from the left.
pub open spec fn spec_mul_div_op(toks: Seq<TokenModel>, lhs: ExprModel) -> ParseStep
    decreases toks.len(), 2int,
{
    if toks.len() == 0 {
        ParseStep { res: Err(msg_expected_operator(None)), rest: toks }
    } else {
        match toks[0] {
            TokenModel::Operator(op) => {
                let step = spec_atom(toks.skip(1));
                match step.res {
                    Ok(rhs) => {
                        let bin = ExprModel::BinOp {
                            lhs: Box::new(lhs),
                            op: op,
                            rhs: Box::new(rhs),
                        };
                        if peeked_operator(step.rest) matches Some(op2) && (op2 == '*' || op2
                            == '/') {
                            if step.rest.len() < toks.len() {
                                spec_mul_div_op(step.rest, bin)
                            } else {
                                // a successful sub-parse always consumes input,
                                // so this branch is never the real one
                                ParseStep { res: Ok(bin), rest: step.rest }
                            }
                        } else {
                            ParseStep { res: Ok(bin), rest: step.rest }
                        }
                    },
                    Err(m) => step,
                }
            },
            _ => ParseStep {
                res: Err(msg_expected_operator(Some(toks[0]))),
                rest: toks.skip(1),
            },
        }
    }
}

/// MaybeMulDiv -> Atom MulDivOp?
pub open spec fn spec_maybe_mul_div(toks: Seq<TokenModel>) -> ParseStep
    decreases toks.len(), 3int,
{
    let step = spec_atom(toks);
    match step.res {
        Ok(lhs) => {
            if peeked_operator(step.rest) matches Some(op) && (op == '*' || op == '/') {
                if step.rest.len() < toks.len() {
                    spec_mul_div_op(step.rest, lhs)
                } else {
                    // never the real branch: see spec_mul_div_op
                    step
                }
            } else {
                step
            }
        },
        Err(m) => step,
    }
}

/// AddSubOp -> ('+'|'-') MaybeMulDiv, folding into `lhs` from the left.
pub open spec fn spec_add_sub_op(toks: Seq<TokenModel>, lhs: ExprModel) -> ParseStep
    decreases toks.len(), 4int,
{
    if toks.len() == 0 {
        ParseStep { res: Err(msg_expected_operator(None)), rest: toks }
    } else {
        match toks[0] {
            TokenModel::Operator(op) => {
                let step = spec_maybe_mul_div(toks.skip(1));
                match step.res {
                    Ok(rhs) => {
                        let bin = ExprModel::BinOp {
                            lhs: Box::new(lhs),
                            op: op,
                            rhs: Box::new(rhs),
                        };
                        if peeked_operator(step.rest) matches Some(op2) && (op2 == '+' || op2
                            == '-') {
                            if step.rest.len() < toks.len() {
                                spec_add_sub_op(step.rest, bin)
                            } else {
                                // never the real branch: see spec_mul_div_op
                                ParseStep { res: Ok(bin), rest: step.rest }
                            }
                        } else {
                            ParseStep { res: Ok(bin), rest: step.rest }
                        }
                    },
                    Err(m) => step,
                }
            },
            _ => ParseStep {
                res: Err(msg_expected_operator(Some(toks[0]))),
                rest: toks.skip(1),
            },
        }
    }
}

/// MaybeAddSub -> MaybeMulDiv AddSubOp?
pub open spec fn spec_maybe_add_sub(toks: Seq<TokenModel>) -> ParseStep
    decreases toks.len(), 5int,
{
    let step = spec_maybe_mul_div(toks);
    match step.res {
        Ok(lhs) => {
            if peeked_operator(step.rest) matches Some(op) && (op == '+' || op == '-') {
                if step.rest.len() < toks.len() {
                    spec_add_sub_op(step.rest, lhs)
                } else {
                    // never the real branch: see spec_mul_div_op
                    step
                }
            } else {
                step
            }
        },
        Err(m) => step,
    }
}

/// Expr -> AddSub, requiring at least one token.
pub open spec fn spec_expr(toks: Seq<TokenModel>) -> ParseStep
    decreases toks.len(), 6int,
{
    if toks.len() == 0 {
        ParseStep { res: Err(msg_unexpected_end()), rest: toks }
    } else {
        spec_maybe_add_sub(toks)
    }
}

/// The whole parse of a token sequence: an expression, which must consume
/// every token.  The first error of the descent propagates unchanged; when
/// the expression parses, the mandatory trailing-input check runs, and a
/// leftover token is an error of its own.
pub open spec fn spec_parse(toks: Seq<TokenModel>) -> Result<ExprModel, Seq<char>> {
    let step = spec_expr(toks);
    match step.res {
        Ok(e) => {
            if step.rest.len() > 0 {
                Err(msg_trailing(step.rest[0]))
            } else {
                Ok(e)
            }
        },
        Err(m) => Err(m),
    }
}

/// The whole pipeline on a line of text: tokenize, then parse.
pub open spec fn spec_parse_text(s: Seq<char>) -> Result<ExprModel, Seq<char>> {
    spec_parse(tokens_of(s))
}
// == End grammar spec ==

// == Numerals are consumed in order ==
/// The numeral carried by one token, if any.
pub open spec fn head_numerals(t: TokenModel) -> Seq<NumeralModel> {
    match t {
        TokenModel::Number(n) => seq![n],
        _ => Seq::<NumeralModel>::empty(),
    }
}

/// The numerals of a token sequence, in order.
pub open spec fn numerals_of(toks: Seq<TokenModel>) -> Seq<NumeralModel>
    decreases toks.len(),
{
    if toks.len() == 0 {
        Seq::empty()
    } else {
        head_numerals(toks[0]) + numerals_of(toks.drop_first())
    }
}

/// The numeral leaves of a tree, left to right.
pub open spec fn leaves(e: ExprModel) -> Seq<NumeralModel>
    decreases e,
{
    match e {
        ExprModel::Num(n) => seq![n],
        ExprModel::BinOp { lhs, op, rhs } => leaves(*lhs) + leaves(*rhs),
    }
}

pub proof fn lemma_numerals_of_concat(a: Seq<TokenModel>, b: Seq<TokenModel>)
    ensures
        numerals_of(a + b) == numerals_of(a) + numerals_of(b),
    decreases a.len(),
{
    if a.len() == 0 {
        assert(a + b =~= b);
        assert(numerals_of(a) + numerals_of(b) =~= numerals_of(b));
    } else {
        lemma_numerals_of_concat(a.drop_first(), b);
        assert((a + b).drop_first() =~= a.drop_first() + b);
        assert((a + b)[0] == a[0]);
        assert(head_numerals(a[0]) + (numerals_of(a.drop_first()) + numerals_of(b)) =~= (
        head_numerals(a[0]) + numerals_of(a.drop_first())) + numerals_of(b));
    }
}

/// A successful atom consumes a prefix whose numerals are its leaves.
pub proof fn lemma_atom_numerals(toks: Seq<TokenModel>)
    ensures
        ({
            let step = spec_atom(toks);
            step.res matches Ok(e) ==> {
                let k = toks.len() - step.rest.len();
                &&& 0 < k <= toks.len()
                &&& step.rest == toks.skip(k)
                &&& leaves(e) == numerals_of(toks.take(k))
            }
        }),
    decreases toks.len(), 1int,
{
    let step = spec_atom(toks);
    assert(numerals_of(Seq::<TokenModel>::empty()) == Seq::<NumeralModel>::empty());
    if toks.len() > 0 {
        match toks[0] {
            TokenModel::LeftParen => {
                lemma_expr_numerals(toks.skip(1));
                let step1 = spec_expr(toks.skip(1));
                match step1.res {
                    Ok(e) => {
                        let k1 = toks.skip(1).len() - step1.rest.len();
                        assert(toks.skip(1).skip(k1) =~= toks.skip(1 + k1));
                        if step1.rest.len() > 0 && step1.rest[0] is RightParen {
                            let k = toks.len() - step.rest.len();
                            assert(step.rest =~= toks.skip(k1 + 2));
                            assert(k == k1 + 2);
                            let front = seq![toks[0]];
                            let mid = toks.skip(1).take(k1);
                            let back = seq![toks[1 + k1]];
                            assert(toks.take(k) =~= front + (mid + back));
                            lemma_numerals_of_concat(front, mid + back);
                            lemma_numerals_of_concat(mid, back);
                            assert(front.drop_first() =~= Seq::<TokenModel>::empty());
                            assert(numerals_of(front) =~= Seq::<NumeralModel>::empty());
                            assert(toks[1 + k1] == step1.rest[0]);
                            assert(back.drop_first() =~= Seq::<TokenModel>::empty());
                            assert(numerals_of(back) =~= Seq::<NumeralModel>::empty());
                            assert(leaves(e) =~= numerals_of(toks.take(k)));
                        }
                    },
                    Err(m) => {
                    },
                }
            },
            TokenModel::Number(n) => {
                assert(toks.take(1).drop_first() =~= Seq::<TokenModel>::empty());
                assert(toks.take(1)[0] == toks[0]);
                assert(numerals_of(toks.take(1)) =~= seq![n]);
                assert(leaves(ExprModel::Num(n)) =~= numerals_of(toks.take(1)));
            },
            _ => {
            },
        }
    }
}

/// A successful multiplicative operator chain extends the leaves of its
/// accumulator by the numerals it consumes, in order.
pub proof fn lemma_mul_div_op_numerals(toks: Seq<TokenModel>, lhs: ExprModel)
    ensures
        ({
            let step = spec_mul_div_op(toks, lhs);
            step.res matches Ok(e) ==> {
                let k = toks.len() - step.rest.len();
                &&& 0 < k <= toks.len()
                &&& step.rest == toks.skip(k)
                &&& leaves(e) == leaves(lhs) + numerals_of(toks.take(k))
            }
        }),
    decreases toks.len(), 2int,
{
    let step = spec_mul_div_op(toks, lhs);
    assert(numerals_of(Seq::<TokenModel>::empty()) == Seq::<NumeralModel>::empty());
    if toks.len() > 0 {
        match toks[0] {
            TokenModel::Operator(op) => {
                lemma_atom_numerals(toks.skip(1));
                let step1 = spec_atom(toks.skip(1));
                match step1.res {
                    Ok(rhs) => {
                        let k1 = toks.skip(1).len() - step1.rest.len();
                        assert(toks.skip(1).skip(k1) =~= toks.skip(1 + k1));
                        let bin = ExprModel::BinOp {
                            lhs: Box::new(lhs),
                            op: op,
                            rhs: Box::new(rhs),
                        };
                        let front = seq![toks[0]];
                        let mid = toks.skip(1).take(k1);
                        assert(front.drop_first() =~= Seq::<TokenModel>::empty());
                        assert(numerals_of(front) =~= Seq::<NumeralModel>::empty());
                        assert(toks.take(1 + k1) =~= front + mid);
                        lemma_numerals_of_concat(front, mid);
                        assert(leaves(bin) =~= leaves(lhs) + numerals_of(toks.take(1 + k1)));
                        match peeked_operator(step1.rest) {
                            Some(op2) => {
                                if op2 == '*' || op2 == '/' {
                                    lemma_mul_div_op_numerals(step1.rest, bin);
                                    let step2 = spec_mul_div_op(step1.rest, bin);
                                    match step2.res {
                                        Ok(e) => {
                                            let k2 = step1.rest.len() - step2.rest.len();
                                            let k = 1 + k1 + k2;
                                            assert(step.rest == step2.rest);
                                            assert(step2.rest =~= toks.skip(k));
                                            assert(toks.take(k) =~= toks.take(1 + k1) + toks.skip(
                                                1 + k1,
                                            ).take(k2));
                                            lemma_numerals_of_concat(
                                                toks.take(1 + k1),
                                                toks.skip(1 + k1).take(k2),
                                            );
                                            assert(leaves(e) =~= leaves(lhs) + numerals_of(
                                                toks.take(k),
                                            ));
                                        },
                                        Err(m) => {
                                        },
                                    }
                                }
                            },
                            None => {
                            },
                        }
                    },
                    Err(m) => {
                    },
                }
            },
            _ => {
            },
        }
    }
}

/// A successful multiplicative parse consumes a prefix whose numerals are
/// its leaves.
pub proof fn lemma_maybe_mul_div_numerals(toks: Seq<TokenModel>)
    ensures
        ({
            let step = spec_maybe_mul_div(toks);
            step.res matches Ok(e) ==> {
                let k = toks.len() - step.rest.len();
                &&& 0 < k <= toks.len()
                &&& step.rest == toks.skip(k)
                &&& leaves(e) == numerals_of(toks.take(k))
            }
        }),
    decreases toks.len(), 3int,
{
    lemma_atom_numerals(toks);
    let step1 = spec_atom(toks);
    match step1.res {
        Ok(lhs) => {
            let k1 = toks.len() - step1.rest.len();
            match peeked_operator(step1.rest) {
                Some(op) => {
                    if op == '*' || op == '/' {
                        lemma_mul_div_op_numerals(step1.rest, lhs);
                        let step2 = spec_mul_div_op(step1.rest, lhs);
                        match step2.res {
                            Ok(e) => {
                                let k2 = step1.rest.len() - step2.rest.len();
                                let k = k1 + k2;
                                assert(toks.skip(k1).skip(k2) =~= toks.skip(k));
                                assert(toks.take(k) =~= toks.take(k1) + toks.skip(k1).take(k2));
                                lemma_numerals_of_concat(toks.take(k1), toks.skip(k1).take(k2));
                                assert(leaves(e) =~= numerals_of(toks.take(k)));
                            },
                            Err(m) => {
                            },
                        }
                    }
                },
                None => {
                },
            }
        },
        Err(m) => {
        },
    }
}

/// A successful additive operator chain extends the leaves of its
/// accumulator by the numerals it consumes, in order.
pub proof fn lemma_add_sub_op_numerals(toks: Seq<TokenModel>, lhs: ExprModel)
    ensures
        ({
            let step = spec_add_sub_op(toks, lhs);
            step.res matches Ok(e) ==> {
                let k = toks.len() - step.rest.len();
                &&& 0 < k <= toks.len()
                &&& step.rest == toks.skip(k)
                &&& leaves(e) == leaves(lhs) + numerals_of(toks.take(k))
            }
        }),
    decreases toks.len(), 4int,
{
    let step = spec_add_sub_op(toks, lhs);
    assert(numerals_of(Seq::<TokenModel>::empty()) == Seq::<NumeralModel>::empty());
    if toks.len() > 0 {
        match toks[0] {
            TokenModel::Operator(op) => {
                lemma_maybe_mul_div_numerals(toks.skip(1));
                let step1 = spec_maybe_mul_div(toks.skip(1));
                match step1.res {
                    Ok(rhs) => {
                        let k1 = toks.skip(1).len() - step1.rest.len();
                        assert(toks.skip(1).skip(k1) =~= toks.skip(1 + k1));
                        let bin = ExprModel::BinOp {
                            lhs: Box::new(lhs),
                            op: op,
                            rhs: Box::new(rhs),
                        };
                        let front = seq![toks[0]];
                        let mid = toks.skip(1).take(k1);
                        assert(front.drop_first() =~= Seq::<TokenModel>::empty());
                        assert(numerals_of(front) =~= Seq::<NumeralModel>::empty());
                        assert(toks.take(1 + k1) =~= front + mid);
                        lemma_numerals_of_concat(front, mid);
                        assert(leaves(bin) =~= leaves(lhs) + numerals_of(toks.take(1 + k1)));
                        match peeked_operator(step1.rest) {
                            Some(op2) => {
                                if op2 == '+' || op2 == '-' {
                                    lemma_add_sub_op_numerals(step1.rest, bin);
                                    let step2 = spec_add_sub_op(step1.rest, bin);
                                    match step2.res {
                                        Ok(e) => {
                                            let k2 = step1.rest.len() - step2.rest.len();
                                            let k = 1 + k1 + k2;
                                            assert(step.rest == step2.rest);
                                            assert(step2.rest =~= toks.skip(k));
                                            assert(toks.take(k) =~= toks.take(1 + k1) + toks.skip(
                                                1 + k1,
                                            ).take(k2));
                                            lemma_numerals_of_concat(
                                                toks.take(1 + k1),
                                                toks.skip(1 + k1).take(k2),
                                            );
                                            assert(leaves(e) =~= leaves(lhs) + numerals_of(
                                                toks.take(k),
                                            ));
                                        },
                                        Err(m) => {
                                        },
                                    }
                                }
                            },
                            None => {
                            },
                        }
                    },
                    Err(m) => {
                    },
                }
            },
            _ => {
            },
        }
    }
}

/// A successful additive parse consumes a prefix whose numerals are its
/// leaves.
pub proof fn lemma_maybe_add_sub_numerals(toks: Seq<TokenModel>)
    ensures
        ({
            let step = spec_maybe_add_sub(toks);
            step.res matches Ok(e) ==> {
                let k = toks.len() - step.rest.len();
                &&& 0 < k <= toks.len()
                &&& step.rest == toks.skip(k)
                &&& leaves(e) == numerals_of(toks.take(k))
            }
        }),
    decreases toks.len(), 5int,
{
    lemma_maybe_mul_div_numerals(toks);
    let step1 = spec_maybe_mul_div(toks);
    match step1.res {
        Ok(lhs) => {
            let k1 = toks.len() - step1.rest.len();
            match peeked_operator(step1.rest) {
                Some(op) => {
                    if op == '+' || op == '-' {
                        lemma_add_sub_op_numerals(step1.rest, lhs);
                        let step2 = spec_add_sub_op(step1.rest, lhs);
                        match step2.res {
                            Ok(e) => {
                                let k2 = step1.rest.len() - step2.rest.len();
                                let k = k1 + k2;
                                assert(toks.skip(k1).skip(k2) =~= toks.skip(k));
                                assert(toks.take(k) =~= toks.take(k1) + toks.skip(k1).take(k2));
                                lemma_numerals_of_concat(toks.take(k1), toks.skip(k1).take(k2));
                                assert(leaves(e) =~= numerals_of(toks.take(k)));
                            },
                            Err(m) => {
                            },
                        }
                    }
                },
                None => {
                },
            }
        },
        Err(m) => {
        },
    }
}

/// A successful expression parse consumes a prefix whose numerals are its
/// leaves, in source order.
pub proof fn lemma_expr_numerals(toks: Seq<TokenModel>)
    ensures
        ({
            let step = spec_expr(toks);
            step.res matches Ok(e) ==> {
                let k = toks.len() - step.rest.len();
                &&& 0 < k <= toks.len()
                &&& step.rest == toks.skip(k)
                &&& leaves(e) == numerals_of(toks.take(k))
            }
        }),
    decreases toks.len(), 6int,
{
    if toks.len() > 0 {
        lemma_maybe_add_sub_numerals(toks);
    }
}
// == End numerals in order ==

// == Well-formed trees ==
/// A well-formed tree: every operator one of the five operator characters,
/// every leaf canonical.
pub open spec fn expr_wf(e: ExprModel) -> bool
    decreases e,
{
    match e {
        ExprModel::Num(n) => crate::numeral::canonical(n),
        ExprModel::BinOp { lhs, op, rhs } => crate::tokenizer::is_operator_char(op) && expr_wf(
            *lhs,
        ) && expr_wf(*rhs),
    }
}

/// Every token of the sequence is well formed.
pub open spec fn all_tokens_wf(toks: Seq<TokenModel>) -> bool {
    forall|i: int| 0 <= i < toks.len() ==> crate::tokenizer::token_wf(#[trigger] toks[i])
}

pub proof fn lemma_all_tokens_wf_skip(toks: Seq<TokenModel>, k: int)
    requires
        all_tokens_wf(toks),
        0 <= k <= toks.len(),
    ensures
        all_tokens_wf(toks.skip(k)),
{
    assert forall|i: int| 0 <= i < toks.skip(k).len() implies crate::tokenizer::token_wf(
        #[trigger] toks.skip(k)[i],
    ) by {
        assert(toks.skip(k)[i] == toks[i + k]);
    }
}

/// A successful atom over well-formed tokens yields a well-formed tree.
pub proof fn lemma_atom_tree_wf(toks: Seq<TokenModel>)
    requires
        all_tokens_wf(toks),
    ensures
        spec_atom(toks).res matches Ok(e) ==> expr_wf(e),
    decreases toks.len(), 1int,
{
    if toks.len() > 0 {
        match toks[0] {
            TokenModel::LeftParen => {
                lemma_all_tokens_wf_skip(toks, 1);
                lemma_expr_tree_wf(toks.skip(1));
            },
            TokenModel::Number(n) => {
                assert(crate::tokenizer::token_wf(toks[0]));
            },
            _ => {
            },
        }
    }
}

/// A successful multiplicative chain over well-formed tokens keeps the
/// tree well formed.
pub proof fn lemma_mul_div_op_tree_wf(toks: Seq<TokenModel>, lhs: ExprModel)
    requires
        all_tokens_wf(toks),
        expr_wf(lhs),
    ensures
        spec_mul_div_op(toks, lhs).res matches Ok(e) ==> expr_wf(e),
    decreases toks.len(), 2int,
{
    if toks.len() > 0 {
        match toks[0] {
            TokenModel::Operator(op) => {
                assert(crate::tokenizer::token_wf(toks[0]));
                lemma_all_tokens_wf_skip(toks, 1);
                lemma_atom_tree_wf(toks.skip(1));
                lemma_atom_numerals(toks.skip(1));
                let step1 = spec_atom(toks.skip(1));
                match step1.res {
                    Ok(rhs) => {
                        let bin = ExprModel::BinOp {
                            lhs: Box::new(lhs),
                            op: op,
                            rhs: Box::new(rhs),
                        };
                        let k1 = toks.skip(1).len() - step1.rest.len();
                        lemma_all_tokens_wf_skip(toks.skip(1), k1);
                        lemma_mul_div_op_tree_wf(step1.rest, bin);
                    },
                    Err(m) => {
                    },
                }
            },
            _ => {
            },
        }
    }
}

/// A successful multiplicative parse over well-formed tokens yields a
/// well-formed tree.
pub proof fn lemma_maybe_mul_div_tree_wf(toks: Seq<TokenModel>)
    requires
        all_tokens_wf(toks),
    ensures
        spec_maybe_mul_div(toks).res matches Ok(e) ==> expr_wf(e),
    decreases toks.len(), 3int,
{
    lemma_atom_tree_wf(toks);
    lemma_atom_numerals(toks);
    let step1 = spec_atom(toks);
    match step1.res {
        Ok(lhs) => {
            let k1 = toks.len() - step1.rest.len();
            lemma_all_tokens_wf_skip(toks, k1);
            lemma_mul_div_op_tree_wf(step1.rest, lhs);
        },
        Err(m) => {
        },
    }
}

/// A successful additive chain over well-formed tokens keeps the tree
/// well formed.
pub proof fn lemma_add_sub_op_tree_wf(toks: Seq<TokenModel>, lhs: ExprModel)
    requires
        all_tokens_wf(toks),
        expr_wf(lhs),
    ensures
        spec_add_sub_op(toks, lhs).res matches Ok(e) ==> expr_wf(e),
    decreases toks.len(), 4int,
{
    if toks.len() > 0 {
        match toks[0] {
            TokenModel::Operator(op) => {
                assert(crate::tokenizer::token_wf(toks[0]));
                lemma_all_tokens_wf_skip(toks, 1);
                lemma_maybe_mul_div_tree_wf(toks.skip(1));
                lemma_maybe_mul_div_numerals(toks.skip(1));
                let step1 = spec_maybe_mul_div(toks.skip(1));
                match step1.res {
                    Ok(rhs) => {
                        let bin = ExprModel::BinOp {
                            lhs: Box::new(lhs),
                            op: op,
                            rhs: Box::new(rhs),
                        };
                        let k1 = toks.skip(1).len() - step1.rest.len();
                        lemma_all_tokens_wf_skip(toks.skip(1), k1);
                        lemma_add_sub_op_tree_wf(step1.rest, bin);
                    },
                    Err(m) => {
                    },
                }
            },
            _ => {
            },
        }
    }
}

/// A successful additive parse over well-formed tokens yields a
/// well-formed tree.
pub proof fn lemma_maybe_add_sub_tree_wf(toks: Seq<TokenModel>)
    requires
        all_tokens_wf(toks),
    ensures
        spec_maybe_add_sub(toks).res matches Ok(e) ==> expr_wf(e),
    decreases toks.len(), 5int,
{
    lemma_maybe_mul_div_tree_wf(toks);
    lemma_maybe_mul_div_numerals(toks);
    let step1 = spec_maybe_mul_div(toks);
    match step1.res {
        Ok(lhs) => {
            let k1 = toks.len() - step1.rest.len();
            lemma_all_tokens_wf_skip(toks, k1);
            lemma_add_sub_op_tree_wf(step1.rest, lhs);
        },
        Err(m) => {
        },
    }
}

/// A successful expression parse over well-formed tokens yields a
/// well-formed tree.
pub proof fn lemma_expr_tree_wf(toks: Seq<TokenModel>)
    requires
        all_tokens_wf(toks),
    ensures
        spec_expr(toks).res matches Ok(e) ==> expr_wf(e),
    decreases toks.len(), 6int,
{
    if toks.len() > 0 {
        lemma_maybe_add_sub_tree_wf(toks);
    }
}

/// Well-formedness law: every tree a successful parse yields is well
/// formed — each operator is one of `+ - * / ^`, each leaf canonical.
pub proof fn lemma_parse_tree_wf(s: Seq<char>)
    ensures
        spec_parse_text(s) matches Ok(e) ==> expr_wf(e),
{
    crate::tokenizer::lemma_tokens_of_wf(s);
    lemma_expr_tree_wf(tokens_of(s));
}
// == End well-formed trees ==

/// How an executable parse outcome corresponds to one specification step:
/// the same success or failure, the same tree or message, and the same
/// tokens left over.
pub open spec fn step_models(r: Result<Expr, String>, step: ParseStep, after: Seq<TokenModel>) -> bool {
    &&& after == step.rest
    &&& match r {
        Ok(e) => step.res == Ok::<ExprModel, Seq<char>>(e@),
        Err(m) => step.res == Err::<ExprModel, Seq<char>>(m@),
    }
}

/// The parser state: the token sequence and a cursor with one token of
/// lookahead.
pub struct Parser {
    pub toks: Vec<Token>,
    pub pos: usize,
}

/// Runs a tokenizer to the end and collects its tokens.
fn collect_tokens(tokenizer: Tokenizer) -> (v: Vec<Token>)
    requires
        tokenizer.wf(),
    ensures
        v@.map_values(|t: Token| t@) == tokens_of(tokenizer.remaining()),
{
    let ghost orig = tokenizer.remaining();
    let mut tokenizer = tokenizer;
    let mut v: Vec<Token> = Vec::new();
    let mut done = false;
    proof {
        assert(v@.map_values(|t: Token| t@) =~= Seq::<TokenModel>::empty());
    }
    while !done
        invariant
            tokenizer.wf(),
            tokens_of(orig) == v@.map_values(|t: Token| t@) + (if done {
                Seq::<TokenModel>::empty()
            } else {
                tokens_of(tokenizer.remaining())
            }),
        decreases tokenizer.remaining().len() + (if done { 0int } else { 1int }),
    {
        let ghost before = v@.map_values(|t: Token| t@);
        let ghost rem = tokenizer.remaining();
        match tokenizer.next() {
            Some(tok) => {
                v.push(tok);
                proof {
                    assert(v@.map_values(|t: Token| t@) =~= before.push(tok@));
                    assert(before + tokens_of(rem) =~= v@.map_values(|t: Token| t@) + tokens_of(
                        tokenizer.remaining(),
                    ));
                }
            },
            None => {
                done = true;
                proof {
                    assert(before + tokens_of(rem) =~= before + Seq::<TokenModel>::empty());
                }
            },
        }
    }
    v
}

impl Parser {
    pub open spec fn wf(&self) -> bool {
        self.pos <= self.toks@.len()
    }

    /// The tokens not consumed yet.
    pub open spec fn remaining(&self) -> Seq<TokenModel> {
        self.toks@.map_values(|t: Token| t@).skip(self.pos as int)
    }

    /// Parses everything the tokenizer produces as one expression.  The
    /// first error of the descent propagates unchanged; after a complete
    /// expression, any leftover token is an error.
    pub fn parse(tokenizer: Tokenizer) -> (r: Result<Expr, String>)
        requires
            tokenizer.wf(),
        ensures
            match r {
                Ok(e) => spec_parse_text(tokenizer.remaining()) == Ok::<ExprModel, Seq<char>>(e@),
                Err(m) => spec_parse_text(tokenizer.remaining()) == Err::<ExprModel, Seq<char>>(
                    m@,
                ),
            },
    {
        let ghost input = tokenizer.remaining();
        let toks = collect_tokens(tokenizer);
        let mut parser = Parser { toks, pos: 0 };
        proof {
            assert(parser.remaining() =~= tokens_of(input));
        }
        let parse_result = parser.expr();
        match parse_result {
            Ok(e) => {
                let next = parser.take_next_token();
                match next {
                    Ok(token) => Err(trailing_msg(&token)),
                    Err(m) => Ok(e),
                }
            },
            Err(m) => Err(m),
        }
    }

    /// Sets up a parser directly over the tokens of `input`.
    pub fn from(input: &str) -> (p: Parser)
        ensures
            p.wf(),
            p.remaining() == tokens_of(input@),
    {
        let toks = collect_tokens(Tokenizer::new(input));
        let p = Parser { toks, pos: 0 };
        proof {
            assert(p.remaining() =~= tokens_of(input@));
        }
        p
    }
}

/// Internal-only parser methods to process the grammar via recursive descent.
impl Parser {
    // Expr -> AddSub
    pub fn expr(&mut self) -> (r: Result<Expr, String>)
        requires
            old(self).wf(),
        ensures
            final(self).wf(),
            final(self).toks == old(self).toks,
            old(self).pos <= final(self).pos,
            r is Ok ==> old(self).pos < final(self).pos,
            step_models(r, spec_expr(old(self).remaining()), final(self).remaining()),
        decreases old(self).toks@.len() - old(self).pos, 6int,
    {
        if self.pos < self.toks.len() {
            self.maybe_add_sub()
        } else {
            Err(end_of_input_msg())
        }
    }

    // Atom -> '(' Expr ')' | Number
    pub fn atom(&mut self) -> (r: Result<Expr, String>)
        requires
            old(self).wf(),
        ensures
            final(self).wf(),
            final(self).toks == old(self).toks,
            old(self).pos <= final(self).pos,
            r is Ok ==> old(self).pos < final(self).pos,
            step_models(r, spec_atom(old(self).remaining()), final(self).remaining()),
        decreases old(self).toks@.len() - old(self).pos, 1int,
    {
        let next = self.take_next_token();
        match next {
            Ok(Token::LeftParen) => {
                let inner = self.expr();
                match inner {
                    Ok(e) => {
                        let right_paren = self.consume_token(Token::RightParen);
                        match right_paren {
                            Ok(t) => Ok(e),
                            Err(m) => Err(m),
                        }
                    },
                    Err(m) => Err(m),
                }
            },
            Ok(Token::Number(n)) => Ok(num(n)),
            Ok(tok) => Err(unexpected_token_msg(&tok)),
            Err(m) => Err(m),
        }
    }

    // MaybeMulDiv -> Atom MulDivOp?
    pub fn maybe_mul_div(&mut self) -> (r: Result<Expr, String>)
        requires
            old(self).wf(),
        ensures
            final(self).wf(),
            final(self).toks == old(self).toks,
            old(self).pos <= final(self).pos,
            r is Ok ==> old(self).pos < final(self).pos,
            step_models(r, spec_maybe_mul_div(old(self).remaining()), final(self).remaining()),
        decreases old(self).toks@.len() - old(self).pos, 3int,
    {
        let lhs_result = self.atom();
        match lhs_result {
            Ok(lhs) => {
                let oper = self.peek_operator();
                match oper {
                    Some(op) => {
                        if op == '*' || op == '/' {
                            self.mul_div_op(lhs)
                        } else {
                            Ok(lhs)
                        }
                    },
                    None => Ok(lhs),
                }
            },
            Err(m) => Err(m),
        }
    }

    // MulDivOp -> ('*'|'/') Atom
    /// The `lhs` is passed in so that the syntax tree grows down the left.
    pub fn mul_div_op(&mut self, lhs: Expr) -> (r: Result<Expr, String>)
        requires
            old(self).wf(),
        ensures
            final(self).wf(),
            final(self).toks == old(self).toks,
            old(self).pos <= final(self).pos,
            step_models(r, spec_mul_div_op(old(self).remaining(), lhs@), final(self).remaining()),
        decreases old(self).toks@.len() - old(self).pos, 2int,
    {
        let op_result = self.take_operator();
        match op_result {
            Ok(op) => {
                let rhs_result = self.atom();
                match rhs_result {
                    Ok(rhs) => {
                        let bin = binop(lhs, op, rhs);
                        let oper = self.peek_operator();
                        match oper {
                            Some(op2) => {
                                if op2 == '*' || op2 == '/' {
                                    self.mul_div_op(bin)
                                } else {
                                    Ok(bin)
                                }
                            },
                            None => Ok(bin),
                        }
                    },
                    Err(m) => Err(m),
                }
            },
            Err(m) => Err(m),
        }
    }

    // MaybeAddSub -> MaybeMulDiv AddSubOp?
    pub fn maybe_add_sub(&mut self) -> (r: Result<Expr, String>)
        requires
            old(self).wf(),
        ensures
            final(self).wf(),
            final(self).toks == old(self).toks,
            old(self).pos <= final(self).pos,
            r is Ok ==> old(self).pos < final(self).pos,
            step_models(r, spec_maybe_add_sub(old(self).remaining()), final(self).remaining()),
        decreases old(self).toks@.len() - old(self).pos, 5int,
    {
        let lhs_result = self.maybe_mul_div();
        match lhs_result {
            Ok(lhs) => {
                let oper = self.peek_operator();
                match oper {
                    Some(op) => {
                        if op == '+' || op == '-' {
                            self.add_sub_op(lhs)
                        } else {
                            Ok(lhs)
                        }
                    },
                    None => Ok(lhs),
                }
            },
            Err(m) => Err(m),
        }
    }

    // AddSubOp -> ('+'|'-') MaybeMulDiv
    pub fn add_sub_op(&mut self, lhs: Expr) -> (r: Result<Expr, String>)
        requires
            old(self).wf(),
        ensures
            final(self).wf(),
            final(self).toks == old(self).toks,
            old(self).pos <= final(self).pos,
            step_models(r, spec_add_sub_op(old(self).remaining(), lhs@), final(self).remaining()),
        decreases old(self).toks@.len() - old(self).pos, 4int,
    {
        let op_result = self.take_operator();
        match op_result {
            Ok(op) => {
                let rhs_result = self.maybe_mul_div();
                match rhs_result {
                    Ok(rhs) => {
                        let bin = binop(lhs, op, rhs);
                        let oper = self.peek_operator();
                        match oper {
                            Some(op2) => {
                                if op2 == '+' || op2 == '-' {
                                    self.add_sub_op(bin)
                                } else {
                                    Ok(bin)
                                }
                            },
                            None => Ok(bin),
                        }
                    },
                    Err(m) => Err(m),
                }
            },
            Err(m) => Err(m),
        }
    }
}

/// Parser's helper methods to improve ergonomics of parsing.
impl Parser {
    /// Takes the next token, or reports that the input ended too early.
    pub fn take_next_token(&mut self) -> (r: Result<Token, String>)
        requires
            old(self).wf(),
        ensures
            final(self).wf(),
            final(self).toks == old(self).toks,
            if old(self).remaining().len() > 0 {
                &&& r matches Ok(t) && t@ == old(self).remaining()[0]
                &&& final(self).pos == old(self).pos + 1
                &&& final(self).remaining() == old(self).remaining().skip(1)
            } else {
                &&& r matches Err(m) && m@ == msg_unexpected_end()
                &&& *final(self) == *old(self)
            },
    {
        if self.pos < self.toks.len() {
            let t = self.toks[self.pos].clone();
            self.pos = self.pos + 1;
            proof {
                assert(old(self).remaining().skip(1) =~= final(self).remaining());
            }
            Ok(t)
        } else {
            Err(end_of_input_msg())
        }
    }

    /// Peeks: the operator under the cursor, if an operator is next.
    pub fn peek_operator(&mut self) -> (r: Option<char>)
        requires
            old(self).wf(),
        ensures
            *final(self) == *old(self),
            r == peeked_operator(old(self).remaining()),
    {
        if self.pos < self.toks.len() {
            match &self.toks[self.pos] {
                Token::Operator(op) => Some(*op),
                _ => None,
            }
        } else {
            None
        }
    }

    /// Takes a token that must be an operator, or reports what stood in
    /// its place.
    pub fn take_operator(&mut self) -> (r: Result<char, String>)
        requires
            old(self).wf(),
        ensures
            final(self).wf(),
            final(self).toks == old(self).toks,
            if old(self).remaining().len() == 0 {
                &&& r matches Err(m) && m@ == msg_expected_operator(None)
                &&& *final(self) == *old(self)
            } else {
                &&& final(self).pos == old(self).pos + 1
                &&& final(self).remaining() == old(self).remaining().skip(1)
                &&& match old(self).remaining()[0] {
                    TokenModel::Operator(op) => r matches Ok(c) && c == op,
                    _ => r matches Err(m) && m@ == msg_expected_operator(
                        Some(old(self).remaining()[0]),
                    ),
                }
            },
    {
        let token = self.take_next_token();
        match token {
            Ok(Token::Operator(op)) => Ok(op),
            Ok(tok) => Err(expected_operator_msg(&Some(tok))),
            Err(m) => Err(expected_operator_msg(&None)),
        }
    }

    /// Takes the next token, which must be exactly `expected`.
    pub fn consume_token(&mut self, expected: Token) -> (r: Result<Token, String>)
        requires
            old(self).wf(),
        ensures
            final(self).wf(),
            final(self).toks == old(self).toks,
            if old(self).remaining().len() == 0 {
                &&& r matches Err(m) && m@ == msg_unexpected_end()
                &&& *final(self) == *old(self)
            } else {
                &&& final(self).pos == old(self).pos + 1
                &&& final(self).remaining() == old(self).remaining().skip(1)
                &&& if old(self).remaining()[0] == expected@ {
                    r matches Ok(t) && t@ == expected@
                } else {
                    r matches Err(m) && m@ == msg_expected_found(
                        expected@,
                        old(self).remaining()[0],
                    )
                }
            },
    {
        let next = self.take_next_token();
        match next {
            Ok(tok) => {
                if tok.same_as(&expected) {
                    Ok(tok)
                } else {
                    Err(expected_found_msg(&expected, &tok))
                }
            },
            Err(m) => Err(m),
        }
    }
}

} // verus!
