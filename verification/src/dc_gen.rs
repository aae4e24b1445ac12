//! Postfix code generation.
//!
//! `to_dc` walks an expression tree in post order and emits a stack-machine
//! program: operands and operators separated by exactly one space, closed by
//! the print instruction `p` with no trailing space.  The output is pinned
//! down symbol by symbol: `postfix_syms` lists the symbols a tree emits, and
//! `dc_chars` renders them.  Generation is total — it never fails.

use crate::numeral::display_chars;
use crate::numeral::NumeralModel;
use crate::parser::leaves;
use crate::parser::numerals_of;
use crate::parser::spec_parse_text;
use crate::parser::Expr;
use crate::parser::ExprModel;
use crate::parser::Parser;
use crate::text::push_char;
use crate::tokenizer::tokens_of;
use crate::tokenizer::Tokenizer;
use vstd::prelude::*;
use vstd::string::StringExecFns;

verus! {

/// One symbol of a postfix program: an operand or an operator.
pub enum PostfixSym {
    Operand(NumeralModel),
    Operator(char),
}

/// The postfix symbol sequence of a tree: left subtree, right subtree,
/// then the operator.
pub open spec fn postfix_syms(e: ExprModel) -> Seq<PostfixSym>
    decreases e,
{
    match e {
        ExprModel::Num(n) => seq![PostfixSym::Operand(n)],
        ExprModel::BinOp { lhs, op, rhs } => postfix_syms(*lhs) + postfix_syms(*rhs)
            + seq![PostfixSym::Operator(op)],
    }
}

/// How one symbol is spelled.
pub open spec fn sym_chars(s: PostfixSym) -> Seq<char> {
    match s {
        PostfixSym::Operand(n) => display_chars(n),
        PostfixSym::Operator(c) => seq![c],
    }
}

/// Symbols spelled out, each followed by one space.
pub open spec fn render_syms(syms: Seq<PostfixSym>) -> Seq<char>
    decreases syms.len(),
{
    if syms.len() == 0 {
        Seq::empty()
    } else {
        sym_chars(syms[0]) + seq![' '] + render_syms(syms.drop_first())
    }
}

/// The full program text of a tree: its symbols, then `p`.
pub open spec fn dc_chars(e: ExprModel) -> Seq<char> {
    render_syms(postfix_syms(e)) + seq!['p']
}

/// Rendering distributes over concatenation of symbol sequences.
pub proof fn lemma_render_syms_concat(a: Seq<PostfixSym>, b: Seq<PostfixSym>)
    ensures
        render_syms(a + b) == render_syms(a) + render_syms(b),
    decreases a.len(),
{
    if a.len() == 0 {
        assert(a + b =~= b);
        assert(render_syms(a) + render_syms(b) =~= render_syms(b));
    } else {
        lemma_render_syms_concat(a.drop_first(), b);
        assert((a + b).drop_first() =~= a.drop_first() + b);
        assert((a + b)[0] == a[0]);
        assert(sym_chars(a[0]) + seq![' '] + (render_syms(a.drop_first()) + render_syms(b)) =~= (
        sym_chars(a[0]) + seq![' '] + render_syms(a.drop_first())) + render_syms(b));
    }
}

/// The operands of a postfix program, in order of appearance.
pub open spec fn operands_of(syms: Seq<PostfixSym>) -> Seq<NumeralModel>
    decreases syms.len(),
{
    if syms.len() == 0 {
        Seq::empty()
    } else {
        (match syms[0] {
            PostfixSym::Operand(n) => seq![n],
            PostfixSym::Operator(c) => Seq::<NumeralModel>::empty(),
        }) + operands_of(syms.drop_first())
    }
}

pub proof fn lemma_operands_of_concat(a: Seq<PostfixSym>, b: Seq<PostfixSym>)
    ensures
        operands_of(a + b) == operands_of(a) + operands_of(b),
    decreases a.len(),
{
    if a.len() == 0 {
        assert(a + b =~= b);
        assert(operands_of(a) + operands_of(b) =~= operands_of(b));
    } else {
        lemma_operands_of_concat(a.drop_first(), b);
        assert((a + b).drop_first() =~= a.drop_first() + b);
        assert((a + b)[0] == a[0]);
        assert((match a[0] {
            PostfixSym::Operand(n) => seq![n],
            PostfixSym::Operator(c) => Seq::<NumeralModel>::empty(),
        }) + (operands_of(a.drop_first()) + operands_of(b)) =~= ((match a[0] {
            PostfixSym::Operand(n) => seq![n],
            PostfixSym::Operator(c) => Seq::<NumeralModel>::empty(),
        }) + operands_of(a.drop_first())) + operands_of(b));
    }
}

/// The operands a tree emits are exactly its leaves, in order.
pub proof fn lemma_postfix_operands(e: ExprModel)
    ensures
        operands_of(postfix_syms(e)) == leaves(e),
    decreases e,
{
    assert(operands_of(Seq::<PostfixSym>::empty()) == Seq::<NumeralModel>::empty());
    match e {
        ExprModel::Num(n) => {
            let sy = seq![PostfixSym::Operand(n)];
            assert(sy.drop_first() =~= Seq::<PostfixSym>::empty());
            assert(operands_of(sy) =~= seq![n]);
        },
        ExprModel::BinOp { lhs, op, rhs } => {
            lemma_postfix_operands(*lhs);
            lemma_postfix_operands(*rhs);
            let so = seq![PostfixSym::Operator(op)];
            lemma_operands_of_concat(postfix_syms(*lhs) + postfix_syms(*rhs), so);
            lemma_operands_of_concat(postfix_syms(*lhs), postfix_syms(*rhs));
            assert(so.drop_first() =~= Seq::<PostfixSym>::empty());
            assert(operands_of(so) =~= Seq::<NumeralModel>::empty());
            assert(operands_of(postfix_syms(e)) =~= leaves(e));
        },
    }
}

/// Round-trip law: when a line parses, every numeral of the source appears
/// in the generated postfix program exactly once per occurrence, in the
/// same left-to-right order as in the input — the operands of the program
/// are the numerals of the token stream.
pub proof fn lemma_parse_preserves_numerals(s: Seq<char>)
    ensures
        spec_parse_text(s) matches Ok(e) ==> operands_of(postfix_syms(e)) == numerals_of(
            tokens_of(s),
        ),
{
    let toks = tokens_of(s);
    crate::parser::lemma_expr_numerals(toks);
    let step = crate::parser::spec_expr(toks);
    match spec_parse_text(s) {
        Ok(e) => {
            assert(step.rest.len() == 0);
            assert(toks.take(toks.len() as int) =~= toks);
            lemma_postfix_operands(e);
        },
        Err(m) => {
        },
    }
}

/// The whole pipeline on one line of input: tokenize and parse, then
/// render the postfix program of the tree.
pub open spec fn spec_pipeline(s: Seq<char>) -> Result<Seq<char>, Seq<char>> {
    match spec_parse_text(s) {
        Ok(e) => Ok(dc_chars(e)),
        Err(m) => Err(m),
    }
}

/// Determinism law: evaluating a line is a total function of its text —
/// `eval` returns exactly `spec_pipeline` of its input and never fails to
/// return, so equal inputs always yield equal postfix programs or equal
/// error messages.
pub proof fn lemma_pipeline_deterministic(s1: Seq<char>, s2: Seq<char>)
    requires
        s1 == s2,
    ensures
        spec_pipeline(s1) == spec_pipeline(s2),
{
}

/// The computing core of one evaluator step: parses `input` and renders
/// its postfix program, or reports the parse error.
pub fn eval(input: &str) -> (r: Result<String, String>)
    ensures
        match r {
            Ok(program) => spec_pipeline(input@) == Ok::<Seq<char>, Seq<char>>(program@),
            Err(message) => spec_pipeline(input@) == Err::<Seq<char>, Seq<char>>(message@),
        },
{
    match Parser::parse(Tokenizer::new(input)) {
        Ok(statement) => Ok(to_dc(&statement)),
        Err(msg) => Err(msg),
    }
}

/// Emits the postfix program of `expr`: operands and operators separated by
/// one space each, closed by the print instruction `p`.
pub fn to_dc(expr: &Expr) -> (s: String)
    ensures
        s@ == dc_chars(expr@),
{
    let mut output: String = recur_to_dc(expr);
    push_char(&mut output, 'p');
    proof {
        assert(output@ =~= dc_chars(expr@));
    }
    output
}

/// Emits the symbols of one subtree, each followed by a space.
fn recur_to_dc(expr: &Expr) -> (s: String)
    ensures
        s@ == render_syms(postfix_syms(expr@)),
    decreases expr,
{
    match expr {
        Expr::BinOp { lhs, op, rhs } => {
            let mut output = recur_to_dc(lhs);
            let right = recur_to_dc(rhs);
            output.append(right.as_str());
            push_char(&mut output, *op);
            push_char(&mut output, ' ');
            proof {
                let sl = postfix_syms(lhs@);
                let sr = postfix_syms(rhs@);
                let so = seq![PostfixSym::Operator(*op)];
                lemma_render_syms_concat(sl + sr, so);
                lemma_render_syms_concat(sl, sr);
                assert(so.drop_first() =~= Seq::<PostfixSym>::empty());
                assert(render_syms(Seq::<PostfixSym>::empty()) == Seq::<char>::empty());
                assert(render_syms(so) =~= seq![*op, ' ']);
                assert(postfix_syms(expr@) == (sl + sr) + so);
                assert(output@ =~= render_syms(postfix_syms(expr@)));
            }
            output
        },
        Expr::Num(n) => {
            let mut output = n.display_text();
            push_char(&mut output, ' ');
            proof {
                let sy = seq![PostfixSym::Operand(n@)];
                assert(sy.drop_first() =~= Seq::<PostfixSym>::empty());
                assert(render_syms(Seq::<PostfixSym>::empty()) == Seq::<char>::empty());
                assert(render_syms(sy) =~= display_chars(n@) + seq![' ']);
                assert(output@ =~= render_syms(postfix_syms(expr@)));
            }
            output
        },
    }
}

} // verus!
