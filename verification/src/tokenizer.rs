//! Lexical analysis.
//!
//! A `Tokenizer` turns a line of input into a finite sequence of tokens,
//! produced one at a time.  Whitespace separates tokens and is skipped.
//! The token sequence of a string is pinned down by the spec function
//! `tokens_of`, so tokenizing is a pure function of the input text.

use crate::numeral::all_digits;
use crate::numeral::canonical;
use crate::numeral::is_digit;
use crate::numeral::strip_leading_zeros;
use crate::numeral::strip_trailing_zeros;
use crate::numeral::Numeral;
use crate::numeral::NumeralModel;
use vstd::prelude::*;
use vstd::string::StrSliceExecFns;

verus! {

/// The model of a token: one lexical unit of the calculator's language.
pub enum TokenModel {
    Unknown(char),
    Operator(char),
    Number(NumeralModel),
    Register(char),
    Assignment,
    LeftParen,
    RightParen,
}

/// One lexical unit: an operator, a numeric literal, a parenthesis, a
/// register name, the assignment mark, or an unrecognized character
/// (kept so the parser can report it).
#[derive(Debug, PartialEq)]
pub enum Token {
    Unknown(char),
    Operator(char),
    Number(Numeral),
    Register(char),
    Assignment,
    LeftParen,
    RightParen,
}

impl View for Token {
    type V = TokenModel;

    open spec fn view(&self) -> TokenModel {
        match self {
            Token::Unknown(c) => TokenModel::Unknown(*c),
            Token::Operator(c) => TokenModel::Operator(*c),
            Token::Number(n) => TokenModel::Number(n@),
            Token::Register(c) => TokenModel::Register(*c),
            Token::Assignment => TokenModel::Assignment,
            Token::LeftParen => TokenModel::LeftParen,
            Token::RightParen => TokenModel::RightParen,
        }
    }
}

/// A token is well formed when any numeral it carries is canonical and
/// any operator it carries is one of the five operator characters.
pub open spec fn token_wf(t: TokenModel) -> bool {
    match t {
        TokenModel::Number(n) => canonical(n),
        TokenModel::Operator(c) => is_operator_char(c),
        _ => true,
    }
}

impl Token {
    /// Well-formedness of the executable token.
    pub open spec fn wf(&self) -> bool {
        token_wf(self@)
    }

    /// Whether two tokens model the same lexical unit.
    pub fn same_as(&self, other: &Token) -> (r: bool)
        ensures
            r == (self@ == other@),
    {
        match (self, other) {
            (Token::Unknown(a), Token::Unknown(b)) => *a == *b,
            (Token::Operator(a), Token::Operator(b)) => *a == *b,
            (Token::Number(a), Token::Number(b)) => a.same_as(b),
            (Token::Register(a), Token::Register(b)) => *a == *b,
            (Token::Assignment, Token::Assignment) => true,
            (Token::LeftParen, Token::LeftParen) => true,
            (Token::RightParen, Token::RightParen) => true,
            _ => false,
        }
    }
}

impl Clone for Token {
    /// A clone of a token models the same token.
    fn clone(&self) -> (t: Token)
        ensures
            t@ == self@,
    {
        match self {
            Token::Unknown(c) => Token::Unknown(*c),
            Token::Operator(c) => Token::Operator(*c),
            Token::Number(n) => Token::Number(n.clone()),
            Token::Register(c) => Token::Register(*c),
            Token::Assignment => Token::Assignment,
            Token::LeftParen => Token::LeftParen,
            Token::RightParen => Token::RightParen,
        }
    }
}

pub open spec fn is_whitespace_char(c: char) -> bool {
    c == ' ' || c == '\t' || c == '\n'
}

pub open spec fn is_operator_char(c: char) -> bool {
    c == '+' || c == '-' || c == '*' || c == '/' || c == '^'
}

pub open spec fn is_register_char(c: char) -> bool {
    'a' as u32 <= c as u32 && c as u32 <= 'z' as u32
}

/// The input with its leading whitespace removed.
pub open spec fn skip_whitespace(s: Seq<char>) -> Seq<char>
    decreases s.len(),
{
    if s.len() > 0 && is_whitespace_char(s[0]) {
        skip_whitespace(s.drop_first())
    } else {
        s
    }
}

/// The length of the maximal run of digits at the front of the input.
pub open spec fn digit_run_len(s: Seq<char>) -> nat
    decreases s.len(),
{
    if s.len() > 0 && is_digit(s[0]) {
        (1 + digit_run_len(s.drop_first())) as nat
    } else {
        0
    }
}

/// How many characters a numeric literal starting at the front of `s`
/// occupies: a digit run, optionally followed by a dot and a second run.
pub open spec fn number_len(s: Seq<char>) -> nat {
    let d = digit_run_len(s);
    if d < s.len() && s[d as int] == '.' {
        (d + 1 + digit_run_len(s.skip(d as int + 1))) as nat
    } else {
        d
    }
}

/// The number token lexed from the front of `s` (which must start with a
/// digit): its digit runs, brought to canonical form.
pub open spec fn number_token(s: Seq<char>) -> TokenModel {
    let d = digit_run_len(s);
    let frac_raw = if d < s.len() && s[d as int] == '.' {
        let s2 = s.skip(d as int + 1);
        s2.take(digit_run_len(s2) as int)
    } else {
        Seq::<char>::empty()
    };
    TokenModel::Number(
        NumeralModel {
            int_part: strip_leading_zeros(s.take(d as int)),
            frac_part: strip_trailing_zeros(frac_raw),
        },
    )
}

/// The first token of the input and the input that remains after it,
/// or `None` when only whitespace is left.
pub open spec fn next_token(s: Seq<char>) -> Option<(TokenModel, Seq<char>)> {
    let t = skip_whitespace(s);
    if t.len() == 0 {
        None
    } else {
        let c = t[0];
        if is_operator_char(c) {
            Some((TokenModel::Operator(c), t.skip(1)))
        } else if c == '=' {
            Some((TokenModel::Assignment, t.skip(1)))
        } else if is_digit(c) {
            Some((number_token(t), t.skip(number_len(t) as int)))
        } else if is_register_char(c) {
            Some((TokenModel::Register(c), t.skip(1)))
        } else if c == '(' {
            Some((TokenModel::LeftParen, t.skip(1)))
        } else if c == ')' {
            Some((TokenModel::RightParen, t.skip(1)))
        } else {
            Some((TokenModel::Unknown(c), t.skip(1)))
        }
    }
}

/// The full token sequence of the input.
pub open spec fn tokens_of(s: Seq<char>) -> Seq<TokenModel>
    decreases s.len(),
    via tokens_of_decreases
{
    if s.len() > 0 && is_whitespace_char(s[0]) {
        tokens_of(s.drop_first())
    } else {
        match next_token(s) {
            None => Seq::empty(),
            Some((t, rest)) => seq![t] + tokens_of(rest),
        }
    }
}

#[via_fn]
proof fn tokens_of_decreases(s: Seq<char>) {
    lemma_next_token_shrinks(s);
}

pub proof fn lemma_skip_whitespace_len(s: Seq<char>)
    ensures
        skip_whitespace(s).len() <= s.len(),
    decreases s.len(),
{
    if s.len() > 0 && is_whitespace_char(s[0]) {
        lemma_skip_whitespace_len(s.drop_first());
    }
}

pub proof fn lemma_digit_run_len_le(s: Seq<char>)
    ensures
        digit_run_len(s) <= s.len(),
    decreases s.len(),
{
    if s.len() > 0 && is_digit(s[0]) {
        lemma_digit_run_len_le(s.drop_first());
    }
}

/// The digit run really is made of digits.
pub proof fn lemma_digit_run_digits(s: Seq<char>)
    ensures
        digit_run_len(s) <= s.len(),
        all_digits(s.take(digit_run_len(s) as int)),
    decreases s.len(),
{
    lemma_digit_run_len_le(s);
    if s.len() > 0 && is_digit(s[0]) {
        lemma_digit_run_digits(s.drop_first());
        let d = digit_run_len(s);
        assert forall|i: int| 0 <= i < s.take(d as int).len() implies is_digit(
            #[trigger] s.take(d as int)[i],
        ) by {
            if i > 0 {
                assert(s.take(d as int)[i] == s.drop_first().take(d as int - 1)[i - 1]);
            }
        }
    }
}

/// When `next_token` yields a token, it consumes at least one character.
pub proof fn lemma_next_token_shrinks(s: Seq<char>)
    ensures
        next_token(s) matches Some(pair) ==> pair.1.len() < s.len(),
{
    lemma_skip_whitespace_len(s);
    let t = skip_whitespace(s);
    if t.len() > 0 && is_digit(t[0]) {
        lemma_digit_run_len_le(t);
        let d = digit_run_len(t);
        if d < t.len() && t[d as int] == '.' {
            lemma_digit_run_len_le(t.skip(d as int + 1));
        }
    }
}

/// Every token that `next_token` yields is well formed.
pub proof fn lemma_next_token_wf(s: Seq<char>)
    ensures
        next_token(s) matches Some(pair) ==> token_wf(pair.0),
{
    let t = skip_whitespace(s);
    if t.len() > 0 && is_digit(t[0]) {
        lemma_digit_run_digits(t);
        let d = digit_run_len(t);
        crate::numeral::lemma_strip_leading_zeros_canonical(t.take(d as int));
        if d < t.len() && t[d as int] == '.' {
            let s2 = t.skip(d as int + 1);
            lemma_digit_run_digits(s2);
            crate::numeral::lemma_strip_trailing_zeros_canonical(
                s2.take(digit_run_len(s2) as int),
            );
        } else {
            crate::numeral::lemma_strip_trailing_zeros_canonical(Seq::<char>::empty());
        }
    }
}

/// `tokens_of` agrees with repeatedly taking `next_token`.
pub proof fn lemma_tokens_of_next(s: Seq<char>)
    ensures
        next_token(s) is None ==> tokens_of(s) == Seq::<TokenModel>::empty(),
        next_token(s) matches Some(pair) ==> tokens_of(s) == seq![pair.0] + tokens_of(pair.1),
    decreases s.len(),
{
    if s.len() > 0 && is_whitespace_char(s[0]) {
        lemma_tokens_of_next(s.drop_first());
    }
}

/// Every token of a token sequence is well formed.
pub proof fn lemma_tokens_of_wf(s: Seq<char>)
    ensures
        forall|i: int| 0 <= i < tokens_of(s).len() ==> token_wf(#[trigger] tokens_of(s)[i]),
    decreases s.len(),
{
    if s.len() > 0 && is_whitespace_char(s[0]) {
        lemma_tokens_of_wf(s.drop_first());
        assert(tokens_of(s) == tokens_of(s.drop_first()));
        assert forall|i: int| 0 <= i < tokens_of(s).len() implies token_wf(
            #[trigger] tokens_of(s)[i],
        ) by {
            assert(token_wf(tokens_of(s.drop_first())[i]));
        }
    } else {
        match next_token(s) {
            None => {
            },
            Some(pair) => {
                lemma_next_token_wf(s);
                lemma_next_token_shrinks(s);
                lemma_tokens_of_wf(pair.1);
                assert(tokens_of(s) == seq![pair.0] + tokens_of(pair.1));
                assert forall|i: int| 0 <= i < tokens_of(s).len() implies token_wf(
                    #[trigger] tokens_of(s)[i],
                ) by {
                    if i == 0 {
                        assert(tokens_of(s)[i] == pair.0);
                    } else {
                        assert(tokens_of(s)[i] == tokens_of(pair.1)[i - 1]);
                        assert(token_wf(tokens_of(pair.1)[i - 1]));
                    }
                }
            },
        }
    }
}

/// Re-tokenization law: the token sequence is a function of the input text
/// alone — `Tokenizer::next` returns exactly the tokens of `tokens_of`, so
/// two fresh tokenizers over equal strings yield identical token sequences.
pub proof fn lemma_retokenize_deterministic(s1: Seq<char>, s2: Seq<char>)
    requires
        s1 == s2,
    ensures
        tokens_of(s1) == tokens_of(s2),
{
}

/// The internal state of a tokenizer: the input characters and a cursor.
pub struct Tokenizer {
    pub chars: Vec<char>,
    pub pos: usize,
}

impl Tokenizer {
    pub closed spec fn wf(&self) -> bool {
        self.pos <= self.chars@.len()
    }

    /// The input that has not been consumed yet.
    pub closed spec fn remaining(&self) -> Seq<char> {
        self.chars@.skip(self.pos as int)
    }

    /// Sets up a tokenizer over the characters of `input`.
    pub fn new(input: &str) -> (t: Tokenizer)
        ensures
            t.wf(),
            t.remaining() == input@,
    {
        let n = input.unicode_len();
        let mut chars: Vec<char> = Vec::new();
        let mut i: usize = 0;
        while i < n
            invariant
                i <= n,
                n == input@.len(),
                chars@ == input@.take(i as int),
            decreases n - i,
        {
            chars.push(input.get_char(i));
            proof {
                assert(input@.take(i as int).push(input@[i as int]) =~= input@.take(i as int + 1));
            }
            i = i + 1;
        }
        proof {
            assert(input@.take(n as int) =~= input@);
            assert(chars@.skip(0) =~= chars@);
        }
        Tokenizer { chars, pos: 0 }
    }

    /// Skips leading whitespace and returns the next complete token, or
    /// `None` when no input remains.
    pub fn next(&mut self) -> (t: Option<Token>)
        requires
            old(self).wf(),
        ensures
            final(self).wf(),
            match next_token(old(self).remaining()) {
                None => {
                    &&& t is None
                    &&& final(self).remaining().len() == 0
                    &&& tokens_of(old(self).remaining()) == Seq::<TokenModel>::empty()
                },
                Some(pair) => {
                    &&& t matches Some(tok) && tok@ == pair.0 && tok.wf()
                    &&& final(self).remaining() == pair.1
                    &&& pair.1.len() < old(self).remaining().len()
                    &&& tokens_of(old(self).remaining()) == seq![pair.0] + tokens_of(pair.1)
                },
            },
    {
        proof {
            lemma_next_token_shrinks(old(self).remaining());
            lemma_next_token_wf(old(self).remaining());
            lemma_tokens_of_next(old(self).remaining());
        }
        self.lex_whitespace();
        if self.pos < self.chars.len() {
            let c = self.chars[self.pos];
            let u = c as u32;
            Some(
                if c == '+' || c == '-' || c == '*' || c == '/' || c == '^' {
                    self.lex_operator()
                } else if c == '=' {
                    self.lex_assignment()
                } else if '0' as u32 <= u && u <= '9' as u32 {
                    self.lex_number()
                } else if 'a' as u32 <= u && u <= 'z' as u32 {
                    self.lex_register()
                } else if c == '(' || c == ')' {
                    self.lex_paren()
                } else {
                    self.lex_unknown()
                },
            )
        } else {
            None
        }
    }

    /// Consumes leading whitespace characters.
    pub fn lex_whitespace(&mut self)
        requires
            old(self).wf(),
        ensures
            final(self).wf(),
            final(self).chars == old(self).chars,
            old(self).pos <= final(self).pos,
            final(self).remaining() == skip_whitespace(old(self).remaining()),
    {
        while self.pos < self.chars.len() && (self.chars[self.pos] == ' ' || self.chars[self.pos]
            == '\t' || self.chars[self.pos] == '\n')
            invariant
                old(self).wf(),
                self.wf(),
                self.chars == old(self).chars,
                old(self).pos <= self.pos,
                skip_whitespace(old(self).remaining()) == skip_whitespace(self.remaining()),
            decreases self.chars@.len() - self.pos,
        {
            proof {
                assert(self.remaining().drop_first() =~= self.chars@.skip(self.pos as int + 1));
            }
            self.pos = self.pos + 1;
        }
    }

    /// Consumes one operator character.
    fn lex_operator(&mut self) -> (t: Token)
        requires
            old(self).wf(),
            old(self).remaining().len() > 0,
            is_operator_char(old(self).remaining()[0]),
        ensures
            final(self).wf(),
            final(self).chars == old(self).chars,
            t@ == TokenModel::Operator(old(self).remaining()[0]),
            final(self).remaining() == old(self).remaining().skip(1),
    {
        proof {
            assert(self.chars@.len() == self.chars.len());
            assert(old(self).remaining().len() == self.chars@.len() - self.pos);
        }
        let c = self.chars[self.pos];
        self.pos = self.pos + 1;
        proof {
            assert(old(self).remaining().skip(1) =~= self.chars@.skip(self.pos as int));
        }
        Token::Operator(c)
    }

    /// Consumes the assignment mark.
    fn lex_assignment(&mut self) -> (t: Token)
        requires
            old(self).wf(),
            old(self).remaining().len() > 0,
            old(self).remaining()[0] == '=',
        ensures
            final(self).wf(),
            final(self).chars == old(self).chars,
            t@ == TokenModel::Assignment,
            final(self).remaining() == old(self).remaining().skip(1),
    {
        proof {
            assert(self.chars@.len() == self.chars.len());
            assert(old(self).remaining().len() == self.chars@.len() - self.pos);
        }
        self.pos = self.pos + 1;
        proof {
            assert(old(self).remaining().skip(1) =~= self.chars@.skip(self.pos as int));
        }
        Token::Assignment
    }

    /// Consumes one register name character.
    fn lex_register(&mut self) -> (t: Token)
        requires
            old(self).wf(),
            old(self).remaining().len() > 0,
            is_register_char(old(self).remaining()[0]),
        ensures
            final(self).wf(),
            final(self).chars == old(self).chars,
            t@ == TokenModel::Register(old(self).remaining()[0]),
            final(self).remaining() == old(self).remaining().skip(1),
    {
        proof {
            assert(self.chars@.len() == self.chars.len());
            assert(old(self).remaining().len() == self.chars@.len() - self.pos);
        }
        let c = self.chars[self.pos];
        self.pos = self.pos + 1;
        proof {
            assert(old(self).remaining().skip(1) =~= self.chars@.skip(self.pos as int));
        }
        Token::Register(c)
    }

    /// Consumes one parenthesis.
    fn lex_paren(&mut self) -> (t: Token)
        requires
            old(self).wf(),
            old(self).remaining().len() > 0,
            old(self).remaining()[0] == '(' || old(self).remaining()[0] == ')',
        ensures
            final(self).wf(),
            final(self).chars == old(self).chars,
            t@ == (if old(self).remaining()[0] == '(' {
                TokenModel::LeftParen
            } else {
                TokenModel::RightParen
            }),
            final(self).remaining() == old(self).remaining().skip(1),
    {
        proof {
            assert(self.chars@.len() == self.chars.len());
            assert(old(self).remaining().len() == self.chars@.len() - self.pos);
        }
        let c = self.chars[self.pos];
        self.pos = self.pos + 1;
        proof {
            assert(old(self).remaining().skip(1) =~= self.chars@.skip(self.pos as int));
        }
        if c == '(' {
            Token::LeftParen
        } else {
            Token::RightParen
        }
    }

    /// Consumes one unrecognized character, keeping it for error reports.
    fn lex_unknown(&mut self) -> (t: Token)
        requires
            old(self).wf(),
            old(self).remaining().len() > 0,
        ensures
            final(self).wf(),
            final(self).chars == old(self).chars,
            t@ == TokenModel::Unknown(old(self).remaining()[0]),
            final(self).remaining() == old(self).remaining().skip(1),
    {
        proof {
            assert(self.chars@.len() == self.chars.len());
            assert(old(self).remaining().len() == self.chars@.len() - self.pos);
        }
        let c = self.chars[self.pos];
        self.pos = self.pos + 1;
        proof {
            assert(old(self).remaining().skip(1) =~= self.chars@.skip(self.pos as int));
        }
        Token::Unknown(c)
    }

    /// Consumes a numeric literal: digits, optionally a dot and more digits.
    fn lex_number(&mut self) -> (t: Token)
        requires
            old(self).wf(),
            old(self).remaining().len() > 0,
            is_digit(old(self).remaining()[0]),
        ensures
            final(self).wf(),
            final(self).chars == old(self).chars,
            t@ == number_token(old(self).remaining()),
            final(self).remaining() == old(self).remaining().skip(
                number_len(old(self).remaining()) as int,
            ),
    {
        proof {
            lemma_digit_run_digits(old(self).remaining());
        }
        let ghost rem = old(self).remaining();
        let ghost d: nat = digit_run_len(rem);
        let mut int_digits: Vec<char> = Vec::new();
        self.lex_digits(&mut int_digits);
        proof {
            assert(int_digits@ =~= rem.take(d as int));
            assert(self.remaining().len() == self.chars@.len() - self.pos);
            assert(rem.skip(d as int).len() == rem.len() - d);
            assert(self.pos == old(self).pos + d);
        }
        if self.pos < self.chars.len() && self.chars[self.pos] == '.' {
            proof {
                assert(self.remaining()[0] == rem.skip(d as int)[0]);
                assert(rem[d as int] == '.');
            }
            self.pos = self.pos + 1;
            proof {
                assert(self.chars@.skip(self.pos as int) =~= rem.skip(d as int + 1));
                lemma_digit_run_digits(rem.skip(d as int + 1));
            }
            let mut frac_digits: Vec<char> = Vec::new();
            self.lex_digits(&mut frac_digits);
            proof {
                let s2 = rem.skip(d as int + 1);
                assert(frac_digits@ =~= s2.take(digit_run_len(s2) as int));
                assert(self.chars@.skip(self.pos as int) =~= rem.skip(number_len(rem) as int));
            }
            Token::Number(Numeral::new(int_digits, frac_digits))
        } else {
            proof {
                if d < rem.len() {
                    assert(self.remaining()[0] == rem.skip(d as int)[0]);
                    assert(rem[d as int] != '.');
                }
                assert(strip_trailing_zeros(Seq::<char>::empty()) == Seq::<char>::empty());
                assert(number_len(rem) == d);
            }
            let frac_digits: Vec<char> = Vec::new();
            Token::Number(Numeral::new(int_digits, frac_digits))
        }
    }

    /// Appends the maximal run of digits at the cursor to `buffer`.
    pub fn lex_digits(&mut self, buffer: &mut Vec<char>)
        requires
            old(self).wf(),
        ensures
            final(self).wf(),
            final(self).chars == old(self).chars,
            old(self).pos <= final(self).pos,
            final(buffer)@ == old(buffer)@ + old(self).remaining().take(
                digit_run_len(old(self).remaining()) as int,
            ),
            final(self).remaining() == old(self).remaining().skip(
                digit_run_len(old(self).remaining()) as int,
            ),
    {
        proof {
            lemma_digit_run_len_le(old(self).remaining());
            assert(old(self).remaining().skip(0) =~= old(self).remaining());
            assert(buffer@ =~= old(buffer)@ + old(self).remaining().take(0));
        }
        while self.pos < self.chars.len() && '0' as u32 <= self.chars[self.pos] as u32
            && self.chars[self.pos] as u32 <= '9' as u32
            invariant
                old(self).wf(),
                self.wf(),
                self.chars == old(self).chars,
                old(self).pos <= self.pos,
                digit_run_len(old(self).remaining()) == self.pos - old(self).pos + digit_run_len(
                    self.remaining(),
                ),
                buffer@ == old(buffer)@ + old(self).remaining().take(
                    (self.pos - old(self).pos) as int,
                ),
                self.remaining() == old(self).remaining().skip((self.pos - old(self).pos) as int),
            decreases self.chars@.len() - self.pos,
        {
            buffer.push(self.chars[self.pos]);
            proof {
                let k: int = self.pos - old(self).pos;
                let cur = self.remaining();
                assert(cur[0] == old(self).remaining()[k]);
                assert(old(self).remaining().take(k).push(old(self).remaining()[k]) =~= old(
                    self,
                ).remaining().take(k + 1));
                assert(cur.drop_first() =~= self.chars@.skip(self.pos as int + 1));
                assert(cur.drop_first() =~= old(self).remaining().skip(k + 1));
                assert(digit_run_len(cur) == 1 + digit_run_len(cur.drop_first()));
            }
            self.pos = self.pos + 1;
        }
    }
}

} // verus!
