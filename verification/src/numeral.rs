//! Decimal numerals.
//!
//! The calculator's numbers are decimal literals: a run of digits optionally
//! followed by `.` and another run of digits.  A `Numeral` stores such a
//! value in canonical form — no superfluous leading zeros in the integer
//! part, no trailing zeros in the fractional part — so that two numerals
//! denote the same decimal value exactly when they are equal field by field.
//! Rendering is pinned to this canonical form: `1.50` is displayed as `1.5`,
//! `007` as `7`, and a numeral without fractional digits is displayed without
//! a dot (`1`, not `1.0`).

use crate::text::push_char;
use vstd::prelude::*;

verus! {

/// The mathematical model of a numeral: the canonical digit sequences of its
/// integer and fractional parts.
pub struct NumeralModel {
    pub int_part: Seq<char>,
    pub frac_part: Seq<char>,
}

/// Whether `c` is an ASCII decimal digit.
pub open spec fn is_digit(c: char) -> bool {
    '0' as u32 <= c as u32 && c as u32 <= '9' as u32
}

/// Whether every character of `s` is an ASCII decimal digit.
pub open spec fn all_digits(s: Seq<char>) -> bool {
    forall|i: int| 0 <= i < s.len() ==> is_digit(#[trigger] s[i])
}

/// Strips superfluous leading zeros, keeping at least one digit.
pub open spec fn strip_leading_zeros(s: Seq<char>) -> Seq<char>
    decreases s.len(),
{
    if s.len() > 1 && s[0] == '0' {
        strip_leading_zeros(s.drop_first())
    } else {
        s
    }
}

/// Strips all trailing zeros.
pub open spec fn strip_trailing_zeros(s: Seq<char>) -> Seq<char>
    decreases s.len(),
{
    if s.len() > 0 && s.last() == '0' {
        strip_trailing_zeros(s.drop_last())
    } else {
        s
    }
}

/// The canonical-form invariant of a numeral.
pub open spec fn canonical(n: NumeralModel) -> bool {
    &&& n.int_part.len() > 0
    &&& all_digits(n.int_part)
    &&& (n.int_part.len() > 1 ==> n.int_part[0] != '0')
    &&& all_digits(n.frac_part)
    &&& (n.frac_part.len() > 0 ==> n.frac_part.last() != '0')
}

/// How a numeral is rendered inside generated postfix programs: the integer
/// digits, and the fractional digits after a dot only if there are any.
pub open spec fn display_chars(n: NumeralModel) -> Seq<char> {
    if n.frac_part.len() == 0 {
        n.int_part
    } else {
        n.int_part + seq!['.'] + n.frac_part
    }
}

/// How a numeral is rendered inside diagnostic messages: always with a dot,
/// with `0` standing in for an empty fractional part (`2` reads `2.0`).
pub open spec fn debug_chars(n: NumeralModel) -> Seq<char> {
    if n.frac_part.len() == 0 {
        n.int_part + seq!['.'] + seq!['0']
    } else {
        n.int_part + seq!['.'] + n.frac_part
    }
}

/// A decimal numeral in canonical form.
#[derive(Debug, PartialEq)]
pub struct Numeral {
    pub int_part: Vec<char>,
    pub frac_part: Vec<char>,
}

impl View for Numeral {
    type V = NumeralModel;

    open spec fn view(&self) -> NumeralModel {
        NumeralModel { int_part: self.int_part@, frac_part: self.frac_part@ }
    }
}

pub proof fn lemma_strip_leading_zeros_canonical(s: Seq<char>)
    requires
        s.len() > 0,
        all_digits(s),
    ensures
        strip_leading_zeros(s).len() > 0,
        all_digits(strip_leading_zeros(s)),
        strip_leading_zeros(s).len() > 1 ==> strip_leading_zeros(s)[0] != '0',
    decreases s.len(),
{
    if s.len() > 1 && s[0] == '0' {
        assert(all_digits(s.drop_first())) by {
            assert(forall|i: int| 0 <= i < s.drop_first().len() ==> #[trigger] s.drop_first()[i]
                == s[i + 1]);
        }
        lemma_strip_leading_zeros_canonical(s.drop_first());
    }
}

pub proof fn lemma_strip_trailing_zeros_canonical(s: Seq<char>)
    requires
        all_digits(s),
    ensures
        all_digits(strip_trailing_zeros(s)),
        strip_trailing_zeros(s).len() > 0 ==> strip_trailing_zeros(s).last() != '0',
    decreases s.len(),
{
    if s.len() > 0 && s.last() == '0' {
        assert(all_digits(s.drop_last())) by {
            assert(forall|i: int| 0 <= i < s.drop_last().len() ==> #[trigger] s.drop_last()[i]
                == s[i]);
        }
        lemma_strip_trailing_zeros_canonical(s.drop_last());
    }
}

impl Numeral {
    /// The canonical-form invariant, lifted to the executable type.
    pub open spec fn wf(&self) -> bool {
        canonical(self@)
    }

    /// Builds the canonical numeral for the raw digit runs of a literal.
    pub fn new(int_digits: Vec<char>, frac_digits: Vec<char>) -> (n: Numeral)
        requires
            int_digits@.len() > 0,
            all_digits(int_digits@),
            all_digits(frac_digits@),
        ensures
            n@.int_part == strip_leading_zeros(int_digits@),
            n@.frac_part == strip_trailing_zeros(frac_digits@),
            n.wf(),
    {
        let mut start: usize = 0;
        proof {
            assert(int_digits@.skip(0) =~= int_digits@);
        }
        while start + 1 < int_digits.len() && int_digits[start] == '0'
            invariant
                start < int_digits.len(),
                strip_leading_zeros(int_digits@) == strip_leading_zeros(
                    int_digits@.skip(start as int),
                ),
            decreases int_digits.len() - start,
        {
            proof {
                assert(int_digits@.skip(start as int).drop_first() =~= int_digits@.skip(
                    start as int + 1,
                ));
            }
            start = start + 1;
        }
        let mut int_part: Vec<char> = Vec::new();
        let mut j: usize = start;
        while j < int_digits.len()
            invariant
                start <= j <= int_digits.len(),
                int_part@ == int_digits@.subrange(start as int, j as int),
            decreases int_digits.len() - j,
        {
            int_part.push(int_digits[j]);
            proof {
                assert(int_digits@.subrange(start as int, j as int).push(int_digits@[j as int])
                    =~= int_digits@.subrange(start as int, j as int + 1));
            }
            j = j + 1;
        }
        proof {
            assert(int_digits@.subrange(start as int, int_digits@.len() as int) =~= int_digits@.skip(
                start as int,
            ));
            assert(strip_leading_zeros(int_digits@.skip(start as int)) == int_digits@.skip(
                start as int,
            ));
            lemma_strip_leading_zeros_canonical(int_digits@);
        }
        let mut frac_part = frac_digits;
        while frac_part.len() > 0 && frac_part[frac_part.len() - 1] == '0'
            invariant
                strip_trailing_zeros(frac_digits@) == strip_trailing_zeros(frac_part@),
            decreases frac_part.len(),
        {
            frac_part.pop();
        }
        proof {
            assert(strip_trailing_zeros(frac_part@) == frac_part@);
            lemma_strip_trailing_zeros_canonical(frac_digits@);
        }
        Numeral { int_part, frac_part }
    }

    /// Renders the numeral as it appears in generated postfix programs.
    pub fn display_text(&self) -> (s: String)
        ensures
            s@ == display_chars(self@),
    {
        let mut s = String::new();
        crate::text::append_chars(&mut s, &self.int_part);
        if self.frac_part.len() > 0 {
            push_char(&mut s, '.');
            crate::text::append_chars(&mut s, &self.frac_part);
        }
        proof {
            assert(s@ =~= display_chars(self@));
        }
        s
    }

    /// Renders the numeral as it appears in diagnostic messages.
    pub fn debug_text(&self) -> (s: String)
        ensures
            s@ == debug_chars(self@),
    {
        let mut s = String::new();
        crate::text::append_chars(&mut s, &self.int_part);
        push_char(&mut s, '.');
        if self.frac_part.len() > 0 {
            crate::text::append_chars(&mut s, &self.frac_part);
        } else {
            push_char(&mut s, '0');
        }
        proof {
            assert(s@ =~= debug_chars(self@));
        }
        s
    }
}

/// Compares two character vectors element by element.
pub fn chars_eq(a: &Vec<char>, b: &Vec<char>) -> (r: bool)
    ensures
        r == (a@ == b@),
{
    if a.len() != b.len() {
        proof {
            if a@ == b@ {
                assert(a@.len() == b@.len());
            }
        }
        return false;
    }
    let mut i: usize = 0;
    while i < a.len()
        invariant
            i <= a@.len(),
            a@.len() == b@.len(),
            forall|j: int| 0 <= j < i ==> a@[j] == b@[j],
        decreases a@.len() - i,
    {
        if a[i] != b[i] {
            proof {
                if a@ == b@ {
                    assert(a@[i as int] == b@[i as int]);
                }
            }
            return false;
        }
        i = i + 1;
    }
    proof {
        assert(a@ =~= b@);
    }
    true
}

impl Numeral {
    /// Whether two numerals denote the same decimal value; in canonical
    /// form that is exactly equality of the digit sequences.
    pub fn same_as(&self, other: &Numeral) -> (r: bool)
        ensures
            r == (self@ == other@),
    {
        let r = chars_eq(&self.int_part, &other.int_part) && chars_eq(
            &self.frac_part,
            &other.frac_part,
        );
        proof {
            if self@ == other@ {
                assert(self@.int_part == other@.int_part);
            }
        }
        r
    }
}

impl Clone for Numeral {
    /// A clone of a numeral models the same numeral.
    fn clone(&self) -> (n: Numeral)
        ensures
            n@ == self@,
    {
        let n = Numeral { int_part: self.int_part.clone(), frac_part: self.frac_part.clone() };
        proof {
            assert(n.int_part@ =~= self.int_part@);
            assert(n.frac_part@ =~= self.frac_part@);
        }
        n
    }
}

} // verus!
