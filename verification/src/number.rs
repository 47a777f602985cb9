//! Decimal literals.
//!
//! A coordinate is kept as the literal that was read, once it is known to
//! follow the grammar below. Turning a literal into a machine number is left
//! to the caller.
//!
//! ```text
//! number   ::= sign? ( special | decimal )
//! special  ::= "inf" | "infinity" | "nan"        letters in either case
//! decimal  ::= ( digit+ | digit+ "." digit* | digit* "." digit+ ) exponent?
//! exponent ::= ( "e" | "E" ) sign? digit+
//! sign     ::= "+" | "-"
//! digit    ::= "0" ... "9"
//! ```

use vstd::prelude::*;
use crate::text::{chars_of, is_space, is_word, string_of};

verus! {

/// A decimal digit.
pub open spec fn is_digit(c: char) -> bool {
    '0' <= c && c <= '9'
}

/// A plus or a minus sign.
pub open spec fn is_sign(c: char) -> bool {
    c == '+' || c == '-'
}

/// Where the run of digits that starts at `i` ends.
pub open spec fn digits_end(s: Seq<char>, i: int) -> int
    decreases s.len() - i,
{
    if 0 <= i < s.len() && is_digit(s[i]) {
        digits_end(s, i + 1)
    } else {
        i
    }
}

/// `s`, from `i` to its end, is an exponent.
pub open spec fn is_exponent(s: Seq<char>, i: int) -> bool {
    let j = if i + 1 < s.len() && is_sign(s[i + 1]) {
        i + 2
    } else {
        i + 1
    };
    &&& 0 <= i < s.len()
    &&& (s[i] == 'e' || s[i] == 'E')
    &&& j < s.len()
    &&& digits_end(s, j) == s.len()
}

/// `s`, from `i` to its end, is a decimal.
pub open spec fn is_decimal(s: Seq<char>, i: int) -> bool {
    let a = digits_end(s, i);
    let b = if a < s.len() && s[a] == '.' {
        digits_end(s, a + 1)
    } else {
        a
    };
    let digits = if b > a {
        (a - i) + (b - a - 1)
    } else {
        a - i
    };
    &&& digits > 0
    &&& (b == s.len() || is_exponent(s, b))
}

/// `s` spells a word whose letters are given in lower and in upper case.
pub open spec fn spells(s: Seq<char>, lower: Seq<char>, upper: Seq<char>) -> bool {
    &&& s.len() == lower.len()
    &&& forall|k: int| 0 <= k < s.len() ==> s[k] == lower[k] || s[k] == upper[k]
}

/// `s` spells infinity or not-a-number, in letters of either case.
pub open spec fn is_special(s: Seq<char>) -> bool {
    ||| spells(s, seq!['i', 'n', 'f'], seq!['I', 'N', 'F'])
    ||| spells(s, seq!['n', 'a', 'n'], seq!['N', 'A', 'N'])
    ||| spells(
        s,
        seq!['i', 'n', 'f', 'i', 'n', 'i', 't', 'y'],
        seq!['I', 'N', 'F', 'I', 'N', 'I', 'T', 'Y'],
    )
}

/// `s` follows the grammar of a number.
pub open spec fn is_number(s: Seq<char>) -> bool {
    let i: int = if s.len() > 0 && is_sign(s[0]) {
        1
    } else {
        0
    };
    is_special(s.skip(i)) || is_decimal(s, i)
}

/// A run of digits ends within the text, holds digits only, and is not
/// followed by a digit.
pub proof fn lemma_digits_end(s: Seq<char>, i: int)
    requires
        0 <= i <= s.len(),
    ensures
        i <= digits_end(s, i) <= s.len(),
        forall|k: int| i <= k < digits_end(s, i) ==> is_digit(#[trigger] s[k]),
        digits_end(s, i) < s.len() ==> !is_digit(s[digits_end(s, i)]),
    decreases s.len() - i,
{
    if i < s.len() && is_digit(s[i]) {
        lemma_digits_end(s, i + 1);
    }
}

/// A number is a word: it is not empty and holds no whitespace.
pub proof fn lemma_number_is_word(s: Seq<char>)
    requires
        is_number(s),
    ensures
        is_word(s),
{
    let i: int = if s.len() > 0 && is_sign(s[0]) {
        1
    } else {
        0
    };
    if is_special(s.skip(i)) {
        let t = s.skip(i);
        assert forall|k: int| 0 <= k < s.len() implies !is_space(#[trigger] s[k]) by {
            if k >= i {
                assert(s[k] == t[k - i]);
            }
        }
    } else {
        let a = digits_end(s, i);
        lemma_digits_end(s, i);
        if a < s.len() {
            lemma_digits_end(s, a + 1);
        }
        let b = if a < s.len() && s[a] == '.' {
            digits_end(s, a + 1)
        } else {
            a
        };
        if b < s.len() {
            let j = if b + 1 < s.len() && is_sign(s[b + 1]) {
                b + 2
            } else {
                b + 1
            };
            lemma_digits_end(s, j);
        }
        assert forall|k: int| 0 <= k < s.len() implies !is_space(#[trigger] s[k]) by {
            if k < i {
            } else if k < a {
                assert(is_digit(s[k]));
            } else if k < b {
                if k > a {
                    assert(is_digit(s[k]));
                }
            } else if k == b {
            } else {
                if !is_sign(s[k]) {
                    assert(is_digit(s[k]));
                }
            }
        }
    }
}

/// A decimal literal that follows the grammar of a number.
#[derive(Debug, PartialEq, Eq)]
pub struct Number {
    text: String,
}

impl View for Number {
    type V = Seq<char>;

    closed spec fn view(&self) -> Seq<char> {
        self.text@
    }
}

fn scan_digits(s: &[char], i: usize) -> (r: usize)
    requires
        i <= s.len(),
    ensures
        r == digits_end(s@, i as int),
        i <= r <= s.len(),
{
    let mut j = i;
    while j < s.len() && '0' <= s[j] && s[j] <= '9'
        invariant
            i <= j <= s.len(),
            digits_end(s@, i as int) == digits_end(s@, j as int),
        decreases s.len() - j,
    {
        j += 1;
    }
    j
}

fn either(c: char, lower: char, upper: char) -> (r: bool)
    ensures
        r == (c == lower || c == upper),
{
    c == lower || c == upper
}

fn spells_special(s: &[char], i: usize) -> (r: bool)
    requires
        i <= s.len(),
    ensures
        r == is_special(s@.skip(i as int)),
{
    let n = s.len() - i;
    let ghost t = s@.skip(i as int);
    if n == 3 {
        proof {
            assert(t[0] == s[i as int] && t[1] == s[i + 1] && t[2] == s[i + 2]);
        }
        (either(s[i], 'i', 'I') && either(s[i + 1], 'n', 'N') && either(s[i + 2], 'f', 'F')) || (
        either(s[i], 'n', 'N') && either(s[i + 1], 'a', 'A') && either(s[i + 2], 'n', 'N'))
    } else if n == 8 {
        proof {
            assert(t[0] == s[i as int] && t[1] == s[i + 1] && t[2] == s[i + 2] && t[3] == s[i
                + 3]);
            assert(t[4] == s[i + 4] && t[5] == s[i + 5] && t[6] == s[i + 6] && t[7] == s[i + 7]);
        }
        either(s[i], 'i', 'I') && either(s[i + 1], 'n', 'N') && either(s[i + 2], 'f', 'F')
            && either(s[i + 3], 'i', 'I') && either(s[i + 4], 'n', 'N') && either(
            s[i + 5],
            'i',
            'I',
        ) && either(s[i + 6], 't', 'T') && either(s[i + 7], 'y', 'Y')
    } else {
        false
    }
}

fn scan_exponent(s: &[char], i: usize) -> (r: bool)
    requires
        i < s.len(),
    ensures
        r == is_exponent(s@, i as int),
{
    if s[i] != 'e' && s[i] != 'E' {
        return false;
    }
    let j = if i + 1 < s.len() && (s[i + 1] == '+' || s[i + 1] == '-') {
        i + 2
    } else {
        i + 1
    };
    if j >= s.len() {
        return false;
    }
    scan_digits(s, j) == s.len()
}

fn scan_decimal(s: &[char], i: usize) -> (r: bool)
    requires
        i <= s.len(),
    ensures
        r == is_decimal(s@, i as int),
{
    let a = scan_digits(s, i);
    let b = if a < s.len() && s[a] == '.' {
        scan_digits(s, a + 1)
    } else {
        a
    };
    let digits = if b > a {
        (a - i) + (b - a - 1)
    } else {
        a - i
    };
    if digits == 0 {
        return false;
    }
    b == s.len() || scan_exponent(s, b)
}

/// Tells whether `s` follows the grammar of a number.
pub fn is_number_text(s: &[char]) -> (r: bool)
    ensures
        r == is_number(s@),
{
    let i: usize = if s.len() > 0 && (s[0] == '+' || s[0] == '-') {
        1
    } else {
        0
    };
    spells_special(s, i) || scan_decimal(s, i)
}

impl Number {
    #[verifier::type_invariant]
    spec fn well_formed(&self) -> bool {
        is_number(self.text@)
    }

    /// The number that `s` spells, if it spells one.
    pub fn from_chars(s: &[char]) -> (r: Option<Number>)
        ensures
            r is Some <==> is_number(s@),
            r matches Some(n) ==> n@ == s@,
    {
        if is_number_text(s) {
            Some(Number { text: string_of(s) })
        } else {
            None
        }
    }

    /// The number that `text` spells, if it spells one.
    pub fn parse(text: &str) -> (r: Option<Number>)
        ensures
            r is Some <==> is_number(text@),
            r matches Some(n) ==> n@ == text@,
    {
        let chars = chars_of(text);
        Number::from_chars(chars.as_slice())
    }

    /// The literal `1`.
    pub fn one() -> (r: Number)
        ensures
            r@ == seq!['1'],
    {
        Number::digit('1')
    }

    /// The literal `0`.
    pub fn zero() -> (r: Number)
        ensures
            r@ == seq!['0'],
    {
        Number::digit('0')
    }

    fn digit(c: char) -> (r: Number)
        requires
            is_digit(c),
        ensures
            r@ == seq![c],
    {
        let mut text = String::new();
        text.push(c);
        proof {
            assert(text@ =~= seq![c]);
            assert(digits_end(text@, 1) == 1);
            assert(digits_end(text@, 0) == 1);
            assert(is_decimal(text@, 0));
        }
        Number { text }
    }

    /// The literal as text. It follows the grammar of a number.
    pub fn as_str(&self) -> (r: &str)
        ensures
            r@ == self@,
            is_number(r@),
    {
        proof {
            use_type_invariant(self);
        }
        self.text.as_str()
    }
}

impl Clone for Number {
    fn clone(&self) -> (r: Self)
        ensures
            r@ == self@,
    {
        proof {
            use_type_invariant(self);
        }
        Number { text: self.text.clone() }
    }
}

} // verus!
