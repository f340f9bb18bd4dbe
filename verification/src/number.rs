//! The NUMBER of the parameter grammar: a decimal literal kept as text, so
//! that nothing is lost before it is turned into a machine number.
//!
//! ```text
//! Number   ::= Sign? Decimal
//! Decimal  ::= Mantissa ( ('e' | 'E') Sign? Digit+ )?
//! Mantissa ::= Digit+ | Digit+ '.' Digit* | Digit* '.' Digit+
//! Sign     ::= '+' | '-'
//! ```

use vstd::prelude::*;
use crate::text::{all_digits, chars_of, find_mark, first_mark, is_digit};

verus! {

/// Whether a character is a plus or a minus sign.
pub open spec fn is_sign(c: char) -> bool {
    c == '+' || c == '-'
}

/// The sequence without its leading sign, where it has one.
pub open spec fn unsigned_part(s: Seq<char>) -> Seq<char> {
    if s.len() > 0 && is_sign(s[0]) {
        s.skip(1)
    } else {
        s
    }
}

/// Digits with at most one point among them, and at least one digit.
pub open spec fn is_mantissa(m: Seq<char>) -> bool {
    let point = first_mark(m, '.', '.');
    let whole = m.take(point);
    let fraction = if point < m.len() {
        m.skip(point + 1)
    } else {
        Seq::empty()
    };
    all_digits(whole) && all_digits(fraction) && whole.len() + fraction.len() > 0
}

/// What follows the exponent mark: an optional sign and at least one digit.
pub open spec fn is_exponent(x: Seq<char>) -> bool {
    let digits = unsigned_part(x);
    digits.len() > 0 && all_digits(digits)
}

/// A mantissa, alone or followed by an exponent mark and an exponent.
pub open spec fn is_decimal(body: Seq<char>) -> bool {
    let mark = first_mark(body, 'e', 'E');
    is_mantissa(body.take(mark)) && (mark == body.len() || is_exponent(body.skip(mark + 1)))
}

/// Whether a text is a number of the grammar: a decimal with an optional
/// sign before it. Words that stand for no decimal, such as `inf` or `nan`,
/// are none.
pub open spec fn is_number(s: Seq<char>) -> bool {
    is_decimal(unsigned_part(s))
}

/// Whether one of the characters is a digit from `1` to `9`.
pub open spec fn has_nonzero_digit(m: Seq<char>) -> bool {
    exists|i: int| 0 <= i < m.len() && '1' <= #[trigger] m[i] <= '9'
}

/// Whether a text is a decimal above zero: no minus sign, and a digit other
/// than zero in the mantissa. This reads the literal exactly: the
/// exponent, however low, does not make it zero.
pub open spec fn is_positive_decimal(s: Seq<char>) -> bool {
    let body = unsigned_part(s);
    &&& !(s.len() > 0 && s[0] == '-')
    &&& is_decimal(body)
    &&& has_nonzero_digit(body.take(first_mark(body, 'e', 'E')))
}

/// A number of the grammar, as the text that was read.
#[derive(Debug, PartialEq, Eq)]
pub struct Number {
    text: String,
}

impl View for Number {
    type V = Seq<char>;

    closed spec fn view(&self) -> Seq<char> {
        self.text@
    }
}

impl Clone for Number {
    fn clone(&self) -> (copy: Self)
        ensures
            copy@ == self@,
    {
        proof {
            use_type_invariant(self);
        }
        Number { text: self.text.clone() }
    }
}

impl Number {
    #[verifier::type_invariant]
    spec fn well_formed(self) -> bool {
        is_number(self.text@)
    }

    /// Reads a whole string as a number. Nothing around it is skipped.
    pub fn parse(src: &str) -> (parsed: Option<Number>)
        ensures
            parsed is Some <==> is_number(src@),
            parsed matches Some(number) ==> number@ == src@,
    {
        let chars = chars_of(src);
        if is_number_text(&chars) {
            Some(Number { text: src.to_owned() })
        } else {
            None
        }
    }

    /// The number one, which stands for a weight that was left out.
    pub fn one() -> (number: Number)
        ensures
            number@ == "1"@,
            is_positive_decimal(number@),
    {
        let text: &str = "1";
        proof {
            reveal_strlit("1");
            let s = text@;
            assert(s.len() == 1 && s[0] == '1');
            assert(unsigned_part(s) == s);
            lemma_first_mark_of_digits(s, 'e', 'E');
            lemma_first_mark_of_digits(s, '.', '.');
            assert(s.take(1) =~= s);
            assert(is_mantissa(s));
            assert(is_decimal(s));
            assert('1' <= s[0] <= '9');
        }
        Number { text: text.to_owned() }
    }

    /// The text of the number, which is a number of the grammar.
    pub fn as_str(&self) -> (text: &str)
        ensures
            text@ == self@,
            is_number(text@),
    {
        proof {
            use_type_invariant(self);
        }
        self.text.as_str()
    }

    /// Whether the number is a decimal above zero.
    pub fn is_positive(&self) -> (positive: bool)
        ensures
            positive == is_positive_decimal(self@),
    {
        let chars = chars_of(self.text.as_str());
        is_positive_text(&chars)
    }
}

/// A run of digits holds neither mark.
pub proof fn lemma_first_mark_of_digits(s: Seq<char>, a: char, b: char)
    requires
        all_digits(s),
        !is_digit(a),
        !is_digit(b),
    ensures
        first_mark(s, a, b) == s.len(),
{
    crate::text::lemma_first_mark_is(s, a, b, s.len() as int);
}

/// Whether every character from `from` up to, not including, `to` is a
/// decimal digit.
pub fn all_digits_between(chars: &Vec<char>, from: usize, to: usize) -> (ok: bool)
    requires
        from <= to <= chars.len(),
    ensures
        ok == all_digits(chars@.subrange(from as int, to as int)),
{
    let mut i: usize = from;
    while i < to
        invariant
            from <= i <= to <= chars.len(),
            all_digits(chars@.subrange(from as int, i as int)),
        decreases to - i,
    {
        let c: char = chars[i];
        if !(c >= '0' && c <= '9') {
            proof {
                assert(chars@.subrange(from as int, to as int)[i - from] == c);
            }
            return false;
        }
        proof {
            let wider = chars@.subrange(from as int, i + 1);
            let run = chars@.subrange(from as int, i as int);
            assert forall|k: int| 0 <= k < wider.len() implies is_digit(#[trigger] wider[k]) by {
                if k < i - from {
                    assert(wider[k] == run[k]);
                }
            }
        }
        i += 1;
    }
    true
}

fn has_nonzero_between(chars: &Vec<char>, from: usize, to: usize) -> (found: bool)
    requires
        from <= to <= chars.len(),
    ensures
        found == has_nonzero_digit(chars@.subrange(from as int, to as int)),
{
    let run = Ghost(chars@.subrange(from as int, to as int));
    let mut i: usize = from;
    while i < to
        invariant
            from <= i <= to <= chars.len(),
            run@ == chars@.subrange(from as int, to as int),
            forall|k: int| 0 <= k < i - from ==> !('1' <= #[trigger] run@[k] <= '9'),
        decreases to - i,
    {
        let c: char = chars[i];
        if c >= '1' && c <= '9' {
            proof {
                assert(run@[i - from] == c);
            }
            return true;
        }
        proof {
            assert(run@[i - from] == c);
        }
        i += 1;
    }
    false
}

fn is_mantissa_between(chars: &Vec<char>, from: usize, to: usize) -> (ok: bool)
    requires
        from <= to <= chars.len(),
    ensures
        ok == is_mantissa(chars@.subrange(from as int, to as int)),
{
    let point: usize = find_mark(chars, from, to, '.', '.');
    let m = Ghost(chars@.subrange(from as int, to as int));
    proof {
        assert(m@.take(point - from) =~= chars@.subrange(from as int, point as int));
        if point < to {
            assert(m@.skip(point - from + 1) =~= chars@.subrange(point + 1, to as int));
        }
    }
    if !all_digits_between(chars, from, point) {
        return false;
    }
    if point < to {
        all_digits_between(chars, point + 1, to) && to - from > 1
    } else {
        to > from
    }
}

fn is_exponent_between(chars: &Vec<char>, from: usize, to: usize) -> (ok: bool)
    requires
        from <= to <= chars.len(),
    ensures
        ok == is_exponent(chars@.subrange(from as int, to as int)),
{
    let x = Ghost(chars@.subrange(from as int, to as int));
    let signed: bool = from < to && (chars[from] == '+' || chars[from] == '-');
    let start: usize = if signed {
        from + 1
    } else {
        from
    };
    proof {
        if from < to {
            assert(x@[0] == chars[from as int]);
        }
        assert(unsigned_part(x@) =~= chars@.subrange(start as int, to as int));
    }
    start < to && all_digits_between(chars, start, to)
}

fn is_decimal_between(chars: &Vec<char>, from: usize, to: usize) -> (ok: bool)
    requires
        from <= to <= chars.len(),
    ensures
        ok == is_decimal(chars@.subrange(from as int, to as int)),
{
    let mark: usize = find_mark(chars, from, to, 'e', 'E');
    let body = Ghost(chars@.subrange(from as int, to as int));
    proof {
        assert(body@.take(mark - from) =~= chars@.subrange(from as int, mark as int));
        if mark < to {
            assert(body@.skip(mark - from + 1) =~= chars@.subrange(mark + 1, to as int));
        }
    }
    if !is_mantissa_between(chars, from, mark) {
        return false;
    }
    mark == to || is_exponent_between(chars, mark + 1, to)
}

/// Where the body of a number starts: after the sign, where there is one.
fn after_sign(chars: &Vec<char>) -> (start: usize)
    ensures
        start <= chars.len(),
        start <= 1,
        unsigned_part(chars@) == chars@.skip(start as int),
        unsigned_part(chars@) == chars@.subrange(start as int, chars.len() as int),
{
    let start: usize = if chars.len() > 0 && (chars[0] == '+' || chars[0] == '-') {
        1
    } else {
        0
    };
    proof {
        assert(chars@.skip(0) =~= chars@);
        assert(chars@.skip(start as int) =~= chars@.subrange(start as int, chars.len() as int));
    }
    start
}

/// Whether the characters are a number of the grammar.
pub fn is_number_text(chars: &Vec<char>) -> (ok: bool)
    ensures
        ok == is_number(chars@),
{
    let start: usize = after_sign(chars);
    is_decimal_between(chars, start, chars.len())
}

/// Whether the characters are a decimal above zero.
pub fn is_positive_text(chars: &Vec<char>) -> (ok: bool)
    ensures
        ok == is_positive_decimal(chars@),
{
    if chars.len() > 0 && chars[0] == '-' {
        return false;
    }
    let start: usize = after_sign(chars);
    let n: usize = chars.len();
    if !is_decimal_between(chars, start, n) {
        return false;
    }
    let mark: usize = find_mark(chars, start, n, 'e', 'E');
    proof {
        let body = chars@.subrange(start as int, n as int);
        assert(body.take(mark - start) =~= chars@.subrange(start as int, mark as int));
    }
    has_nonzero_between(chars, start, mark)
}

} // verus!
