//! Character-level helpers that the parameter grammar is built from:
//! splitting at a divider and reading runs of decimal digits.

use vstd::prelude::*;

verus! {

/// The index of the first character equal to `a` or to `b`, or the length of
/// the sequence where there is none.
pub open spec fn first_mark(s: Seq<char>, a: char, b: char) -> int
    decreases s.len(),
{
    if s.len() == 0 || s[0] == a || s[0] == b {
        0
    } else {
        1 + first_mark(s.skip(1), a, b)
    }
}

/// The pieces between the occurrences of `divider`, in order. There is one
/// more piece than there are dividers, and a piece may be empty.
pub open spec fn split_spec(s: Seq<char>, divider: char) -> Seq<Seq<char>>
    decreases s.len(),
{
    let cut = first_mark(s, divider, divider);
    if 0 <= cut < s.len() {
        seq![s.take(cut)] + split_spec(s.skip(cut + 1), divider)
    } else {
        seq![s]
    }
}

/// The characters of each string of a sequence.
pub open spec fn views(pieces: Seq<&str>) -> Seq<Seq<char>> {
    Seq::new(pieces.len(), |i: int| pieces[i]@)
}

/// Whether a character is one of the ten decimal digits.
pub open spec fn is_digit(c: char) -> bool {
    '0' <= c <= '9'
}

/// Whether a sequence holds decimal digits only. The empty sequence does.
pub open spec fn all_digits(s: Seq<char>) -> bool {
    forall|i: int| 0 <= i < s.len() ==> is_digit(#[trigger] s[i])
}

/// The number that a decimal digit denotes.
pub open spec fn digit_value(c: char) -> nat {
    (c as int - '0' as int) as nat
}

/// The number that a run of decimal digits denotes; zero for the empty run.
pub open spec fn digits_value(s: Seq<char>) -> nat
    decreases s.len(),
{
    if s.len() == 0 {
        0
    } else {
        digits_value(s.drop_last()) * 10 + digit_value(s.last())
    }
}

/// The digits of an unsigned integer text: the text itself, or what follows
/// one leading plus sign.
pub open spec fn unsigned_digits(s: Seq<char>) -> Seq<char> {
    if s.len() > 0 && s[0] == '+' {
        s.skip(1)
    } else {
        s
    }
}

/// Whether a text is a decimal integer that fits in a `u32`: an optional
/// plus sign, then at least one digit and nothing else.
pub open spec fn is_u32_text(s: Seq<char>) -> bool {
    let digits = unsigned_digits(s);
    digits.len() > 0 && all_digits(digits) && digits_value(digits) <= u32::MAX
}

/// The integer that such a text denotes.
pub open spec fn u32_text_value(s: Seq<char>) -> u32 {
    digits_value(unsigned_digits(s)) as u32
}

/// `first_mark` is the one position with no mark before it and a mark, or
/// the end, at it.
pub proof fn lemma_first_mark_is(s: Seq<char>, a: char, b: char, at: int)
    requires
        0 <= at <= s.len(),
        forall|k: int| 0 <= k < at ==> s[k] != a && s[k] != b,
        at < s.len() ==> s[at] == a || s[at] == b,
    ensures
        first_mark(s, a, b) == at,
    decreases at,
{
    if at > 0 {
        let rest = s.skip(1);
        assert forall|k: int| 0 <= k < at - 1 implies rest[k] != a && rest[k] != b by {
            assert(rest[k] == s[k + 1]);
        }
        lemma_first_mark_is(rest, a, b, at - 1);
    }
}

/// A longer run of digits denotes no smaller a number than its prefix.
pub proof fn lemma_digits_value_grows(s: Seq<char>, upto: int)
    requires
        0 <= upto <= s.len(),
    ensures
        digits_value(s.take(upto)) <= digits_value(s),
    decreases s.len() - upto,
{
    if upto < s.len() {
        lemma_digits_value_grows(s.drop_last(), upto);
        assert(s.drop_last().take(upto) =~= s.take(upto));
    } else {
        assert(s.take(upto) =~= s);
    }
}

/// The characters of a string, in order.
pub fn chars_of(src: &str) -> (chars: Vec<char>)
    ensures
        chars@ == src@,
{
    let mut chars: Vec<char> = Vec::new();
    for c in it: src.chars()
        invariant
            chars@ == it.seq().take(it.index()),
            it.seq() == src@,
    {
        chars.push(c);
    }
    chars
}

/// The first position from `from` on, before `to`, that holds `a` or `b`;
/// `to` where there is none.
pub fn find_mark(chars: &Vec<char>, from: usize, to: usize, a: char, b: char) -> (at: usize)
    requires
        from <= to <= chars.len(),
    ensures
        from <= at <= to,
        at - from == first_mark(chars@.subrange(from as int, to as int), a, b),
        forall|k: int| from <= k < at ==> chars[k] != a && chars[k] != b,
        at < to ==> chars[at as int] == a || chars[at as int] == b,
{
    let mut at: usize = from;
    while at < to && chars[at] != a && chars[at] != b
        invariant
            from <= at <= to <= chars.len(),
            forall|k: int| from <= k < at ==> chars[k] != a && chars[k] != b,
        decreases to - at,
    {
        at += 1;
    }
    proof {
        lemma_first_mark_is(chars@.subrange(from as int, to as int), a, b, at - from);
    }
    at
}

/// Splits a string at every occurrence of `divider`.
pub fn split<'a>(src: &'a str, divider: char) -> (pieces: Vec<&'a str>)
    ensures
        views(pieces@) == split_spec(src@, divider),
{
    let chars = chars_of(src);
    let n: usize = chars.len();
    let mut pieces: Vec<&'a str> = Vec::new();
    let mut start: usize = 0;
    let mut cut: usize = find_mark(&chars, 0, n, divider, divider);
    proof {
        assert(src@.skip(0) =~= src@);
        assert(views(pieces@) + split_spec(src@, divider) =~= split_spec(src@, divider));
    }
    while cut < n
        invariant
            chars@ == src@,
            n == chars.len(),
            start <= cut <= n,
            cut - start == first_mark(chars@.subrange(start as int, n as int), divider, divider),
            split_spec(src@, divider) == views(pieces@) + split_spec(
                src@.skip(start as int),
                divider,
            ),
        decreases n - cut,
    {
        let piece: &'a str = src.substring_char(start, cut);
        proof {
            let rest = src@.skip(start as int);
            assert(rest =~= chars@.subrange(start as int, n as int));
            assert(piece@ =~= rest.take(cut - start));
            assert(rest.skip(cut - start + 1) =~= src@.skip(cut + 1));
            assert(views(pieces@.push(piece)) =~= views(pieces@) + seq![piece@]);
        }
        pieces.push(piece);
        start = cut + 1;
        cut = find_mark(&chars, start, n, divider, divider);
    }
    let piece: &'a str = src.substring_char(start, n);
    proof {
        let rest = src@.skip(start as int);
        assert(rest =~= chars@.subrange(start as int, n as int));
        assert(piece@ =~= rest);
        assert(views(pieces@.push(piece)) =~= views(pieces@) + seq![piece@]);
    }
    pieces.push(piece);
    pieces
}

/// Reads a text as an unsigned decimal integer: `None` where it is not one
/// or does not fit in a `u32`.
pub fn read_u32(src: &str) -> (value: Option<u32>)
    ensures
        value is Some <==> is_u32_text(src@),
        value matches Some(v) ==> v == u32_text_value(src@),
{
    let chars = chars_of(src);
    let n: usize = chars.len();
    let start: usize = if n > 0 && chars[0] == '+' {
        1
    } else {
        0
    };
    let digits = Ghost(unsigned_digits(chars@));
    proof {
        assert(chars@.skip(0) =~= chars@);
        assert(digits@ == chars@.skip(start as int));
    }
    if start == n {
        return None;
    }
    let mut total: u64 = 0;
    let mut i: usize = start;
    while i < n
        invariant
            n == chars.len(),
            start <= i <= n,
            digits@ == unsigned_digits(src@),
            digits@ == chars@.skip(start as int),
            all_digits(digits@.take(i - start)),
            total == digits_value(digits@.take(i - start)),
            total <= u32::MAX,
        decreases n - i,
    {
        let c: char = chars[i];
        if !(c >= '0' && c <= '9') {
            proof {
                assert(digits@[i - start] == c);
            }
            return None;
        }
        let digit: u64 = (c as u32 - '0' as u32) as u64;
        proof {
            let upto = digits@.take(i - start + 1);
            assert(upto.drop_last() =~= digits@.take(i - start));
            assert(upto.last() == c);
            assert(all_digits(upto)) by {
                assert forall|k: int| 0 <= k < upto.len() implies is_digit(#[trigger] upto[k]) by {
                    if k < i - start {
                        assert(upto[k] == digits@.take(i - start)[k]);
                    }
                }
            }
        }
        total = total * 10 + digit;
        i += 1;
        if total > 0xFFFF_FFFF {
            proof {
                lemma_digits_value_grows(digits@, i - start);
            }
            return None;
        }
    }
    proof {
        assert(digits@.take(n - start) =~= digits@);
    }
    Some(total as u32)
}

} // verus!
