//! The parameter grammar: dimensions, numbers and sizes, alone or as a range,
//! each with an optional weight.
//!
//! ```text
//! FLOAT_PAIR  := NUMBER | NUMBER "-" NUMBER
//! SIZE        := NUMBER | NUMBER "%"
//! SIZE_PAIR   := SIZE | SIZE "-" SIZE
//! WEIGHTED(X) := X | X "@" NUMBER
//! DIMENSIONS  := INTEGER "x" INTEGER
//! ```
//!
//! A text is cut at every divider before its pieces are read, so a piece of a
//! range cannot hold a minus sign. A parse gives a value or the first error
//! met, never a part of a value.

use vstd::prelude::*;
use crate::blending::BlendingMode;
use crate::number::{is_number, is_positive_decimal, Number};
use crate::text::{chars_of, is_u32_text, read_u32, split, split_spec, u32_text_value, views};
use crate::units::{SizeText, SizeUnit, WeightedValue};

verus! {

/// The ways in which a text can fail to be a parameter.
#[derive(Clone, Copy, Debug, PartialEq, Eq, Structural)]
pub enum ParseErrorKind {
    InvalidInteger,
    InvalidDimensions,
    InvalidFloat,
    InvalidFloatRange,
    InvalidFraction,
    InvalidPixels,
    InvalidSizeRange,
    TooManyWeights,
    NonPositiveWeight,
    UnknownBlendingMode,
}

/// Why a text was refused, and the part of it that was.
#[derive(Debug, PartialEq, Eq)]
pub struct ParseError {
    pub kind: ParseErrorKind,
    pub token: String,
}

impl Clone for ParseError {
    fn clone(&self) -> (copy: Self)
        ensures
            copy@ == self@,
    {
        ParseError { kind: self.kind, token: self.token.clone() }
    }
}

/// A `ParseError` as plain values.
pub struct Refusal {
    pub kind: ParseErrorKind,
    pub token: Seq<char>,
}

impl View for ParseError {
    type V = Refusal;

    open spec fn view(&self) -> Refusal {
        Refusal { kind: self.kind, token: self.token@ }
    }
}

impl ParseErrorKind {
    /// What went wrong, in words.
    pub open spec fn description_spec(self) -> Seq<char> {
        match self {
            ParseErrorKind::InvalidInteger => "Could not parse integer value"@,
            ParseErrorKind::InvalidDimensions => "Dimensions should use WIDTHxHEIGHT"@,
            ParseErrorKind::InvalidFloat => "Could not parse float value"@,
            ParseErrorKind::InvalidFloatRange => "Float range must be 1-2"@,
            ParseErrorKind::InvalidFraction => "Could not parse fraction value"@,
            ParseErrorKind::InvalidPixels => "Could not parse pixel value"@,
            ParseErrorKind::InvalidSizeRange => "Size range length must be 2"@,
            ParseErrorKind::TooManyWeights => "Value cannot contain more than one weight value"@,
            ParseErrorKind::NonPositiveWeight => "Weight must be a number above zero"@,
            ParseErrorKind::UnknownBlendingMode => "Cannot parse value variant for blending mode"@,
        }
    }

    /// What went wrong, in words.
    pub fn description(&self) -> (text: &'static str)
        ensures
            text@ == self.description_spec(),
    {
        match self {
            ParseErrorKind::InvalidInteger => "Could not parse integer value",
            ParseErrorKind::InvalidDimensions => "Dimensions should use WIDTHxHEIGHT",
            ParseErrorKind::InvalidFloat => "Could not parse float value",
            ParseErrorKind::InvalidFloatRange => "Float range must be 1-2",
            ParseErrorKind::InvalidFraction => "Could not parse fraction value",
            ParseErrorKind::InvalidPixels => "Could not parse pixel value",
            ParseErrorKind::InvalidSizeRange => "Size range length must be 2",
            ParseErrorKind::TooManyWeights => "Value cannot contain more than one weight value",
            ParseErrorKind::NonPositiveWeight => "Weight must be a number above zero",
            ParseErrorKind::UnknownBlendingMode => "Cannot parse value variant for blending mode",
        }
    }
}

impl ParseError {
    /// The description of the error, then the refused text in quotes.
    pub fn message(&self) -> (text: String)
        ensures
            text@ == self.kind.description_spec() + ": \""@ + self.token@ + "\""@,
    {
        let mut text = String::from_str(self.kind.description());
        text.append(": \"");
        text.append(self.token.as_str());
        text.append("\"");
        text
    }
}

fn refuse(kind: ParseErrorKind, token: &str) -> (error: ParseError)
    ensures
        error@ == (Refusal { kind, token: token@ }),
{
    ParseError { kind, token: token.to_owned() }
}

/// The refusal of `token` for the reason `kind`.
pub open spec fn refusal(kind: ParseErrorKind, token: Seq<char>) -> Refusal {
    Refusal { kind, token }
}

/// The index of the first piece that is not acceptable, or the number of
/// pieces where all are.
pub open spec fn first_refused(pieces: Seq<Seq<char>>, accepts: spec_fn(Seq<char>) -> bool) -> int
    decreases pieces.len(),
{
    if pieces.len() == 0 || !accepts(pieces[0]) {
        0
    } else {
        1 + first_refused(pieces.skip(1), accepts)
    }
}

/// A whole text read as an integer that fits in a `u32`.
pub open spec fn integer_spec(s: Seq<char>) -> Result<u32, Refusal> {
    if is_u32_text(s) {
        Ok(u32_text_value(s))
    } else {
        Err(refusal(ParseErrorKind::InvalidInteger, s))
    }
}

/// Every piece between dividers read as an integer, or the refusal of the
/// first piece that is none.
pub open spec fn integer_list_spec(s: Seq<char>, divider: char) -> Result<Seq<u32>, Refusal> {
    let pieces = split_spec(s, divider);
    let bad = first_refused(pieces, |p: Seq<char>| is_u32_text(p));
    if 0 <= bad < pieces.len() {
        Err(refusal(ParseErrorKind::InvalidInteger, pieces[bad]))
    } else {
        Ok(Seq::new(pieces.len(), |i: int| u32_text_value(pieces[i])))
    }
}

/// Width and height: exactly two integers with an `x` between them.
pub open spec fn image_dimensions_spec(s: Seq<char>) -> Result<(u32, u32), Refusal> {
    match integer_list_spec(s, 'x') {
        Err(refused) => Err(refused),
        Ok(values) => if values.len() == 2 {
            Ok((values[0], values[1]))
        } else {
            Err(refusal(ParseErrorKind::InvalidDimensions, s))
        },
    }
}

/// A whole text read as a number, which is kept as written.
pub open spec fn float_spec(s: Seq<char>) -> Result<Seq<char>, Refusal> {
    if is_number(s) {
        Ok(s)
    } else {
        Err(refusal(ParseErrorKind::InvalidFloat, s))
    }
}

/// Every piece between dividers read as a number, or the refusal of the
/// first piece that is none.
pub open spec fn float_list_spec(s: Seq<char>, divider: char) -> Result<Seq<Seq<char>>, Refusal> {
    let pieces = split_spec(s, divider);
    let bad = first_refused(pieces, |p: Seq<char>| is_number(p));
    if 0 <= bad < pieces.len() {
        Err(refusal(ParseErrorKind::InvalidFloat, pieces[bad]))
    } else {
        Ok(pieces)
    }
}

/// One number, which is then both ends of the range, or two with a hyphen
/// between them.
pub open spec fn float_pair_spec(s: Seq<char>) -> Result<(Seq<char>, Seq<char>), Refusal> {
    match float_list_spec(s, '-') {
        Err(refused) => Err(refused),
        Ok(values) => if values.len() == 1 {
            Ok((values[0], values[0]))
        } else if values.len() == 2 {
            Ok((values[0], values[1]))
        } else {
            Err(refusal(ParseErrorKind::InvalidFloatRange, s))
        },
    }
}

/// Whether a text ends in a percent sign.
pub open spec fn is_share(s: Seq<char>) -> bool {
    s.len() > 0 && s.last() == '%'
}

/// Whether a text is a size: a number, alone or followed by a percent sign.
pub open spec fn is_size(s: Seq<char>) -> bool {
    if is_share(s) {
        is_number(s.drop_last())
    } else {
        is_number(s)
    }
}

/// A number followed by a percent sign is a share of the reference
/// dimension; a number alone is a count of pixels.
pub open spec fn size_spec(s: Seq<char>) -> Result<SizeText, Refusal> {
    if is_share(s) {
        if is_number(s.drop_last()) {
            Ok(SizeText::Fraction(s.drop_last()))
        } else {
            Err(refusal(ParseErrorKind::InvalidFraction, s))
        }
    } else {
        if is_number(s) {
            Ok(SizeText::Pixels(s))
        } else {
            Err(refusal(ParseErrorKind::InvalidPixels, s))
        }
    }
}

/// Every piece between dividers read as a size, or the refusal of the first
/// piece that is none.
pub open spec fn size_list_spec(s: Seq<char>, divider: char) -> Result<Seq<SizeText>, Refusal> {
    let pieces = split_spec(s, divider);
    let bad = first_refused(pieces, |p: Seq<char>| is_size(p));
    if 0 <= bad < pieces.len() {
        Err(size_spec(pieces[bad])->Err_0)
    } else {
        Ok(Seq::new(pieces.len(), |i: int| size_spec(pieces[i])->Ok_0))
    }
}

/// One size, which is then both ends of the range, or two with a hyphen
/// between them.
pub open spec fn size_pair_spec(s: Seq<char>) -> Result<(SizeText, SizeText), Refusal> {
    match size_list_spec(s, '-') {
        Err(refused) => Err(refused),
        Ok(values) => if values.len() == 1 {
            Ok((values[0], values[0]))
        } else if values.len() == 2 {
            Ok((values[0], values[1]))
        } else {
            Err(refusal(ParseErrorKind::InvalidSizeRange, s))
        },
    }
}

/// The text before the `@` and the weight after it; the weight one where
/// there is no `@`. A weight must be a number above zero.
pub open spec fn weight_spec(s: Seq<char>) -> Result<(Seq<char>, Seq<char>), Refusal> {
    let pieces = split_spec(s, '@');
    if pieces.len() == 1 {
        Ok((s, "1"@))
    } else if pieces.len() == 2 {
        if !is_number(pieces[1]) {
            Err(refusal(ParseErrorKind::InvalidFloat, pieces[1]))
        } else if !is_positive_decimal(pieces[1]) {
            Err(refusal(ParseErrorKind::NonPositiveWeight, pieces[1]))
        } else {
            Ok((pieces[0], pieces[1]))
        }
    } else {
        Err(refusal(ParseErrorKind::TooManyWeights, s))
    }
}

/// A size range with its weight. The weight is read first, so its refusal
/// comes before that of the range.
pub open spec fn weighted_size_pair_spec(s: Seq<char>) -> Result<
    ((SizeText, SizeText), Seq<char>),
    Refusal,
> {
    match weight_spec(s) {
        Err(refused) => Err(refused),
        Ok((text, weight)) => match size_pair_spec(text) {
            Err(refused) => Err(refused),
            Ok(value) => Ok((value, weight)),
        },
    }
}

/// A number range with its weight. The weight is read first, so its refusal
/// comes before that of the range.
pub open spec fn weighted_float_pair_spec(s: Seq<char>) -> Result<
    ((Seq<char>, Seq<char>), Seq<char>),
    Refusal,
> {
    match weight_spec(s) {
        Err(refused) => Err(refused),
        Ok((text, weight)) => match float_pair_spec(text) {
            Err(refused) => Err(refused),
            Ok(value) => Ok((value, weight)),
        },
    }
}

/// A blend mode, by its exact name, with its weight. The weight is read
/// first, so its refusal comes before that of the name.
pub open spec fn weighted_blending_mode_spec(s: Seq<char>) -> Result<
    (BlendingMode, Seq<char>),
    Refusal,
> {
    match weight_spec(s) {
        Err(refused) => Err(refused),
        Ok((text, weight)) => match BlendingMode::named(text) {
            None => Err(refusal(ParseErrorKind::UnknownBlendingMode, text)),
            Some(mode) => Ok((mode, weight)),
        },
    }
}

/// The texts of a sequence of numbers.
pub open spec fn number_views(numbers: Seq<Number>) -> Seq<Seq<char>> {
    Seq::new(numbers.len(), |i: int| numbers[i]@)
}

/// The sizes of a sequence, as plain text.
pub open spec fn size_views(sizes: Seq<SizeUnit>) -> Seq<SizeText> {
    Seq::new(sizes.len(), |i: int| sizes[i]@)
}

/// `first_refused` is the one position with only acceptable pieces before it
/// and a refused piece, or the end, at it.
pub proof fn lemma_first_refused_is(
    pieces: Seq<Seq<char>>,
    accepts: spec_fn(Seq<char>) -> bool,
    at: int,
)
    requires
        0 <= at <= pieces.len(),
        forall|k: int| 0 <= k < at ==> accepts(#[trigger] pieces[k]),
        at < pieces.len() ==> !accepts(pieces[at]),
    ensures
        first_refused(pieces, accepts) == at,
    decreases at,
{
    if at > 0 {
        let rest = pieces.skip(1);
        assert(accepts(pieces[0]));
        assert forall|k: int| 0 <= k < at - 1 implies accepts(#[trigger] rest[k]) by {
            assert(rest[k] == pieces[k + 1]);
        }
        lemma_first_refused_is(rest, accepts, at - 1);
    }
}

/// Parses a whole text as an integer that fits in a `u32`.
pub fn parse_integer(src: &str) -> (parsed: Result<u32, ParseError>)
    ensures
        parsed matches Ok(value) ==> integer_spec(src@) == Ok::<u32, Refusal>(value),
        parsed matches Err(error) ==> integer_spec(src@) == Err::<u32, Refusal>(error@),
{
    match read_u32(src) {
        Some(value) => Ok(value),
        None => Err(refuse(ParseErrorKind::InvalidInteger, src)),
    }
}

/// Parses the integers between dividers, such as `1,2,3`.
pub fn parse_integer_list(src: &str, divider: char) -> (parsed: Result<Vec<u32>, ParseError>)
    ensures
        parsed matches Ok(values) ==> integer_list_spec(src@, divider) == Ok::<
            Seq<u32>,
            Refusal,
        >(values@),
        parsed matches Err(error) ==> integer_list_spec(src@, divider) == Err::<
            Seq<u32>,
            Refusal,
        >(error@),
{
    let pieces = split(src, divider);
    let ghost texts = split_spec(src@, divider);
    let ghost accepts = |p: Seq<char>| is_u32_text(p);
    let mut values: Vec<u32> = Vec::new();
    let mut i: usize = 0;
    while i < pieces.len()
        invariant
            i <= pieces.len(),
            views(pieces@) == texts,
            texts == split_spec(src@, divider),
            accepts == (|p: Seq<char>| is_u32_text(p)),
            values@.len() == i,
            forall|k: int| 0 <= k < i ==> is_u32_text(#[trigger] texts[k]) && values@[k]
                == u32_text_value(texts[k]),
        decreases pieces.len() - i,
    {
        assert(pieces@[i as int]@ == texts[i as int]);
        match parse_integer(pieces[i]) {
            Ok(value) => {
                values.push(value);
            },
            Err(error) => {
                proof {
                    lemma_first_refused_is(texts, accepts, i as int);
                }
                return Err(error);
            },
        }
        i += 1;
    }
    proof {
        lemma_first_refused_is(texts, accepts, i as int);
        assert(values@ =~= Seq::new(texts.len(), |k: int| u32_text_value(texts[k])));
    }
    Ok(values)
}

/// Parses a dimensions text, such as `800x600`, into width and height.
pub fn parse_image_dimensions(src: &str) -> (parsed: Result<(u32, u32), ParseError>)
    ensures
        parsed matches Ok(size) ==> image_dimensions_spec(src@) == Ok::<(u32, u32), Refusal>(size),
        parsed matches Err(error) ==> image_dimensions_spec(src@) == Err::<(u32, u32), Refusal>(
            error@,
        ),
{
    match parse_integer_list(src, 'x') {
        Err(error) => Err(error),
        Ok(values) => {
            if values.len() == 2 {
                Ok((values[0], values[1]))
            } else {
                Err(refuse(ParseErrorKind::InvalidDimensions, src))
            }
        },
    }
}

/// Parses a whole text as a number.
pub fn parse_float(src: &str) -> (parsed: Result<Number, ParseError>)
    ensures
        parsed matches Ok(number) ==> float_spec(src@) == Ok::<Seq<char>, Refusal>(number@),
        parsed matches Err(error) ==> float_spec(src@) == Err::<Seq<char>, Refusal>(error@),
{
    match Number::parse(src) {
        Some(number) => Ok(number),
        None => Err(refuse(ParseErrorKind::InvalidFloat, src)),
    }
}

/// Parses the numbers between dividers.
pub fn parse_float_list(src: &str, divider: char) -> (parsed: Result<Vec<Number>, ParseError>)
    ensures
        parsed matches Ok(numbers) ==> float_list_spec(src@, divider) == Ok::<
            Seq<Seq<char>>,
            Refusal,
        >(number_views(numbers@)),
        parsed matches Err(error) ==> float_list_spec(src@, divider) == Err::<
            Seq<Seq<char>>,
            Refusal,
        >(error@),
{
    let pieces = split(src, divider);
    let ghost texts = split_spec(src@, divider);
    let ghost accepts = |p: Seq<char>| is_number(p);
    let mut numbers: Vec<Number> = Vec::new();
    let mut i: usize = 0;
    while i < pieces.len()
        invariant
            i <= pieces.len(),
            views(pieces@) == texts,
            texts == split_spec(src@, divider),
            accepts == (|p: Seq<char>| is_number(p)),
            numbers@.len() == i,
            forall|k: int| 0 <= k < i ==> is_number(#[trigger] texts[k]) && numbers@[k]@ == texts[k],
        decreases pieces.len() - i,
    {
        assert(pieces@[i as int]@ == texts[i as int]);
        match parse_float(pieces[i]) {
            Ok(number) => {
                numbers.push(number);
            },
            Err(error) => {
                proof {
                    lemma_first_refused_is(texts, accepts, i as int);
                }
                return Err(error);
            },
        }
        i += 1;
    }
    proof {
        lemma_first_refused_is(texts, accepts, i as int);
        assert(number_views(numbers@) =~= texts);
    }
    Ok(numbers)
}

/// Parses `1.0` or `0.9-1.0` into the two ends of a range.
pub fn parse_float_pair(src: &str) -> (parsed: Result<(Number, Number), ParseError>)
    ensures
        parsed matches Ok(pair) ==> float_pair_spec(src@) == Ok::<
            (Seq<char>, Seq<char>),
            Refusal,
        >((pair.0@, pair.1@)),
        parsed matches Err(error) ==> float_pair_spec(src@) == Err::<
            (Seq<char>, Seq<char>),
            Refusal,
        >(error@),
{
    match parse_float_list(src, '-') {
        Err(error) => Err(error),
        Ok(numbers) => {
            if numbers.len() == 1 {
                Ok((numbers[0].clone(), numbers[0].clone()))
            } else if numbers.len() == 2 {
                Ok((numbers[0].clone(), numbers[1].clone()))
            } else {
                Err(refuse(ParseErrorKind::InvalidFloatRange, src))
            }
        },
    }
}

/// Parses a size: `37` is a count of pixels, `50%` a share.
pub fn parse_size(src: &str) -> (parsed: Result<SizeUnit, ParseError>)
    ensures
        parsed matches Ok(size) ==> size_spec(src@) == Ok::<SizeText, Refusal>(size@),
        parsed matches Err(error) ==> size_spec(src@) == Err::<SizeText, Refusal>(error@),
        parsed is Ok <==> is_size(src@),
{
    let chars = chars_of(src);
    let n: usize = chars.len();
    if n > 0 && chars[n - 1] == '%' {
        let figure: &str = src.substring_char(0, n - 1);
        proof {
            assert(figure@ =~= src@.drop_last());
        }
        match Number::parse(figure) {
            Some(number) => Ok(SizeUnit::Fraction(number)),
            None => Err(refuse(ParseErrorKind::InvalidFraction, src)),
        }
    } else {
        match Number::parse(src) {
            Some(number) => Ok(SizeUnit::Pixels(number)),
            None => Err(refuse(ParseErrorKind::InvalidPixels, src)),
        }
    }
}

/// Parses the sizes between dividers.
pub fn parse_size_list(src: &str, divider: char) -> (parsed: Result<Vec<SizeUnit>, ParseError>)
    ensures
        parsed matches Ok(sizes) ==> size_list_spec(src@, divider) == Ok::<
            Seq<SizeText>,
            Refusal,
        >(size_views(sizes@)),
        parsed matches Err(error) ==> size_list_spec(src@, divider) == Err::<
            Seq<SizeText>,
            Refusal,
        >(error@),
{
    let pieces = split(src, divider);
    let ghost texts = split_spec(src@, divider);
    let ghost accepts = |p: Seq<char>| is_size(p);
    let mut sizes: Vec<SizeUnit> = Vec::new();
    let mut i: usize = 0;
    while i < pieces.len()
        invariant
            i <= pieces.len(),
            views(pieces@) == texts,
            texts == split_spec(src@, divider),
            accepts == (|p: Seq<char>| is_size(p)),
            sizes@.len() == i,
            forall|k: int|
                0 <= k < i ==> is_size(#[trigger] texts[k]) && size_spec(texts[k]) == Ok::<
                    SizeText,
                    Refusal,
                >(sizes@[k]@),
        decreases pieces.len() - i,
    {
        assert(pieces@[i as int]@ == texts[i as int]);
        match parse_size(pieces[i]) {
            Ok(size) => {
                sizes.push(size);
            },
            Err(error) => {
                proof {
                    lemma_first_refused_is(texts, accepts, i as int);
                }
                return Err(error);
            },
        }
        i += 1;
    }
    proof {
        lemma_first_refused_is(texts, accepts, i as int);
        assert(size_views(sizes@) =~= Seq::new(texts.len(), |k: int| size_spec(texts[k])->Ok_0));
    }
    Ok(sizes)
}

/// Parses `100%`, `90%-100%`, `10-20` or `2` into the two ends of a range.
pub fn parse_size_pair(src: &str) -> (parsed: Result<(SizeUnit, SizeUnit), ParseError>)
    ensures
        parsed matches Ok(pair) ==> size_pair_spec(src@) == Ok::<(SizeText, SizeText), Refusal>(
            (pair.0@, pair.1@),
        ),
        parsed matches Err(error) ==> size_pair_spec(src@) == Err::<
            (SizeText, SizeText),
            Refusal,
        >(error@),
{
    match parse_size_list(src, '-') {
        Err(error) => Err(error),
        Ok(sizes) => {
            if sizes.len() == 1 {
                Ok((sizes[0].clone(), sizes[0].clone()))
            } else if sizes.len() == 2 {
                Ok((sizes[0].clone(), sizes[1].clone()))
            } else {
                Err(refuse(ParseErrorKind::InvalidSizeRange, src))
            }
        },
    }
}

/// Parses `text@n` into the text and the weight `n`; a text without `@` has
/// the weight one.
pub fn parse_weight<'a>(src: &'a str) -> (parsed: Result<(&'a str, Number), ParseError>)
    ensures
        parsed matches Ok(pair) ==> weight_spec(src@) == Ok::<(Seq<char>, Seq<char>), Refusal>(
            (pair.0@, pair.1@),
        ) && is_positive_decimal(pair.1@),
        parsed matches Err(error) ==> weight_spec(src@) == Err::<
            (Seq<char>, Seq<char>),
            Refusal,
        >(error@),
{
    let pieces = split(src, '@');
    assert(views(pieces@).len() == pieces@.len());
    if pieces.len() == 1 {
        Ok((src, Number::one()))
    } else if pieces.len() == 2 {
        assert(pieces@[0]@ == views(pieces@)[0]);
        assert(pieces@[1]@ == views(pieces@)[1]);
        match Number::parse(pieces[1]) {
            None => Err(refuse(ParseErrorKind::InvalidFloat, pieces[1])),
            Some(weight) => {
                if weight.is_positive() {
                    Ok((pieces[0], weight))
                } else {
                    Err(refuse(ParseErrorKind::NonPositiveWeight, pieces[1]))
                }
            },
        }
    } else {
        Err(refuse(ParseErrorKind::TooManyWeights, src))
    }
}

/// Parses a size range with an optional weight, such as `1-2@1`, `10%` or
/// `5-10%@2`.
pub fn parse_weighted_size_pair(src: &str) -> (parsed: Result<
    WeightedValue<(SizeUnit, SizeUnit)>,
    ParseError,
>)
    ensures
        parsed matches Ok(weighted) ==> weighted_size_pair_spec(src@) == Ok::<
            ((SizeText, SizeText), Seq<char>),
            Refusal,
        >(((weighted.value.0@, weighted.value.1@), weighted.weight@)) && is_positive_decimal(
            weighted.weight@,
        ),
        parsed matches Err(error) ==> weighted_size_pair_spec(src@) == Err::<
            ((SizeText, SizeText), Seq<char>),
            Refusal,
        >(error@),
{
    match parse_weight(src) {
        Err(error) => Err(error),
        Ok((text, weight)) => match parse_size_pair(text) {
            Err(error) => Err(error),
            Ok(value) => Ok(WeightedValue { value, weight }),
        },
    }
}

/// Parses a number range with an optional weight, such as `1-2@1`, `10.2`
/// or `5.2-10@2`.
pub fn parse_weighted_float_pair(src: &str) -> (parsed: Result<
    WeightedValue<(Number, Number)>,
    ParseError,
>)
    ensures
        parsed matches Ok(weighted) ==> weighted_float_pair_spec(src@) == Ok::<
            ((Seq<char>, Seq<char>), Seq<char>),
            Refusal,
        >(((weighted.value.0@, weighted.value.1@), weighted.weight@)) && is_positive_decimal(
            weighted.weight@,
        ),
        parsed matches Err(error) ==> weighted_float_pair_spec(src@) == Err::<
            ((Seq<char>, Seq<char>), Seq<char>),
            Refusal,
        >(error@),
{
    match parse_weight(src) {
        Err(error) => Err(error),
        Ok((text, weight)) => match parse_float_pair(text) {
            Err(error) => Err(error),
            Ok(value) => Ok(WeightedValue { value, weight }),
        },
    }
}

/// Parses a blend mode with an optional weight, such as `normal` or
/// `screen@2`.
pub fn parse_weighted_blending_mode(src: &str) -> (parsed: Result<
    WeightedValue<BlendingMode>,
    ParseError,
>)
    ensures
        parsed matches Ok(weighted) ==> weighted_blending_mode_spec(src@) == Ok::<
            (BlendingMode, Seq<char>),
            Refusal,
        >((weighted.value, weighted.weight@)) && is_positive_decimal(weighted.weight@),
        parsed matches Err(error) ==> weighted_blending_mode_spec(src@) == Err::<
            (BlendingMode, Seq<char>),
            Refusal,
        >(error@),
{
    match parse_weight(src) {
        Err(error) => Err(error),
        Ok((text, weight)) => match BlendingMode::from_name(text) {
            None => Err(refuse(ParseErrorKind::UnknownBlendingMode, text)),
            Some(value) => Ok(WeightedValue { value, weight }),
        },
    }
}

} // verus!
