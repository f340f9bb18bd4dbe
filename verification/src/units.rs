//! Sizes and weights as the parameter grammar writes them.

use vstd::prelude::*;
use crate::number::Number;

verus! {

/// A size: a share of a reference dimension, or a count of pixels. Either
/// holds its figure as written; a share is written in hundredths, so
/// `Fraction` of `50` is one half.
#[derive(Debug, PartialEq, Eq)]
pub enum SizeUnit {
    Fraction(Number),
    Pixels(Number),
}

/// What a `SizeUnit` holds, as plain text.
pub enum SizeText {
    Fraction(Seq<char>),
    Pixels(Seq<char>),
}

impl View for SizeUnit {
    type V = SizeText;

    open spec fn view(&self) -> SizeText {
        match self {
            SizeUnit::Fraction(figure) => SizeText::Fraction(figure@),
            SizeUnit::Pixels(figure) => SizeText::Pixels(figure@),
        }
    }
}

impl Clone for SizeUnit {
    fn clone(&self) -> (copy: Self)
        ensures
            copy@ == self@,
    {
        match self {
            SizeUnit::Fraction(figure) => SizeUnit::Fraction(figure.clone()),
            SizeUnit::Pixels(figure) => SizeUnit::Pixels(figure.clone()),
        }
    }
}

/// A value with its relative likelihood of being drawn: a decimal above
/// zero, kept as written.
#[derive(Debug, PartialEq)]
pub struct WeightedValue<T> {
    pub value: T,
    pub weight: Number,
}

impl<T: Clone> Clone for WeightedValue<T> {
    fn clone(&self) -> (copy: Self)
        ensures
            cloned(self.value, copy.value),
            copy.weight@ == self.weight@,
    {
        WeightedValue { value: self.value.clone(), weight: self.weight.clone() }
    }
}

} // verus!
