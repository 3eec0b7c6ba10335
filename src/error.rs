use vstd::prelude::*;

use crate::text::{append, chars_of, string_of};

verus! {

/// Why a numeral, a statement or a question was refused.
#[derive(Clone, Debug, PartialEq, Eq)]
pub enum ConversionError {
    /// The text is not a canonical Roman numeral.
    InvalidNumeral(String),
    /// The text is not one of the seven digit letters.
    UnknownDigit(String),
    /// A statement without the separator ` is `.
    MalformedStatement(String),
    /// A statement whose left-hand side holds no token.
    EmptyLeftSide,
    /// The credit amount of a price statement is not an integer.
    InvalidAmount(String),
    /// A question uses a token that was never defined.
    UnknownToken(String),
    /// A question without the separator ` is `.
    UnknownQuestion,
}

/// A `ConversionError` with its texts as character sequences.
pub enum ErrorView {
    InvalidNumeral(Seq<char>),
    UnknownDigit(Seq<char>),
    MalformedStatement(Seq<char>),
    EmptyLeftSide,
    InvalidAmount(Seq<char>),
    UnknownToken(Seq<char>),
    UnknownQuestion,
}

impl View for ConversionError {
    type V = ErrorView;

    open spec fn view(&self) -> ErrorView {
        match self {
            ConversionError::InvalidNumeral(t) => ErrorView::InvalidNumeral(t@),
            ConversionError::UnknownDigit(t) => ErrorView::UnknownDigit(t@),
            ConversionError::MalformedStatement(t) => ErrorView::MalformedStatement(t@),
            ConversionError::EmptyLeftSide => ErrorView::EmptyLeftSide,
            ConversionError::InvalidAmount(t) => ErrorView::InvalidAmount(t@),
            ConversionError::UnknownToken(t) => ErrorView::UnknownToken(t@),
            ConversionError::UnknownQuestion => ErrorView::UnknownQuestion,
        }
    }
}

impl ConversionError {
    /// A sentence that tells a reader what went wrong.
    pub fn message(&self) -> (r: String)
        ensures
            r@ == match self@ {
                ErrorView::InvalidNumeral(t) => "Invalid Roman Numeral "@ + t,
                ErrorView::UnknownDigit(t) => "Unknown roman numeral "@ + t,
                ErrorView::MalformedStatement(t) => "Invalid line, no ' is ' in "@ + t,
                ErrorView::EmptyLeftSide => "Empty left side"@,
                ErrorView::InvalidAmount(t) => "Unable to parse integer "@ + t,
                ErrorView::UnknownToken(t) => "Unknown intergalactic numeral "@ + t,
                ErrorView::UnknownQuestion => "I have no idea what you are talking about"@,
            },
    {
        let (head, tail) = match self {
            ConversionError::InvalidNumeral(t) => ("Invalid Roman Numeral ", t.as_str()),
            ConversionError::UnknownDigit(t) => ("Unknown roman numeral ", t.as_str()),
            ConversionError::MalformedStatement(t) => ("Invalid line, no ' is ' in ", t.as_str()),
            ConversionError::EmptyLeftSide => ("Empty left side", ""),
            ConversionError::InvalidAmount(t) => ("Unable to parse integer ", t.as_str()),
            ConversionError::UnknownToken(t) => ("Unknown intergalactic numeral ", t.as_str()),
            ConversionError::UnknownQuestion => ("I have no idea what you are talking about", ""),
        };
        let mut text = chars_of(head);
        append(&mut text, &chars_of(tail));
        proof {
            reveal_strlit("");
        }
        assert(text@ =~= head@ + tail@);
        string_of(text.as_slice())
    }
}

} // verus!
