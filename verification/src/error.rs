//! The errors that tokenizing, reading settings and building templates report.
use vstd::prelude::*;
use vstd::string::*;
use crate::data::{Data, DataView};

verus! {

#[derive(Debug)]
pub enum Error {
    /// A number whose part (named by the payload) is not a valid integer.
    InvalidNumber(Data),
    /// A value of another kind than the ones named was found.
    ExpectedFound(Vec<Vec<char>>, Data),
    /// A list held another number of items than the one expected.
    InvalidItemCount(Data, Data),
    /// A literal that must not be empty was empty.
    EmptyLiteral,
    /// A required entry is missing from a mapping.
    MissingEntry(Data),
    /// An entry was inserted under a key that is already present.
    DuplicateEntry(Data),
    /// The input ended inside a token of the named kind.
    UnterminatedToken(Data),
    /// A character literal did not hold exactly one character.
    InvalidCharacterLength(Data),
    /// No tokenizer accepted the input at this point.
    UnregisteredCharacter(Data),
    /// The compiler settings configure a kind of tokenizer, named by the
    /// settings key, that this library does not provide.
    UnavailableTokenizer(Data),
    /// The decision stream did not hold the decision named.
    UnexpectedDecision(Vec<char>),
    /// The decision stream ended where a decision was needed.
    MissingDecision,
    /// A template named by the decision stream does not exist.
    MissingTemplate(Vec<char>),
    /// A template has no flavor with this number.
    MissingFlavor(usize),
    /// The token stream did not hold a token of the named kind here.
    UnexpectedToken(Vec<char>),
    /// The token stream ended where a token was needed.
    MissingToken,
    /// A list item was built without consuming any token or decision,
    /// so the list would never end.
    StalledList,
}

pub enum ErrorView {
    InvalidNumber(DataView),
    ExpectedFound(Seq<Seq<char>>, DataView),
    InvalidItemCount(DataView, DataView),
    EmptyLiteral,
    MissingEntry(DataView),
    DuplicateEntry(DataView),
    UnterminatedToken(DataView),
    InvalidCharacterLength(DataView),
    UnregisteredCharacter(DataView),
    UnavailableTokenizer(DataView),
    UnexpectedDecision(Seq<char>),
    MissingDecision,
    MissingTemplate(Seq<char>),
    MissingFlavor(nat),
    UnexpectedToken(Seq<char>),
    MissingToken,
    StalledList,
}

impl View for Error {
    type V = ErrorView;

    open spec fn view(&self) -> ErrorView {
        match self {
            Error::InvalidNumber(d) => ErrorView::InvalidNumber(d@),
            Error::ExpectedFound(e, d) => ErrorView::ExpectedFound(
                e@.map_values(|s: Vec<char>| s@),
                d@,
            ),
            Error::InvalidItemCount(a, b) => ErrorView::InvalidItemCount(a@, b@),
            Error::EmptyLiteral => ErrorView::EmptyLiteral,
            Error::MissingEntry(d) => ErrorView::MissingEntry(d@),
            Error::DuplicateEntry(d) => ErrorView::DuplicateEntry(d@),
            Error::UnterminatedToken(d) => ErrorView::UnterminatedToken(d@),
            Error::InvalidCharacterLength(d) => ErrorView::InvalidCharacterLength(d@),
            Error::UnregisteredCharacter(d) => ErrorView::UnregisteredCharacter(d@),
            Error::UnavailableTokenizer(d) => ErrorView::UnavailableTokenizer(d@),
            Error::UnexpectedDecision(s) => ErrorView::UnexpectedDecision(s@),
            Error::MissingDecision => ErrorView::MissingDecision,
            Error::MissingTemplate(s) => ErrorView::MissingTemplate(s@),
            Error::MissingFlavor(n) => ErrorView::MissingFlavor(*n as nat),
            Error::UnexpectedToken(s) => ErrorView::UnexpectedToken(s@),
            Error::MissingToken => ErrorView::MissingToken,
            Error::StalledList => ErrorView::StalledList,
        }
    }
}


/// The expected-kind list of a single kind.
pub open spec fn expected_one(kind: Seq<char>) -> Seq<Seq<char>> {
    seq![kind]
}

/// `ExpectedFound` with a single expected kind.
pub fn expected_found(kind: &str, found: Data) -> (e: Error)
    ensures
        e@ == ErrorView::ExpectedFound(expected_one(kind@), found@),
{
    let mut expected: Vec<Vec<char>> = Vec::new();
    expected.push(text_of(kind));
    let e = Error::ExpectedFound(expected, found);
    assert(e@->ExpectedFound_0 =~= expected_one(kind@));
    e
}

/// The characters of a string, as a vector.
pub fn text_of(s: &str) -> (r: Vec<char>)
    ensures
        r@ == s@,
{
    let mut r: Vec<char> = Vec::new();
    let n = s.unicode_len();
    let mut i: usize = 0;
    while i < n
        invariant
            n == s@.len(),
            i <= n,
            r@ == s@.subrange(0, i as int),
        decreases n - i,
    {
        r.push(s.get_char(i));
        i = i + 1;
        assert(r@ =~= s@.subrange(0, i as int));
    }
    assert(s@.subrange(0, n as int) =~= s@);
    r
}

} // verus!
