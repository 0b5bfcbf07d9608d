//! Tokens: what the tokenizer produces and the template builder reads.
use vstd::prelude::*;
use crate::data::Decimal;
use crate::error::{Error, ErrorView};
use crate::position::{Position, PositionView, positions_view};

verus! {

#[derive(Debug)]
pub enum TokenType {
    Comment(Vec<char>),
    Character(char),
    String(Vec<char>),
    Identifier(Vec<char>),
    TypeIdentifier(Vec<char>),
    Keyword(Vec<char>),
    Operator(Vec<char>),
    Integer(i64),
    Float(Decimal),
    Invalid(Error),
}

pub enum TokenTypeView {
    Comment(Seq<char>),
    Character(char),
    String(Seq<char>),
    Identifier(Seq<char>),
    TypeIdentifier(Seq<char>),
    Keyword(Seq<char>),
    Operator(Seq<char>),
    Integer(int),
    Float(Decimal),
    Invalid(ErrorView),
}

impl View for TokenType {
    type V = TokenTypeView;

    open spec fn view(&self) -> TokenTypeView {
        match self {
            TokenType::Comment(s) => TokenTypeView::Comment(s@),
            TokenType::Character(c) => TokenTypeView::Character(*c),
            TokenType::String(s) => TokenTypeView::String(s@),
            TokenType::Identifier(s) => TokenTypeView::Identifier(s@),
            TokenType::TypeIdentifier(s) => TokenTypeView::TypeIdentifier(s@),
            TokenType::Keyword(s) => TokenTypeView::Keyword(s@),
            TokenType::Operator(s) => TokenTypeView::Operator(s@),
            TokenType::Integer(i) => TokenTypeView::Integer(*i as int),
            TokenType::Float(d) => TokenTypeView::Float(*d),
            TokenType::Invalid(e) => TokenTypeView::Invalid(e@),
        }
    }
}

#[derive(Debug)]
pub struct Token {
    pub token_type: TokenType,
    /// The runs of source that the token was read from.
    pub position: Vec<Position>,
}

pub struct TokenView {
    pub token_type: TokenTypeView,
    pub position: Seq<PositionView>,
}

impl View for Token {
    type V = TokenView;

    open spec fn view(&self) -> TokenView {
        TokenView { token_type: self.token_type@, position: positions_view(self.position@) }
    }
}

pub open spec fn tokens_view(v: Seq<Token>) -> Seq<TokenView> {
    v.map_values(|t: Token| t@)
}

/// Whether a token takes part in parsing; comments do not.
pub open spec fn is_parsable(t: TokenTypeView) -> bool {
    !(t is Comment)
}

impl Token {
    pub fn new(token_type: TokenType, position: Vec<Position>) -> (r: Token)
        ensures
            r@ == (TokenView { token_type: token_type@, position: positions_view(position@) }),
    {
        Token { token_type, position }
    }

    pub fn parsable(&self) -> (r: bool)
        ensures
            r == is_parsable(self.token_type@),
    {
        match self.token_type {
            TokenType::Comment(_) => false,
            _ => true,
        }
    }
}

} // verus!
