//! The event model that the transformation reads and writes.
use vstd::prelude::*;

verus! {

/// One event of a parsed chapter, as far as the transformation reads it.
///
/// `Other(i)` stands for an event that is carried through untouched; `i` is
/// its position in the parsed stream.
#[derive(Debug, PartialEq, Eq)]
pub enum Token {
    ParagraphStart,
    ParagraphEnd,
    Text(String),
    Html(String),
    Other(usize),
}

/// The mathematical value of a [`Token`].
pub enum TokenView {
    ParagraphStart,
    ParagraphEnd,
    Text(Seq<char>),
    Html(Seq<char>),
    Other(usize),
}

impl View for Token {
    type V = TokenView;

    open spec fn view(&self) -> TokenView {
        match self {
            Token::ParagraphStart => TokenView::ParagraphStart,
            Token::ParagraphEnd => TokenView::ParagraphEnd,
            Token::Text(s) => TokenView::Text(s@),
            Token::Html(s) => TokenView::Html(s@),
            Token::Other(i) => TokenView::Other(*i),
        }
    }
}

/// The values of a sequence of events.
pub open spec fn model(evs: Seq<Token>) -> Seq<TokenView> {
    evs.map_values(|e: Token| e@)
}

impl Token {
    /// A copy of the event with the same value.
    pub fn duplicate(&self) -> (r: Token)
        ensures
            r@ == self@,
    {
        match self {
            Token::ParagraphStart => Token::ParagraphStart,
            Token::ParagraphEnd => Token::ParagraphEnd,
            Token::Text(s) => Token::Text(s.clone()),
            Token::Html(s) => Token::Html(s.clone()),
            Token::Other(i) => Token::Other(*i),
        }
    }
}

} // verus!
