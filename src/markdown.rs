//! Chapter text in, chapter text out: parsing and writing markdown around
//! the transformation.
use vstd::prelude::*;

use pulldown_cmark::{Event as CmarkEvent, Tag};

use crate::rewrite::{
    lemma_annotations_fit, lemma_rewrite_others_below, others_below, transform, transformed,
};
use crate::scan::annotations;
use crate::token::{model, Token, TokenView};

verus! {

#[verifier::external_type_specification]
#[verifier::external_body]
pub struct ExCmarkEvent<'a>(pulldown_cmark::Event<'a>);

/// The events that mdbook's parser makes of `content`, as the transformation
/// reads them.
pub uninterp spec fn tokens_of(content: Seq<char>) -> Seq<TokenView>;

/// The markdown that pulldown-cmark-to-cmark writes for `evs`, where
/// `Other(j)` stands for the `j`-th event that mdbook's parser makes of
/// `content`.
pub uninterp spec fn markdown_of(content: Seq<char>, evs: Seq<TokenView>) -> Seq<char>;

/// Relies on mdbook::utils::new_cmark_parser, mdbook's markdown parser (here
/// without smart punctuation), and on pulldown_cmark::Event's variants: a
/// paragraph start or end and a text are read as such, any other event
/// becomes `Other` of its position. The parse depends on `content` alone.
#[verifier::external_body]
fn parse_tokens(content: &str) -> (r: Vec<Token>)
    ensures
        model(r@) == tokens_of(content@),
        forall|i: int| 0 <= i < r@.len() ==> (#[trigger] r@[i] matches Token::Other(j) ==> j == i),
        forall|i: int| 0 <= i < r@.len() ==> !(#[trigger] r@[i] is Html),
{
    let mut r = Vec::new();
    for (i, e) in mdbook::utils::new_cmark_parser(content, false).enumerate() {
        r.push(match e {
            CmarkEvent::Start(Tag::Paragraph) => Token::ParagraphStart,
            CmarkEvent::End(Tag::Paragraph) => Token::ParagraphEnd,
            CmarkEvent::Text(t) => Token::Text(t.to_string()),
            _ => Token::Other(i),
        });
    }
    r
}

/// Relies on pulldown_cmark_to_cmark::cmark, which writes events back as
/// markdown and fails only when its buffer does (a `String` never does), and
/// on mdbook::utils::new_cmark_parser for the parsed events that `Other`
/// stands for.
#[verifier::external_body]
fn write_markdown(content: &str, evs: &Vec<Token>) -> (r: Option<String>)
    requires
        others_below(model(evs@), tokens_of(content@).len() as int),
    ensures
        r is Some,
        r->Some_0@ == markdown_of(content@, model(evs@)),
{
    let source: Vec<CmarkEvent> = mdbook::utils::new_cmark_parser(content, false).collect();
    let mut events: Vec<CmarkEvent> = Vec::new();
    for t in evs {
        events.push(match t {
            Token::ParagraphStart => CmarkEvent::Start(Tag::Paragraph),
            Token::ParagraphEnd => CmarkEvent::End(Tag::Paragraph),
            Token::Text(s) => CmarkEvent::Text(s.clone().into()),
            Token::Html(s) => CmarkEvent::Html(s.clone().into()),
            Token::Other(j) => source[*j].clone(),
        });
    }
    let mut buf = String::new();
    match pulldown_cmark_to_cmark::cmark(events.iter(), &mut buf) { Ok(_) => Some(buf), Err(_) => None }
}

/// Rewrites a chapter's markdown: each paragraph that opens with a
/// `{:.name}` line is wrapped in `<div class="name">` … `</div>` and the
/// annotation line is dropped; the result is the markdown written for the
/// transformed events of the chapter. The parsed events hold no raw markup
/// of the transformation's kind, which is what the order of the wrappers
/// rests on.
pub fn classy(content: &str) -> (r: Option<String>)
    ensures
        r is Some,
        r->Some_0@ == markdown_of(content@, transformed(tokens_of(content@))),
        forall|i: int| 0 <= i < tokens_of(content@).len() ==> !(#[trigger] tokens_of(content@)[i] is Html),
{
    let evs = parse_tokens(content);
    let ghost n = evs@.len() as int;
    proof {
        assert(others_below(model(evs@), n)) by {
            assert forall|i: int| 0 <= i < model(evs@).len() implies
                (#[trigger] model(evs@)[i] matches TokenView::Other(j) ==> j < n) by {
                assert(model(evs@)[i] == evs@[i]@);
            }
        }
        assert forall|i: int| 0 <= i < tokens_of(content@).len() implies
            !(#[trigger] tokens_of(content@)[i] is Html) by {
            assert(tokens_of(content@)[i] == evs@[i]@);
        }
        lemma_annotations_fit(model(evs@));
        lemma_rewrite_others_below(model(evs@), annotations(model(evs@)), 0, 0, n);
    }
    let out = transform(&evs);
    write_markdown(content, &out)
}

} // verus!
