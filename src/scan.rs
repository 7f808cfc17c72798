//! Finding the annotated paragraphs of an event stream.
use vstd::prelude::*;
use vstd::string::*;

use crate::token::{model, Token, TokenView};

verus! {

/// The class named by an annotation text `{:.name}`, if the text is one.
///
/// The name between `{:.` and `}` must not be empty.
pub open spec fn annotation_class(t: Seq<char>) -> Option<Seq<char>> {
    if t.len() > 4 && t[0] == '{' && t[1] == ':' && t[2] == '.' && t[t.len() - 1] == '}' {
        Some(t.subrange(3, t.len() - 1))
    } else {
        None
    }
}

/// Reads the class name out of an annotation text, or `None` when the text
/// is no annotation.
pub fn class_of(text: &str) -> (r: Option<String>)
    ensures
        r is Some <==> annotation_class(text@) is Some,
        r matches Some(c) ==> c@ == annotation_class(text@)->Some_0,
{
    let n = text.unicode_len();
    if n > 4 && text.get_char(0) == '{' && text.get_char(1) == ':' && text.get_char(2) == '.'
        && text.get_char(n - 1) == '}' {
        Some(String::from_str(text.substring_char(3, n - 1)))
    } else {
        None
    }
}

/// An annotation found in a stream: the class, the position of the
/// paragraph start it decorates, and the position of the paragraph end
/// that closes it, if one came.
#[derive(Debug, PartialEq, Eq)]
pub struct Annotation {
    pub class: String,
    pub paragraph_start: usize,
    pub paragraph_end: Option<usize>,
}

/// The value of an [`Annotation`].
pub struct AnnotationView {
    pub class: Seq<char>,
    pub start: int,
    pub end: Option<int>,
}

impl View for Annotation {
    type V = AnnotationView;

    open spec fn view(&self) -> AnnotationView {
        AnnotationView {
            class: self.class@,
            start: self.paragraph_start as int,
            end: match self.paragraph_end {
                Some(e) => Some(e as int),
                None => None,
            },
        }
    }
}

/// Position `p` holds an annotation text right after a paragraph start.
pub open spec fn is_marker(evs: Seq<TokenView>, p: int) -> bool {
    &&& 1 <= p < evs.len()
    &&& evs[p - 1] is ParagraphStart
    &&& evs[p] matches TokenView::Text(t) && annotation_class(t) is Some
}

/// The class that the annotation text at `p` names.
pub open spec fn marker_class(evs: Seq<TokenView>, p: int) -> Seq<char> {
    annotation_class(evs[p]->Text_0)->Some_0
}

/// The positions below `n` that hold an annotation text, in order.
pub open spec fn marker_positions(evs: Seq<TokenView>, n: int) -> Seq<int>
    decreases n,
{
    if n <= 0 {
        Seq::empty()
    } else if is_marker(evs, n - 1) {
        marker_positions(evs, n - 1).push(n - 1)
    } else {
        marker_positions(evs, n - 1)
    }
}

/// The first paragraph end at a position in `from .. to`.
pub open spec fn first_end(evs: Seq<TokenView>, from: int, to: int) -> Option<int>
    decreases to - from,
{
    if from >= to {
        None
    } else if evs[from] is ParagraphEnd {
        Some(from)
    } else {
        first_end(evs, from + 1, to)
    }
}

/// The annotations of a stream, in document order. Each one closes at the
/// first paragraph end after its text and before the next annotation text.
pub open spec fn annotations(evs: Seq<TokenView>) -> Seq<AnnotationView> {
    let ps = marker_positions(evs, evs.len() as int);
    Seq::new(
        ps.len(),
        |k: int|
            AnnotationView {
                class: marker_class(evs, ps[k]),
                start: ps[k] - 1,
                end: first_end(evs, ps[k] + 1, if k + 1 < ps.len() { ps[k + 1] } else { evs.len() as int }),
            },
    )
}

/// Every position listed holds an annotation text, below `n`, in increasing order.
pub proof fn lemma_marker_positions(evs: Seq<TokenView>, n: int)
    ensures
        forall|k: int| 0 <= k < marker_positions(evs, n).len() ==> {
            &&& is_marker(evs, #[trigger] marker_positions(evs, n)[k])
            &&& marker_positions(evs, n)[k] < n
        },
        forall|j: int, k: int| 0 <= j < k < marker_positions(evs, n).len()
            ==> marker_positions(evs, n)[j] < marker_positions(evs, n)[k],
    decreases n,
{
    if n > 0 {
        lemma_marker_positions(evs, n - 1);
        let prev = marker_positions(evs, n - 1);
        let cur = marker_positions(evs, n);
        assert forall|k: int| 0 <= k < cur.len() implies is_marker(evs, #[trigger] cur[k]) && cur[k] < n by {
            if k < prev.len() {
                assert(cur[k] == prev[k]);
            }
        }
        assert forall|j: int, k: int| 0 <= j < k < cur.len() implies cur[j] < cur[k] by {
            assert(cur[j] == prev[j]);
            if k < prev.len() {
                assert(cur[k] == prev[k]);
            }
        }
    }
}

/// Extending the window of [`first_end`] by one position.
pub proof fn lemma_first_end_extend(evs: Seq<TokenView>, from: int, to: int)
    requires
        from <= to,
    ensures
        first_end(evs, from, to + 1) == (match first_end(evs, from, to) {
            Some(e) => Some(e),
            None => if evs[to] is ParagraphEnd { Some(to) } else { None },
        }),
    decreases to - from,
{
    reveal_with_fuel(first_end, 2);
    if from < to {
        lemma_first_end_extend(evs, from + 1, to);
    }
}

/// A found paragraph end lies in the window and is a paragraph end.
pub proof fn lemma_first_end_found(evs: Seq<TokenView>, from: int, to: int)
    ensures
        first_end(evs, from, to) matches Some(e) ==> from <= e < to && evs[e] is ParagraphEnd,
    decreases to - from,
{
    if from < to {
        lemma_first_end_found(evs, from + 1, to);
    }
}

/// An annotation never names an empty class: `{:.}` is no annotation.
pub proof fn lemma_class_not_empty(t: Seq<char>)
    ensures
        annotation_class(t) matches Some(c) ==> c.len() > 0,
{
}

/// A text that does not come right after a paragraph start is never taken
/// for an annotation, whatever it says.
pub proof fn lemma_only_after_paragraph_start(evs: Seq<TokenView>, p: int)
    requires
        0 <= p < evs.len(),
        p == 0 || !(evs[p - 1] is ParagraphStart),
    ensures
        forall|k: int| 0 <= k < annotations(evs).len() ==> #[trigger] annotations(evs)[k].start + 1 != p,
{
    lemma_marker_positions(evs, evs.len() as int);
}

/// A stream without annotation texts has no annotations.
pub proof fn lemma_no_markers(evs: Seq<TokenView>)
    requires
        forall|p: int| !is_marker(evs, p),
    ensures
        annotations(evs).len() == 0,
{
    lemma_marker_positions(evs, evs.len() as int);
    let ps = marker_positions(evs, evs.len() as int);
    if ps.len() > 0 {
        assert(is_marker(evs, ps[0]));
    }
}

/// Scans a stream for annotated paragraphs.
pub fn scan(evs: &Vec<Token>) -> (r: Vec<Annotation>)
    ensures
        r@.len() == annotations(model(evs@)).len(),
        forall|k: int| 0 <= k < r@.len() ==> #[trigger] r@[k]@ == annotations(model(evs@))[k],
{
    let ghost m = model(evs@);
    let mut r: Vec<Annotation> = Vec::new();
    let mut i: usize = 0;
    while i < evs.len()
        invariant
            0 <= i <= evs.len(),
            m == model(evs@),
            r@.len() == marker_positions(m, i as int).len(),
            forall|k: int| #![trigger r@[k]] 0 <= k < r@.len() ==> {
                let ps = marker_positions(m, i as int);
                &&& r@[k].class@ == marker_class(m, ps[k])
                &&& r@[k].paragraph_start as int == ps[k] - 1
                &&& r@[k]@.end == first_end(m, ps[k] + 1, if k + 1 < ps.len() { ps[k + 1] } else { i as int })
            },
        decreases evs.len() - i,
    {
        let ghost ps = marker_positions(m, i as int);
        proof {
            lemma_marker_positions(m, i as int);
        }
        let mut found = false;
        if i > 0 {
            if let Token::ParagraphStart = &evs[i - 1] {
                if let Token::Text(t) = &evs[i] {
                    let c = class_of(t.as_str());
                    if let Some(class) = c {
                        r.push(Annotation { class, paragraph_start: i - 1, paragraph_end: None });
                        found = true;
                    }
                }
            }
        }
        if !found {
            if let Token::ParagraphEnd = &evs[i] {
                let n = r.len();
                if n > 0 && r[n - 1].paragraph_end.is_none() {
                    let last = r.pop().unwrap();
                    r.push(Annotation { paragraph_end: Some(i), ..last });
                }
            }
        }
        proof {
            assert(found == is_marker(m, i as int));
            let ps2 = marker_positions(m, i as int + 1);
            if !found && ps.len() > 0 {
                lemma_first_end_extend(m, ps[ps.len() - 1] + 1, i as int);
            }
            assert forall|k: int| 0 <= k < r@.len() implies {
                &&& #[trigger] r@[k].class@ == marker_class(m, ps2[k])
                &&& r@[k].paragraph_start as int == ps2[k] - 1
                &&& r@[k]@.end == first_end(m, ps2[k] + 1, if k + 1 < ps2.len() { ps2[k + 1] } else { i + 1 })
            } by {
                if !found && k + 1 == ps.len() {
                    lemma_first_end_extend(m, ps[k] + 1, i as int);
                }
            }
        }
        i = i + 1;
    }
    r
}

} // verus!
