//! Wrapping the annotated paragraphs of an event stream.
use vstd::prelude::*;
use vstd::string::*;

use crate::scan::{
    annotations, is_marker, lemma_first_end_found, lemma_marker_positions, lemma_no_markers,
    marker_positions, scan, Annotation, AnnotationView,
};
use crate::token::{model, Token, TokenView};

verus! {

/// The markup that opens the wrapper of a paragraph of class `class`.
pub open spec fn open_markup(class: Seq<char>) -> Seq<char> {
    "<div class=\""@ + class + "\">"@
}

/// The markup that closes a wrapper.
pub open spec fn close_markup() -> Seq<char> {
    "</div>"@
}

/// Annotations that a rewrite of `evs` can follow: each one's paragraph
/// start and the event after it lie inside the stream, and its paragraph end,
/// when known, lies after that event and inside the stream.
pub open spec fn fits(evs: Seq<TokenView>, anns: Seq<AnnotationView>) -> bool {
    forall|k: int| 0 <= k < anns.len() ==> {
        &&& 0 <= #[trigger] anns[k].start
        &&& anns[k].start + 1 < evs.len()
        &&& anns[k].end matches Some(e) ==> anns[k].start + 1 <= e < evs.len()
    }
}

/// Where the annotated paragraph ends: its paragraph end, or the last event
/// of the stream when none came.
pub open spec fn resolved_end(evs: Seq<TokenView>, a: AnnotationView) -> int {
    match a.end {
        Some(e) => e,
        None => evs.len() - 1,
    }
}

/// An annotated paragraph, wrapped: the opening markup, the paragraph start,
/// the paragraph after its annotation text up to and including its end, and
/// the closing markup.
pub open spec fn wrapped(evs: Seq<TokenView>, a: AnnotationView) -> Seq<TokenView> {
    seq![TokenView::Html(open_markup(a.class)), evs[a.start]]
        + evs.subrange(a.start + 2, resolved_end(evs, a) + 1)
        + seq![TokenView::Html(close_markup())]
}

/// The rewrite of `evs` from position `cursor` on, following the annotations
/// from index `k` on. After a wrapped paragraph the copy goes on after its
/// paragraph end. An annotation whose paragraph start lies before the cursor
/// falls inside a paragraph already wrapped and is passed over.
pub open spec fn rewrite_from(evs: Seq<TokenView>, anns: Seq<AnnotationView>, k: int, cursor: int) -> Seq<TokenView>
    decreases anns.len() - k,
{
    if k >= anns.len() {
        evs.subrange(cursor, evs.len() as int)
    } else if anns[k].start < cursor {
        rewrite_from(evs, anns, k + 1, cursor)
    } else {
        evs.subrange(cursor, anns[k].start) + wrapped(evs, anns[k])
            + rewrite_from(evs, anns, k + 1, resolved_end(evs, anns[k]) + 1)
    }
}

/// The transformation of a whole stream.
pub open spec fn transformed(evs: Seq<TokenView>) -> Seq<TokenView> {
    rewrite_from(evs, annotations(evs), 0, 0)
}

/// Appends `e` to `out`.
fn push_event(out: &mut Vec<Token>, e: Token)
    ensures
        model(final(out)@) == model(old(out)@).push(e@),
{
    out.push(e);
    assert(model(out@) =~= model(old(out)@).push(e@));
}

/// Appends copies of `evs[from..to]` to `out`.
fn push_range(out: &mut Vec<Token>, evs: &Vec<Token>, from: usize, to: usize)
    requires
        from <= to <= evs.len(),
    ensures
        model(final(out)@) == model(old(out)@) + model(evs@).subrange(from as int, to as int),
{
    let mut i: usize = from;
    while i < to
        invariant
            from <= i <= to <= evs.len(),
            model(out@) == model(old(out)@) + model(evs@).subrange(from as int, i as int),
        decreases to - i,
    {
        push_event(out, evs[i].duplicate());
        proof {
            assert(model(out@) =~= model(old(out)@) + model(evs@).subrange(from as int, i + 1));
        }
        i = i + 1;
    }
}

/// The markup that opens the wrapper of a paragraph of class `class`.
fn open_tag(class: &String) -> (r: String)
    ensures
        r@ == open_markup(class@),
{
    let mut r = String::from_str("<div class=\"");
    r.append(class.as_str());
    r.append("\">");
    r
}

/// Rewrites a stream along the given annotations: each annotated paragraph
/// is wrapped in a `div` of its class and loses its annotation text; the
/// rest is copied as it is.
pub fn rewrite(evs: &Vec<Token>, anns: &Vec<Annotation>) -> (r: Vec<Token>)
    requires
        fits(model(evs@), anns@.map_values(|a: Annotation| a@)),
    ensures
        model(r@) == rewrite_from(model(evs@), anns@.map_values(|a: Annotation| a@), 0, 0),
{
    let ghost m = model(evs@);
    let ghost av = anns@.map_values(|a: Annotation| a@);
    let mut out: Vec<Token> = Vec::new();
    let mut cursor: usize = 0;
    let mut k: usize = 0;
    while k < anns.len()
        invariant
            0 <= k <= anns.len(),
            cursor <= evs.len(),
            m == model(evs@),
            av == anns@.map_values(|a: Annotation| a@),
            fits(m, av),
            model(out@) + rewrite_from(m, av, k as int, cursor as int) == rewrite_from(m, av, 0, 0),
        decreases anns.len() - k,
    {
        let a = &anns[k];
        assert(av[k as int] == a@);
        if a.paragraph_start >= cursor {
            let ghost before = model(out@);
            let end: usize = match a.paragraph_end {
                Some(e) => e,
                None => evs.len() - 1,
            };
            push_range(&mut out, evs, cursor, a.paragraph_start);
            push_event(&mut out, Token::Html(open_tag(&a.class)));
            push_event(&mut out, evs[a.paragraph_start].duplicate());
            push_range(&mut out, evs, a.paragraph_start + 2, end + 1);
            push_event(&mut out, Token::Html(String::from_str("</div>")));
            proof {
                assert(model(out@) =~= before + m.subrange(cursor as int, a.paragraph_start as int)
                    + wrapped(m, av[k as int]));
            }
            cursor = end + 1;
        }
        k = k + 1;
    }
    push_range(&mut out, evs, cursor, evs.len());
    proof {
        assert(model(out@) =~= rewrite_from(m, av, 0, 0));
    }
    out
}

/// The annotations found in a stream fit it.
pub proof fn lemma_annotations_fit(evs: Seq<TokenView>)
    ensures
        fits(evs, annotations(evs)),
{
    let ps = marker_positions(evs, evs.len() as int);
    let anns = annotations(evs);
    lemma_marker_positions(evs, evs.len() as int);
    assert forall|k: int| 0 <= k < anns.len() implies {
        &&& 0 <= #[trigger] anns[k].start
        &&& anns[k].start + 1 < evs.len()
        &&& anns[k].end matches Some(e) ==> anns[k].start + 1 <= e < evs.len()
    } by {
        let bound = if k + 1 < ps.len() { ps[k + 1] } else { evs.len() as int };
        assert(is_marker(evs, ps[k]));
        if k + 1 < ps.len() {
            assert(ps[k + 1] < evs.len());
        }
        lemma_first_end_found(evs, ps[k] + 1, bound);
    }
}

/// Every `Other` event of `s` refers to a position below `n`.
pub open spec fn others_below(s: Seq<TokenView>, n: int) -> bool {
    forall|i: int| 0 <= i < s.len() ==> (#[trigger] s[i] matches TokenView::Other(j) ==> j < n)
}

/// A rewrite brings in no `Other` event beyond those of the stream.
pub proof fn lemma_rewrite_others_below(
    evs: Seq<TokenView>,
    anns: Seq<AnnotationView>,
    k: int,
    cursor: int,
    n: int,
)
    requires
        fits(evs, anns),
        0 <= k,
        0 <= cursor <= evs.len(),
        others_below(evs, n),
    ensures
        others_below(rewrite_from(evs, anns, k, cursor), n),
    decreases anns.len() - k,
{
    if k < anns.len() {
        let a = anns[k];
        if a.start < cursor {
            lemma_rewrite_others_below(evs, anns, k + 1, cursor, n);
        } else {
            lemma_rewrite_others_below(evs, anns, k + 1, resolved_end(evs, a) + 1, n);
            let w = wrapped(evs, a);
            assert(others_below(w, n)) by {
                assert forall|i: int| 0 <= i < w.len() implies (#[trigger] w[i] matches TokenView::Other(j) ==> j < n) by {
                    if i == 1 {
                        assert(w[i] == evs[a.start]);
                    } else if 2 <= i < w.len() - 1 {
                        assert(w[i] == evs[a.start + i]);
                    }
                }
            }
            let pre = evs.subrange(cursor, a.start);
            let rest = rewrite_from(evs, anns, k + 1, resolved_end(evs, a) + 1);
            assert(rewrite_from(evs, anns, k, cursor) == pre + w + rest);
            assert forall|i: int| 0 <= i < (pre + w + rest).len() implies
                (#[trigger] (pre + w + rest)[i] matches TokenView::Other(j) ==> j < n) by {
                if i < pre.len() {
                    assert((pre + w + rest)[i] == evs[cursor + i]);
                } else if i < pre.len() + w.len() {
                    assert((pre + w + rest)[i] == w[i - pre.len()]);
                } else {
                    assert((pre + w + rest)[i] == rest[i - pre.len() - w.len()]);
                }
            }
        }
    } else {
        let t = evs.subrange(cursor, evs.len() as int);
        assert forall|i: int| 0 <= i < t.len() implies (#[trigger] t[i] matches TokenView::Other(j) ==> j < n) by {
            assert(t[i] == evs[cursor + i]);
        }
    }
}

/// Wraps every annotated paragraph of a stream in a `div` of its class and
/// drops the annotation texts.
pub fn transform(evs: &Vec<Token>) -> (r: Vec<Token>)
    ensures
        model(r@) == transformed(model(evs@)),
{
    let anns = scan(evs);
    proof {
        lemma_annotations_fit(model(evs@));
        assert(anns@.map_values(|a: Annotation| a@) =~= annotations(model(evs@)));
    }
    rewrite(evs, &anns)
}

/// A stream without annotation texts comes out unchanged.
pub proof fn lemma_unannotated_unchanged(evs: Seq<TokenView>)
    requires
        forall|p: int| !is_marker(evs, p),
    ensures
        transformed(evs) == evs,
{
    lemma_no_markers(evs);
    assert(evs.subrange(0, evs.len() as int) =~= evs);
}

/// A closed annotated paragraph ends before the next annotated paragraph starts.
pub proof fn lemma_annotations_apart(evs: Seq<TokenView>, j: int)
    requires
        0 <= j,
        j + 1 < annotations(evs).len(),
        annotations(evs)[j].end is Some,
    ensures
        resolved_end(evs, annotations(evs)[j]) + 1 <= annotations(evs)[j + 1].start,
{
    let ps = marker_positions(evs, evs.len() as int);
    lemma_marker_positions(evs, evs.len() as int);
    lemma_first_end_found(evs, ps[j] + 1, ps[j + 1]);
    assert(is_marker(evs, ps[j + 1]));
}

/// The raw markup of a stream, in order.
pub open spec fn markups(s: Seq<TokenView>) -> Seq<Seq<char>>
    decreases s.len(),
{
    if s.len() == 0 {
        Seq::empty()
    } else if s.last() is Html {
        markups(s.drop_last()).push(s.last()->Html_0)
    } else {
        markups(s.drop_last())
    }
}

/// The markup of the wrappers of the annotations from index `k` on: an
/// opening and a closing one for each, in order.
pub open spec fn wrapper_markups(anns: Seq<AnnotationView>, k: int) -> Seq<Seq<char>>
    decreases anns.len() - k,
{
    if k >= anns.len() {
        Seq::empty()
    } else {
        seq![open_markup(anns[k].class), close_markup()] + wrapper_markups(anns, k + 1)
    }
}

/// The markup of two streams one after the other.
pub proof fn lemma_markups_add(a: Seq<TokenView>, b: Seq<TokenView>)
    ensures
        markups(a + b) == markups(a) + markups(b),
    decreases b.len(),
{
    if b.len() == 0 {
        assert(a + b =~= a);
        assert(markups(a) + markups(b) =~= markups(a));
    } else {
        lemma_markups_add(a, b.drop_last());
        assert((a + b).drop_last() =~= a + b.drop_last());
        assert((a + b).last() == b.last());
        if b.last() is Html {
            assert(markups(a) + markups(b) =~= (markups(a) + markups(b.drop_last())).push(b.last()->Html_0));
        }
    }
}

/// A stream without raw markup has none to show.
pub proof fn lemma_markups_none(s: Seq<TokenView>)
    requires
        forall|i: int| 0 <= i < s.len() ==> !(#[trigger] s[i] is Html),
    ensures
        markups(s) == Seq::<Seq<char>>::empty(),
    decreases s.len(),
{
    if s.len() > 0 {
        lemma_markups_none(s.drop_last());
    }
}

/// The markup of a rewrite from annotation `k` on, where no paragraph
/// before the last is left open.
proof fn lemma_rewrite_markups(evs: Seq<TokenView>, k: int, cursor: int)
    requires
        forall|i: int| 0 <= i < evs.len() ==> !(#[trigger] evs[i] is Html),
        forall|j: int| 0 <= j && j + 1 < annotations(evs).len() ==> (#[trigger] annotations(evs)[j]).end is Some,
        0 <= k,
        0 <= cursor <= evs.len(),
        k < annotations(evs).len() ==> cursor <= annotations(evs)[k].start,
    ensures
        markups(rewrite_from(evs, annotations(evs), k, cursor)) == wrapper_markups(annotations(evs), k),
    decreases annotations(evs).len() - k,
{
    let anns = annotations(evs);
    lemma_annotations_fit(evs);
    if k >= anns.len() {
        lemma_markups_none(evs.subrange(cursor, evs.len() as int));
    } else {
        let a = anns[k];
        let next = resolved_end(evs, a) + 1;
        if k + 1 < anns.len() {
            lemma_annotations_apart(evs, k);
        }
        lemma_rewrite_markups(evs, k + 1, next);
        let pre = evs.subrange(cursor, a.start);
        let body = evs.subrange(a.start + 2, next);
        let rest = rewrite_from(evs, anns, k + 1, next);
        let open = seq![TokenView::Html(open_markup(a.class)), evs[a.start]];
        let close = seq![TokenView::Html(close_markup())];
        lemma_markups_none(pre);
        lemma_markups_none(body);
        lemma_markups_none(seq![evs[a.start]]);
        assert(markups(open) == markups(seq![TokenView::Html(open_markup(a.class))]) + markups(seq![evs[a.start]])) by {
            assert(open == seq![TokenView::Html(open_markup(a.class))] + seq![evs[a.start]]);
            lemma_markups_add(seq![TokenView::Html(open_markup(a.class))], seq![evs[a.start]]);
        }
        assert(markups(seq![TokenView::Html(open_markup(a.class))]) == seq![open_markup(a.class)]) by {
            reveal_with_fuel(markups, 2);
        }
        assert(markups(close) == seq![close_markup()]) by {
            reveal_with_fuel(markups, 2);
        }
        lemma_markups_add(pre, open);
        lemma_markups_add(pre + open, body);
        lemma_markups_add(pre + open + body, close);
        lemma_markups_add(pre + open + body + close, rest);
        assert(rewrite_from(evs, anns, k, cursor) == pre + open + body + close + rest);
        assert(markups(rewrite_from(evs, anns, k, cursor)) =~= wrapper_markups(anns, k));
    }
}

/// The wrappers in the output follow the annotations in document order: the
/// n-th opening markup carries the class of the n-th annotation. This holds
/// for a parsed stream, which has no raw markup of the transformation's
/// kind, where no annotated paragraph but the last is left open.
pub proof fn lemma_wrappers_in_order(evs: Seq<TokenView>)
    requires
        forall|i: int| 0 <= i < evs.len() ==> !(#[trigger] evs[i] is Html),
        forall|j: int| 0 <= j && j + 1 < annotations(evs).len() ==> (#[trigger] annotations(evs)[j]).end is Some,
    ensures
        markups(transformed(evs)) == wrapper_markups(annotations(evs), 0),
{
    lemma_annotations_fit(evs);
    lemma_rewrite_markups(evs, 0, 0);
}

/// The length of a rewrite from annotation `k` on, where no paragraph
/// before the last is left open.
proof fn lemma_rewrite_len(evs: Seq<TokenView>, k: int, cursor: int)
    requires
        forall|j: int| 0 <= j && j + 1 < annotations(evs).len() ==> (#[trigger] annotations(evs)[j]).end is Some,
        0 <= k <= annotations(evs).len(),
        0 <= cursor <= evs.len(),
        k < annotations(evs).len() ==> cursor <= annotations(evs)[k].start,
    ensures
        rewrite_from(evs, annotations(evs), k, cursor).len() == evs.len() - cursor + annotations(evs).len() - k,
    decreases annotations(evs).len() - k,
{
    let anns = annotations(evs);
    lemma_annotations_fit(evs);
    if k < anns.len() {
        if k + 1 < anns.len() {
            lemma_annotations_apart(evs, k);
        }
        lemma_rewrite_len(evs, k + 1, resolved_end(evs, anns[k]) + 1);
    }
}

/// Each annotation adds one event: an opening and a closing markup come in
/// and the annotation text goes, where no annotated paragraph but the last is
/// left open.
pub proof fn lemma_one_more_per_annotation(evs: Seq<TokenView>)
    requires
        forall|j: int| 0 <= j && j + 1 < annotations(evs).len() ==> (#[trigger] annotations(evs)[j]).end is Some,
    ensures
        transformed(evs).len() == evs.len() + annotations(evs).len(),
{
    lemma_annotations_fit(evs);
    lemma_rewrite_len(evs, 0, 0);
}

/// With two annotated paragraphs, the first closed, each is wrapped in a div
/// of its own class, and what lies before, between and after them is copied
/// unchanged.
pub proof fn lemma_two_annotations(evs: Seq<TokenView>)
    requires
        annotations(evs).len() == 2,
        annotations(evs)[0].end is Some,
    ensures
        ({
            let a = annotations(evs)[0];
            let b = annotations(evs)[1];
            transformed(evs) == evs.subrange(0, a.start) + wrapped(evs, a)
                + evs.subrange(resolved_end(evs, a) + 1, b.start) + wrapped(evs, b)
                + evs.subrange(resolved_end(evs, b) + 1, evs.len() as int)
        }),
{
    let anns = annotations(evs);
    lemma_annotations_fit(evs);
    lemma_annotations_apart(evs, 0);
    let a = anns[0];
    let b = anns[1];
    assert(rewrite_from(evs, anns, 0, 0) == evs.subrange(0, a.start) + wrapped(evs, a)
        + rewrite_from(evs, anns, 1, resolved_end(evs, a) + 1));
    assert(rewrite_from(evs, anns, 1, resolved_end(evs, a) + 1) == evs.subrange(resolved_end(evs, a) + 1, b.start)
        + wrapped(evs, b) + rewrite_from(evs, anns, 2, resolved_end(evs, b) + 1));
    assert(transformed(evs) =~= evs.subrange(0, a.start) + wrapped(evs, a)
        + evs.subrange(resolved_end(evs, a) + 1, b.start) + wrapped(evs, b)
        + evs.subrange(resolved_end(evs, b) + 1, evs.len() as int));
}

} // verus!
