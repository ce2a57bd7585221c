//! What holds of the closed folds across operations.
use vstd::prelude::*;
use vstd::seq_lib::seq_to_set_is_finite;
use vstd::set_lib::lemma_len_subset;
use crate::fold::closed::{not_hiding, not_within, other_span};
use crate::fold::model::{
    closing_fold, closing_folds, fold_matches_text, fold_wf, folds_wf, has_span, hides,
    hiding_fold, keep_folds, lemma_keep_all, lemma_keep_folds, lemma_normalized_wf,
    lemma_outermost, lemma_rebuilt, lemma_rebuilt_unchanged, normalized, outermost, rebuilt,
    renormalized, visible_position, FoldState,
};
use crate::text::{
    lemma_line_of, lemma_line_of_in_line, lemma_line_of_start, lemma_line_start_bounds,
    lemma_line_start_mono, line_of, line_start, num_lines,
};

verus! {

/// Every fold of `c` is the fold of `s` that it would be recomputed to.
pub open spec fn folds_match_text(s: Seq<char>, c: Seq<FoldState>) -> bool {
    forall|i: int| 0 <= i < c.len() ==> fold_matches_text(s, #[trigger] c[i])
}

/// The lines `first..=last` of `s` can be closed: they are lines of `s`, more than one, and
/// the last one is not the empty line after a final line break.
pub open spec fn closable(s: Seq<char>, first: int, last: int) -> bool {
    &&& 0 <= first < last < num_lines(s)
    &&& line_start(s, last) < line_start(s, last + 1)
}

/// The spans of the folds `c`, as pairs of lines.
pub open spec fn span_pairs(c: Seq<FoldState>) -> Seq<(int, int)> {
    c.map_values(|f: FoldState| (f.header_line, f.last_line))
}

/// A fold recomputed from a text is recomputed to itself: it starts at the start of its
/// header line and ends at the start of the line after its last line, which is not empty.
pub proof fn lemma_normalized_matches(s: Seq<char>, header_start: int, end: int)
    requires
        header_start >= 0,
        end >= 0,
    ensures
        normalized(s, header_start, end) matches Some(f) ==> {
            &&& fold_matches_text(s, f)
            &&& f.header_start == line_start(s, f.header_line)
            &&& f.end == line_start(s, f.last_line + 1)
            &&& closable(s, f.header_line, f.last_line)
        },
{
    let len = s.len() as int;
    let hs = if header_start < len { header_start } else { len };
    let e = if end < len { end } else { len };
    let e1 = if e > 0 { e - 1 } else { 0 };
    lemma_line_of(s, hs);
    lemma_line_of(s, e1);
    let hl = line_of(s, hs);
    let ll = line_of(s, e1);
    if hl < ll {
        // the last line holds `e1`, which is before the end of the text
        assert(e1 < len);
        lemma_line_start_mono(s, hl, ll + 1);
        lemma_line_start_bounds(s, ll);
        let f = normalized(s, header_start, end)->0;
        lemma_line_of_start(s, hl);
        lemma_line_of_in_line(s, ll, line_start(s, ll + 1) - 1);
    }
}

/// Closing lines that can be closed adds the fold of exactly those lines.
pub proof fn lemma_closing_fold_closable(s: Seq<char>, first: int, last: int)
    requires
        closable(s, first, last),
    ensures
        closing_fold(s, first, last) matches Some(f) && f.header_line == first && f.last_line
            == last && fold_matches_text(s, f),
{
    lemma_line_start_mono(s, first, last + 1);
    lemma_line_start_bounds(s, last);
    lemma_line_of_start(s, first);
    lemma_line_of_in_line(s, last, line_start(s, last + 1) - 1);
    lemma_normalized_matches(s, line_start(s, first), line_start(s, last + 1));
}

/// The folds that closing spans adds are well formed and recomputed to themselves.
pub proof fn lemma_closing_folds_match(s: Seq<char>, spans: Seq<crate::fold::FoldSpan>)
    ensures
        folds_match_text(s, closing_folds(s, spans)),
        forall|i: int|
            0 <= i < closing_folds(s, spans).len() ==> fold_wf(#[trigger] closing_folds(s, spans)[i]),
    decreases spans.len(),
{
    if spans.len() > 0 {
        lemma_closing_folds_match(s, spans.drop_last());
        let sp = spans.last();
        let hs = line_start(s, sp.first_line as int);
        let e = line_start(s, sp.last_line as int + 1);
        lemma_line_start_bounds(s, sp.first_line as int);
        lemma_line_start_bounds(s, sp.last_line as int + 1);
        lemma_normalized_matches(s, hs, e);
        lemma_normalized_wf(s, hs, e);
        let prev = closing_folds(s, spans.drop_last());
        let r = closing_folds(s, spans);
        assert forall|i: int| 0 <= i < r.len() implies fold_matches_text(s, #[trigger] r[i])
            && fold_wf(r[i]) by {
            if i < prev.len() {
                assert(r[i] == prev[i]);
            }
        }
    }
}

/// Folds that are recomputed to themselves and kept sorted never share a span.
pub proof fn lemma_matching_spans_distinct(s: Seq<char>, c: Seq<FoldState>)
    requires
        folds_wf(c),
        folds_match_text(s, c),
    ensures
        span_pairs(c).no_duplicates(),
{
    assert forall|i: int, j: int|
        0 <= i < span_pairs(c).len() && 0 <= j < span_pairs(c).len() && i != j implies span_pairs(
        c,
    )[i] != span_pairs(c)[j] by {
        if span_pairs(c)[i] == span_pairs(c)[j] {
            let (a, b) = if i < j {
                (i, j)
            } else {
                (j, i)
            };
            assert(span_pairs(c)[a] == (c[a].header_line, c[a].last_line));
            assert(span_pairs(c)[b] == (c[b].header_line, c[b].last_line));
            lemma_matching_same_key(s, c, a, b);
        }
    }
}

proof fn lemma_matching_same_key(s: Seq<char>, c: Seq<FoldState>, a: int, b: int)
    requires
        folds_wf(c),
        folds_match_text(s, c),
        0 <= a < b < c.len(),
    ensures
        !(c[a].header_line == c[b].header_line && c[a].last_line == c[b].last_line),
{
    if !(c[a].header_line == c[b].header_line && c[a].last_line == c[b].last_line) {
        return;
    }
    let fa = c[a];
    let fb = c[b];
    let fk = c[a + 1];
    assert(fold_matches_text(s, fa));
    assert(fold_matches_text(s, fb));
    assert(fold_matches_text(s, fk));
    assert(fold_wf(fa) && fold_wf(fb) && fold_wf(fk));
    lemma_normalized_matches(s, fa.header_start, fa.end);
    lemma_normalized_matches(s, fb.header_start, fb.end);
    lemma_normalized_matches(s, fk.header_start, fk.end);
    // the neighbour of `a` sorts between `a` and `b`, whose keys are equal
    assert(!crate::fold::model::key_lt(fk, fa));
    if a + 1 < b {
        assert(!crate::fold::model::key_lt(fb, fk));
    }
    assert(fk.header_start == fa.header_start && fk.end == fa.end);
    // equal keys are equal spans
    if fk.header_line < fa.header_line {
        lemma_line_start_mono(s, fk.header_line, fa.header_line);
    } else if fa.header_line < fk.header_line {
        lemma_line_start_mono(s, fa.header_line, fk.header_line);
    }
    if fk.last_line < fa.last_line {
        lemma_line_start_mono(s, fk.last_line + 1, fa.last_line);
    } else if fa.last_line < fk.last_line {
        lemma_line_start_mono(s, fa.last_line + 1, fk.last_line);
    }
    assert(!crate::fold::model::same_span(c[a], c[a + 1]));
}

/// The spans of `c` are the pairs of lines of its folds.
pub proof fn lemma_span_set(c: Seq<FoldState>)
    ensures
        span_pairs(c).to_set().finite(),
        span_pairs(c).len() == c.len(),
        forall|h: int, l: int|
            #[trigger] has_span(c, h, l) <==> span_pairs(c).to_set().contains((h, l)),
{
    seq_to_set_is_finite(span_pairs(c));
    assert forall|h: int, l: int| #[trigger] has_span(c, h, l) <==> span_pairs(c).to_set().contains(
        (h, l),
    ) by {
        if has_span(c, h, l) {
            let i = choose|i: int|
                0 <= i < c.len() && #[trigger] c[i].header_line == h && c[i].last_line == l;
            assert(span_pairs(c)[i] == (h, l));
            assert(span_pairs(c).contains((h, l)));
        }
        if span_pairs(c).to_set().contains((h, l)) {
            assert(span_pairs(c).contains((h, l)));
            let i = choose|i: int| 0 <= i < span_pairs(c).len() && span_pairs(c)[i] == (h, l);
            assert(c[i].header_line == h && c[i].last_line == l);
        }
    }
}

/// Closing spans (`close_all`) of folds that belong to the text `s` keeps them belonging to
/// it, adds the span of each fold it closes, and reports a change exactly when one of those
/// spans was open before.
pub proof fn law_close_all_reports_open_spans(
    s: Seq<char>,
    c: Seq<FoldState>,
    spans: Seq<crate::fold::FoldSpan>,
)
    requires
        folds_wf(c),
        folds_match_text(s, c),
    ensures
        ({
            let n = closing_folds(s, spans);
            let r = rebuilt(c + n);
            &&& folds_wf(r)
            &&& folds_match_text(s, r)
            &&& forall|h: int, l: int|
                #[trigger] has_span(r, h, l) <==> (has_span(c, h, l) || has_span(n, h, l))
            &&& (r.len() != c.len()) == exists|i: int|
                0 <= i < n.len() && !has_span(c, #[trigger] n[i].header_line, n[i].last_line)
            &&& r.len() >= c.len()
        }),
{
    let n = closing_folds(s, spans);
    let cc = c + n;
    let r = rebuilt(cc);
    lemma_closing_folds_match(s, spans);
    assert forall|i: int| 0 <= i < cc.len() implies fold_wf(#[trigger] cc[i])
        && fold_matches_text(s, cc[i]) by {
        if i < c.len() {
            assert(cc[i] == c[i]);
        } else {
            assert(cc[i] == n[i - c.len()]);
        }
    }
    lemma_rebuilt(cc);
    assert forall|i: int| 0 <= i < r.len() implies fold_matches_text(s, #[trigger] r[i]) by {
        assert(r.contains(r[i]));
        let k = choose|k: int| 0 <= k < cc.len() && cc[k] == r[i];
    }
    assert forall|h: int, l: int| #[trigger] has_span(cc, h, l) <==> (has_span(c, h, l) || has_span(
        n,
        h,
        l,
    )) by {
        if has_span(cc, h, l) {
            let i = choose|i: int|
                0 <= i < cc.len() && #[trigger] cc[i].header_line == h && cc[i].last_line == l;
            if i < c.len() {
                assert(c[i] == cc[i]);
            } else {
                assert(n[i - c.len()] == cc[i]);
            }
        }
        if has_span(c, h, l) {
            let i = choose|i: int|
                0 <= i < c.len() && #[trigger] c[i].header_line == h && c[i].last_line == l;
            assert(cc[i] == c[i]);
        }
        if has_span(n, h, l) {
            let i = choose|i: int|
                0 <= i < n.len() && #[trigger] n[i].header_line == h && n[i].last_line == l;
            assert(cc[i + c.len()] == n[i]);
        }
    }
    // count the spans
    lemma_span_set(c);
    lemma_span_set(r);
    lemma_matching_spans_distinct(s, c);
    lemma_matching_spans_distinct(s, r);
    span_pairs(c).unique_seq_to_set();
    span_pairs(r).unique_seq_to_set();
    let a = span_pairs(c).to_set();
    let b = span_pairs(r).to_set();
    assert forall|x: (int, int)| a.contains(x) implies b.contains(x) by {
        assert(has_span(c, x.0, x.1));
        assert(has_span(r, x.0, x.1));
    }
    assert(a.subset_of(b));
    if exists|i: int| 0 <= i < n.len() && !has_span(c, #[trigger] n[i].header_line, n[i].last_line) {
        let i = choose|i: int|
            0 <= i < n.len() && !has_span(c, #[trigger] n[i].header_line, n[i].last_line);
        let x = (n[i].header_line, n[i].last_line);
        assert(has_span(n, x.0, x.1));
        assert(has_span(r, x.0, x.1));
        assert(!has_span(c, x.0, x.1));
        assert(b.contains(x) && !a.contains(x));
        assert(a.insert(x).subset_of(b));
        lemma_len_subset(a.insert(x), b);
    } else {
        assert(b.subset_of(a)) by {
            assert forall|x: (int, int)| b.contains(x) implies a.contains(x) by {
                assert(has_span(r, x.0, x.1));
                if has_span(n, x.0, x.1) {
                    let i = choose|i: int|
                        0 <= i < n.len() && #[trigger] n[i].header_line == x.0 && n[i].last_line
                            == x.1;
                }
            }
        }
        assert(a =~= b);
    }
}

/// Closing lines that can be closed (`close`), in folds that belong to the text `s`, reports
/// whether they were open before, and leaves them closed.
pub proof fn law_close_reports_open(s: Seq<char>, c: Seq<FoldState>, span: crate::fold::FoldSpan)
    requires
        folds_wf(c),
        folds_match_text(s, c),
        closable(s, span.first_line as int, span.last_line as int),
    ensures
        ({
            let r = rebuilt(c + closing_folds(s, seq![span]));
            &&& has_span(r, span.first_line as int, span.last_line as int)
            &&& forall|h: int, l: int|
                #[trigger] has_span(r, h, l) <==> (has_span(c, h, l) || (h == span.first_line
                    && l == span.last_line))
            &&& (r.len() != c.len()) == !has_span(c, span.first_line as int, span.last_line as int)
            &&& folds_wf(r)
            &&& folds_match_text(s, r)
        }),
{
    let sp = seq![span];
    lemma_closing_fold_closable(s, span.first_line as int, span.last_line as int);
    assert(sp.drop_last() =~= Seq::<crate::fold::FoldSpan>::empty());
    assert(closing_folds(s, Seq::<crate::fold::FoldSpan>::empty()) == Seq::<FoldState>::empty());
    assert(sp.last() == span);
    let n = closing_folds(s, sp);
    assert(n.len() == 1);
    law_close_all_reports_open_spans(s, c, sp);
    assert(has_span(n, span.first_line as int, span.last_line as int));
    assert forall|h: int, l: int| #[trigger] has_span(n, h, l) <==> (h == span.first_line && l
        == span.last_line) by {
        if has_span(n, h, l) {
            let i = choose|i: int|
                0 <= i < n.len() && #[trigger] n[i].header_line == h && n[i].last_line == l;
        }
    }
    let r = rebuilt(c + n);
    if (r.len() != c.len()) {
        let i = choose|i: int|
            0 <= i < n.len() && !has_span(c, #[trigger] n[i].header_line, n[i].last_line);
        assert(i == 0);
    } else {
        if !has_span(c, span.first_line as int, span.last_line as int) {
            assert(!has_span(c, n[0].header_line, n[0].last_line));
        }
    }
}

/// Keeping the closed folds for which `keep` holds and rebuilding them only when some fold
/// was dropped.
pub open spec fn retained_folds(c: Seq<FoldState>, keep: spec_fn(FoldState) -> bool) -> Seq<
    FoldState,
> {
    if keep_folds(c, keep).len() != c.len() {
        rebuilt(keep_folds(c, keep))
    } else {
        c
    }
}

/// Dropping the folds for which `keep` fails keeps exactly the spans of the other folds, and
/// changes something exactly when some fold fails `keep`.
proof fn lemma_retained(c: Seq<FoldState>, keep: spec_fn(FoldState) -> bool)
    requires
        folds_wf(c),
    ensures
        folds_wf(retained_folds(c, keep)),
        forall|x: FoldState| #[trigger] retained_folds(c, keep).contains(x) ==> c.contains(x)
            && keep(x),
        forall|h: int, l: int|
            #[trigger] has_span(retained_folds(c, keep), h, l) <==> exists|i: int|
                0 <= i < c.len() && #[trigger] c[i].header_line == h && c[i].last_line == l
                    && keep(c[i]),
        (keep_folds(c, keep).len() != c.len()) == exists|i: int|
            0 <= i < c.len() && !keep(#[trigger] c[i]),
{
    let k = keep_folds(c, keep);
    lemma_keep_folds(c, keep);
    let r = retained_folds(c, keep);
    if k.len() == c.len() {
        lemma_keep_all(c, keep);
        assert forall|i: int| 0 <= i < c.len() implies keep(#[trigger] c[i]) by {
            assert(c.contains(c[i]));
        }
        assert forall|x: FoldState| #[trigger] r.contains(x) implies c.contains(x) && keep(x) by {}
        assert forall|h: int, l: int| #[trigger] has_span(r, h, l) <==> exists|i: int|
            0 <= i < c.len() && #[trigger] c[i].header_line == h && c[i].last_line == l && keep(
                c[i],
            ) by {}
    } else {
        assert forall|i: int| 0 <= i < k.len() implies fold_wf(#[trigger] k[i]) by {
            assert(k.contains(k[i]));
            let m = choose|m: int| 0 <= m < c.len() && c[m] == k[i];
        }
        lemma_rebuilt(k);
        assert forall|x: FoldState| #[trigger] r.contains(x) implies c.contains(x) && keep(x) by {
            assert(k.contains(x));
        }
        assert forall|h: int, l: int| #[trigger] has_span(r, h, l) <==> exists|i: int|
            0 <= i < c.len() && #[trigger] c[i].header_line == h && c[i].last_line == l && keep(
                c[i],
            ) by {
            if has_span(r, h, l) {
                assert(has_span(k, h, l));
                let j = choose|j: int|
                    0 <= j < k.len() && #[trigger] k[j].header_line == h && k[j].last_line == l;
                assert(k.contains(k[j]));
                let i = choose|i: int| 0 <= i < c.len() && c[i] == k[j];
                assert(c[i].header_line == h && c[i].last_line == l && keep(c[i]));
            }
            if exists|i: int|
                0 <= i < c.len() && #[trigger] c[i].header_line == h && c[i].last_line == l
                    && keep(c[i]) {
                let i = choose|i: int|
                    0 <= i < c.len() && #[trigger] c[i].header_line == h && c[i].last_line == l
                        && keep(c[i]);
                assert(c.contains(c[i]));
                assert(k.contains(c[i]));
                let j = choose|j: int| 0 <= j < k.len() && k[j] == c[i];
                assert(k[j].header_line == h && k[j].last_line == l);
                assert(has_span(k, h, l));
            }
        }
        if forall|i: int| 0 <= i < c.len() ==> keep(#[trigger] c[i]) {
            lemma_keep_all_kept(c, keep);
        }
    }
}

proof fn lemma_keep_all_kept(c: Seq<FoldState>, keep: spec_fn(FoldState) -> bool)
    requires
        forall|i: int| 0 <= i < c.len() ==> keep(#[trigger] c[i]),
    ensures
        keep_folds(c, keep) == c,
    decreases c.len(),
{
    if c.len() > 0 {
        let d = c.drop_last();
        assert forall|i: int| 0 <= i < d.len() implies keep(#[trigger] d[i]) by {
            assert(d[i] == c[i]);
        }
        lemma_keep_all_kept(d, keep);
        assert(keep(c[c.len() - 1]));
        assert(d.push(c.last()) =~= c);
    }
}

/// Opening a span (`open`) opens exactly the folds of that span, and leaves the folds nested in
/// it closed; it reports whether the span was closed.
pub proof fn law_open_opens_only_span(c: Seq<FoldState>, span: crate::fold::FoldSpan)
    requires
        folds_wf(c),
    ensures
        ({
            let r = retained_folds(c, other_span(span));
            &&& folds_wf(r)
            &&& forall|h: int, l: int|
                #[trigger] has_span(r, h, l) <==> (has_span(c, h, l) && !(h == span.first_line
                    && l == span.last_line))
            &&& (keep_folds(c, other_span(span)).len() != c.len()) == has_span(
                c,
                span.first_line as int,
                span.last_line as int,
            )
        }),
{
    let keep = other_span(span);
    lemma_retained(c, keep);
    let r = retained_folds(c, keep);
    assert forall|h: int, l: int| #[trigger] has_span(r, h, l) <==> (has_span(c, h, l) && !(h
        == span.first_line && l == span.last_line)) by {
        if has_span(c, h, l) && !(h == span.first_line && l == span.last_line) {
            let i = choose|i: int|
                0 <= i < c.len() && #[trigger] c[i].header_line == h && c[i].last_line == l;
            assert(keep(c[i]));
        }
    }
    if has_span(c, span.first_line as int, span.last_line as int) {
        let i = choose|i: int|
            0 <= i < c.len() && #[trigger] c[i].header_line == span.first_line && c[i].last_line
                == span.last_line;
        assert(!keep(c[i]));
    }
}

/// Opening the folds within a span (`open_within`) opens exactly the folds inside it and
/// reports whether there was one.
pub proof fn law_open_within_opens_inner_folds(c: Seq<FoldState>, span: crate::fold::FoldSpan)
    requires
        folds_wf(c),
    ensures
        ({
            let r = retained_folds(c, not_within(span));
            &&& folds_wf(r)
            &&& forall|h: int, l: int|
                #[trigger] has_span(r, h, l) <==> (has_span(c, h, l) && !(span.first_line <= h
                    && l <= span.last_line))
            &&& (keep_folds(c, not_within(span)).len() != c.len()) == exists|i: int|
                0 <= i < c.len() && span.first_line <= #[trigger] c[i].header_line && c[i].last_line
                    <= span.last_line
        }),
{
    let keep = not_within(span);
    lemma_retained(c, keep);
    let r = retained_folds(c, keep);
    assert forall|h: int, l: int| #[trigger] has_span(r, h, l) <==> (has_span(c, h, l) && !(
    span.first_line <= h && l <= span.last_line)) by {
        if has_span(c, h, l) && !(span.first_line <= h && l <= span.last_line) {
            let i = choose|i: int|
                0 <= i < c.len() && #[trigger] c[i].header_line == h && c[i].last_line == l;
            assert(keep(c[i]));
        }
    }
    if exists|i: int|
        0 <= i < c.len() && span.first_line <= #[trigger] c[i].header_line && c[i].last_line
            <= span.last_line {
        let i = choose|i: int|
            0 <= i < c.len() && span.first_line <= #[trigger] c[i].header_line && c[i].last_line
                <= span.last_line;
        assert(!keep(c[i]));
    }
    if exists|i: int| 0 <= i < c.len() && !keep(#[trigger] c[i]) {
        let i = choose|i: int| 0 <= i < c.len() && !keep(#[trigger] c[i]);
        assert(span.first_line <= c[i].header_line && c[i].last_line <= span.last_line);
    }
}

/// Revealing a position (`reveal_char`) leaves no closed fold that hides it, so that it is
/// visible; it reports whether a closed fold hid it.
pub proof fn law_reveal_makes_visible(c: Seq<FoldState>, x: int)
    requires
        folds_wf(c),
    ensures
        ({
            let r = retained_folds(c, not_hiding(x));
            &&& folds_wf(r)
            &&& forall|i: int| 0 <= i < r.len() ==> !hides(#[trigger] r[i], x)
            &&& hiding_fold(outermost(r), x) is None
            &&& (keep_folds(c, not_hiding(x)).len() != c.len()) == exists|i: int|
                0 <= i < c.len() && hides(#[trigger] c[i], x)
        }),
{
    let keep = not_hiding(x);
    lemma_retained(c, keep);
    let r = retained_folds(c, keep);
    assert forall|i: int| 0 <= i < r.len() implies !hides(#[trigger] r[i], x) by {
        assert(r.contains(r[i]));
    }
    lemma_outermost(r);
    let fs = outermost(r);
    assert forall|i: int| 0 <= i < fs.len() implies !hides(#[trigger] fs[i], x) by {
        assert(fs.contains(fs[i]));
        let k = choose|k: int| 0 <= k < r.len() && r[k] == fs[i];
    }
    if exists|i: int| 0 <= i < c.len() && hides(#[trigger] c[i], x) {
        let i = choose|i: int| 0 <= i < c.len() && hides(#[trigger] c[i], x);
        assert(!keep(c[i]));
    }
    if exists|i: int| 0 <= i < c.len() && !keep(#[trigger] c[i]) {
        let i = choose|i: int| 0 <= i < c.len() && !keep(#[trigger] c[i]);
        assert(hides(c[i], x));
    }
}

/// Dropping closed folds keeps the others belonging to the text.
proof fn lemma_retained_match(s: Seq<char>, c: Seq<FoldState>, keep: spec_fn(FoldState) -> bool)
    requires
        folds_wf(c),
        folds_match_text(s, c),
    ensures
        folds_wf(retained_folds(c, keep)),
        folds_match_text(s, retained_folds(c, keep)),
{
    lemma_retained(c, keep);
    let r = retained_folds(c, keep);
    assert forall|i: int| 0 <= i < r.len() implies fold_matches_text(s, #[trigger] r[i]) by {
        assert(r.contains(r[i]));
        let k = choose|k: int| 0 <= k < c.len() && c[k] == r[i];
    }
}

/// Positions moved through edits stay positions.
proof fn lemma_map_from_nonneg(
    ops: Seq<crate::changes::Op>,
    i: int,
    old_pos: int,
    new_pos: int,
    pos: int,
    assoc: crate::changes::Assoc,
)
    requires
        0 <= new_pos,
        old_pos <= pos,
    ensures
        crate::changes::map_from(ops, i, old_pos, new_pos, pos, assoc) >= 0,
    decreases ops.len() - i,
{
    if 0 <= i < ops.len() {
        match ops[i] {
            crate::changes::Op::Retain(n) => {
                if old_pos + n <= pos {
                    lemma_map_from_nonneg(ops, i + 1, old_pos + n, new_pos + n, pos, assoc);
                }
            },
            crate::changes::Op::Delete(n) => {
                if old_pos + n <= pos {
                    lemma_map_from_nonneg(ops, i + 1, old_pos + n, new_pos, pos, assoc);
                }
            },
            crate::changes::Op::Insert(t) => {
                if i + 1 < ops.len() && ops[i + 1] is Delete {
                    let d = ops[i + 1]->Delete_0;
                    if old_pos + d <= pos {
                        lemma_map_from_nonneg(ops, i + 2, old_pos + d, new_pos + t.len(), pos, assoc);
                    }
                } else if old_pos != pos {
                    lemma_map_from_nonneg(ops, i + 1, old_pos, new_pos + t.len(), pos, assoc);
                }
            },
        }
    }
}

/// Every operation keeps the closed folds well formed and belonging to the text: closing
/// spans (`close`, `close_all`), opening a span (`open`), the folds within a span
/// (`open_within`) or those that hide a char (`reveal_char`), and refreshing (`refresh`);
/// `map` moves them onto the edited text `t`. A set of folds with no closed fold (`default`,
/// `open_all`) belongs to every text, so this holds in every state reached from it.
pub proof fn law_operations_keep_folds_matching(
    s: Seq<char>,
    c: Seq<FoldState>,
    spans: Seq<crate::fold::FoldSpan>,
    span: crate::fold::FoldSpan,
    x: int,
    t: Seq<char>,
    ops: Seq<crate::changes::Op>,
)
    requires
        folds_wf(c),
        folds_match_text(s, c),
    ensures
        folds_wf(Seq::<FoldState>::empty()) && folds_match_text(s, Seq::<FoldState>::empty()),
        ({
            let r = rebuilt(c + closing_folds(s, spans));
            folds_wf(r) && folds_match_text(s, r)
        }),
        ({
            let r = retained_folds(c, other_span(span));
            folds_wf(r) && folds_match_text(s, r)
        }),
        ({
            let r = retained_folds(c, not_within(span));
            folds_wf(r) && folds_match_text(s, r)
        }),
        ({
            let r = retained_folds(c, not_hiding(x));
            folds_wf(r) && folds_match_text(s, r)
        }),
        ({
            let r = rebuilt(renormalized(s, c));
            folds_wf(r) && folds_match_text(s, r)
        }),
        ({
            let r = if c.len() == 0 {
                c
            } else {
                rebuilt(renormalized(t, crate::fold::closed::mapped_folds(c, ops)))
            };
            folds_wf(r) && folds_match_text(t, r)
        }),
{
    law_close_all_reports_open_spans(s, c, spans);
    lemma_retained_match(s, c, other_span(span));
    lemma_retained_match(s, c, not_within(span));
    lemma_retained_match(s, c, not_hiding(x));
    law_refresh_keeps_matching_folds(s, c);
    if c.len() > 0 {
        let mc = crate::fold::closed::mapped_folds(c, ops);
        assert forall|i: int| 0 <= i < mc.len() implies #[trigger] mc[i].header_start >= 0
            && mc[i].end >= 0 by {
            assert(fold_wf(c[i]));
            lemma_map_from_nonneg(ops, 0, 0, 0, c[i].header_start, crate::changes::Assoc::After);
            lemma_map_from_nonneg(ops, 0, 0, 0, c[i].end, crate::changes::Assoc::Before);
        }
        law_refresh_matches_text(t, mc);
    }
}

/// The number that the decimal digits `d` write, most significant first.
pub open spec fn digits_value(d: Seq<char>) -> int
    decreases d.len(),
{
    if d.len() == 0 {
        0
    } else {
        digits_value(d.drop_last()) * 10 + (d.last() as int - '0' as int)
    }
}

/// Every char of `d` is a decimal digit.
pub open spec fn all_digits(d: Seq<char>) -> bool {
    forall|i: int| 0 <= i < d.len() ==> '0' <= #[trigger] d[i] <= '9'
}

/// The decimal digits of `n` read back as `n`, with no leading zero.
pub proof fn law_decimal_reads_back(n: nat)
    ensures
        all_digits(crate::fold::model::decimal(n)),
        digits_value(crate::fold::model::decimal(n)) == n,
        crate::fold::model::decimal(n).len() >= 1,
        n > 0 ==> crate::fold::model::decimal(n)[0] != '0',
    decreases n,
{
    let d = crate::fold::model::decimal(n);
    if n < 10 {
        assert(d.drop_last() =~= Seq::<char>::empty());
        assert(digits_value(Seq::<char>::empty()) == 0);
    } else {
        law_decimal_reads_back(n / 10);
        let p = crate::fold::model::decimal(n / 10);
        assert(d.drop_last() =~= p);
        assert(d[0] == p[0]);
        assert((n / 10) * 10 + n % 10 == n);
        assert forall|i: int| 0 <= i < d.len() implies '0' <= #[trigger] d[i] <= '9' by {
            if i < p.len() {
                assert(d[i] == p[i]);
            }
        }
    }
}

/// The placeholder of a well formed fold shows the number of lines it hides in decimal:
/// " … 1 line", " … 12 lines".
pub proof fn law_placeholder_counts_hidden_lines(f: FoldState)
    requires
        fold_wf(f),
    ensures
        exists|d: Seq<char>|
            all_digits(d) && d.len() >= 1 && d[0] != '0' && #[trigger] digits_value(d)
                == f.last_line - f.header_line && (
            seq![' ', '…', ' '] + d + if f.last_line - f.header_line == 1 {
                seq![' ', 'l', 'i', 'n', 'e']
            } else {
                seq![' ', 'l', 'i', 'n', 'e', 's']
            }) == f.placeholder,
{
    let h = f.last_line - f.header_line;
    law_decimal_reads_back(h as nat);
    let d = crate::fold::model::decimal(h as nat);
    assert((seq![' ', '…', ' '] + d + if h == 1 {
        seq![' ', 'l', 'i', 'n', 'e']
    } else {
        seq![' ', 'l', 'i', 'n', 'e', 's']
    }) == f.placeholder);
}

/// Refreshing (`refresh`) folds that belong to the text changes nothing.
pub proof fn law_refresh_keeps_matching_folds(s: Seq<char>, c: Seq<FoldState>)
    requires
        folds_wf(c),
        folds_match_text(s, c),
    ensures
        rebuilt(renormalized(s, c)) == c,
{
    lemma_renormalized_unchanged(s, c);
    lemma_rebuilt_unchanged(c);
}

proof fn lemma_renormalized_unchanged(s: Seq<char>, c: Seq<FoldState>)
    requires
        folds_match_text(s, c),
    ensures
        renormalized(s, c) == c,
    decreases c.len(),
{
    if c.len() > 0 {
        let d = c.drop_last();
        assert forall|i: int| 0 <= i < d.len() implies fold_matches_text(s, #[trigger] d[i]) by {
            assert(d[i] == c[i]);
        }
        lemma_renormalized_unchanged(s, d);
        assert(fold_matches_text(s, c[c.len() - 1]));
        assert(d.push(c.last()) =~= c);
    }
}

/// After a refresh (`refresh`, and so `map`), every closed fold belongs to the text.
pub proof fn law_refresh_matches_text(s: Seq<char>, c: Seq<FoldState>)
    requires
        forall|i: int| 0 <= i < c.len() ==> #[trigger] c[i].header_start >= 0 && c[i].end >= 0,
    ensures
        folds_wf(rebuilt(renormalized(s, c))),
        folds_match_text(s, rebuilt(renormalized(s, c))),
{
    lemma_renormalized_matches(s, c);
    let n = renormalized(s, c);
    lemma_rebuilt(n);
    let r = rebuilt(n);
    assert forall|i: int| 0 <= i < r.len() implies fold_matches_text(s, #[trigger] r[i]) by {
        assert(r.contains(r[i]));
        let k = choose|k: int| 0 <= k < n.len() && n[k] == r[i];
    }
}

proof fn lemma_renormalized_matches(s: Seq<char>, c: Seq<FoldState>)
    requires
        forall|i: int| 0 <= i < c.len() ==> #[trigger] c[i].header_start >= 0 && c[i].end >= 0,
    ensures
        folds_match_text(s, renormalized(s, c)),
        forall|i: int|
            0 <= i < renormalized(s, c).len() ==> fold_wf(#[trigger] renormalized(s, c)[i]),
    decreases c.len(),
{
    if c.len() > 0 {
        let d = c.drop_last();
        assert forall|i: int| 0 <= i < d.len() implies #[trigger] d[i].header_start >= 0
            && d[i].end >= 0 by {
            assert(d[i] == c[i]);
        }
        lemma_renormalized_matches(s, d);
        assert(c[c.len() - 1].header_start >= 0 && c[c.len() - 1].end >= 0);
        lemma_normalized_matches(s, c.last().header_start, c.last().end);
        lemma_normalized_wf(s, c.last().header_start, c.last().end);
        let prev = renormalized(s, d);
        let r = renormalized(s, c);
        assert forall|i: int| 0 <= i < r.len() implies fold_matches_text(s, #[trigger] r[i])
            && fold_wf(r[i]) by {
            if i < prev.len() {
                assert(r[i] == prev[i]);
            }
        }
    }
}

/// A hidden position is shown on the header of the fold that hides it (`visible_pos`), at a
/// position that the fold does not hide; a visible position is shown where it is.
pub proof fn law_visible_pos_on_header(s: Seq<char>, c: Seq<FoldState>, x: int)
    requires
        folds_wf(c),
        0 <= x <= s.len(),
    ensures
        ({
            let fs = outermost(c);
            let p = visible_position(s, fs, x);
            &&& hiding_fold(fs, x) is None ==> p == x
            &&& hiding_fold(fs, x) matches Some(f) ==> f.header_start <= p <= f.start && !hides(
                f,
                p,
            )
        }),
{
    let fs = outermost(c);
    lemma_outermost(c);
    lemma_line_of(s, x);
    if exists|i: int| 0 <= i < fs.len() && hides(#[trigger] fs[i], x) {
        let i = choose|i: int| 0 <= i < fs.len() && hides(#[trigger] fs[i], x);
        assert(fold_wf(fs[i]));
    }
}

/// For folds that belong to the text, a hidden position is shown (`visible_pos`) on the header
/// line of the fold that hides it, in the same column if the header line is that long, else
/// on the last char of the header line (or at its start when it is empty).
pub proof fn law_visible_pos_keeps_column(s: Seq<char>, c: Seq<FoldState>, x: int)
    requires
        folds_wf(c),
        folds_match_text(s, c),
        0 <= x <= s.len(),
        hiding_fold(outermost(c), x) is Some,
    ensures
        ({
            let h = hiding_fold(outermost(c), x)->0.header_line;
            let p = visible_position(s, outermost(c), x);
            let col = x - line_start(s, line_of(s, x));
            let header_len = crate::text::line_end(s, h) - line_start(s, h);
            &&& line_of(s, p) == h
            &&& col < header_len ==> p - line_start(s, h) == col
            &&& col >= header_len > 0 ==> p == crate::text::line_end(s, h) - 1
            &&& header_len == 0 ==> p == line_start(s, h)
        }),
{
    let fs = outermost(c);
    lemma_outermost(c);
    let i = choose|i: int| 0 <= i < fs.len() && hides(#[trigger] fs[i], x);
    let k = choose|k: int| 0 <= k < fs.len() && hides(#[trigger] fs[k], x);
    crate::fold::model::lemma_hides_unique(fs, x, i, k);
    let f = fs[i];
    assert(hiding_fold(fs, x) == Some(f));
    assert(fs.contains(f));
    let a = choose|a: int| 0 <= a < c.len() && c[a] == f;
    assert(fold_wf(c[a]) && fold_matches_text(s, c[a]));
    lemma_normalized_matches(s, f.header_start, f.end);
    let h = f.header_line;
    crate::text::lemma_line_end(s, h);
    crate::text::lemma_line_end_before_next(s, h);
    lemma_line_of(s, x);
    let p = visible_position(s, fs, x);
    assert(line_start(s, h) <= p < line_start(s, h + 1));
    lemma_line_of_in_line(s, h, p);
}

/// For folds that belong to the text, the position shown for a char (`visible_pos`) is hidden
/// by no rendered fold.
pub proof fn law_visible_pos_is_visible(s: Seq<char>, c: Seq<FoldState>, x: int)
    requires
        folds_wf(c),
        folds_match_text(s, c),
        0 <= x <= s.len(),
    ensures
        hiding_fold(outermost(c), visible_position(s, outermost(c), x)) is None,
{
    let fs = outermost(c);
    law_visible_pos_on_header(s, c, x);
    law_folded_sorted_by_header(s, c);
    lemma_outermost(c);
    let p = visible_position(s, fs, x);
    if exists|i: int| 0 <= i < fs.len() && hides(#[trigger] fs[i], x) {
        let i = choose|i: int| 0 <= i < fs.len() && hides(#[trigger] fs[i], x);
        let f = fs[i];
        assert(hiding_fold(fs, x) is Some);
        let k = choose|k: int| 0 <= k < fs.len() && hides(#[trigger] fs[k], x);
        crate::fold::model::lemma_hides_unique(fs, x, i, k);
        assert(hiding_fold(fs, x) == Some(f));
        assert forall|j: int| 0 <= j < fs.len() implies !hides(#[trigger] fs[j], p) by {
            if j < i {
                // the fold before ends at the start of the header line of `f` or earlier
                let g = fs[j];
                assert(fs.contains(g));
                let a = choose|a: int| 0 <= a < c.len() && c[a] == g;
                assert(fs.contains(f));
                let b = choose|b: int| 0 <= b < c.len() && c[b] == f;
                assert(fold_matches_text(s, c[a]) && fold_matches_text(s, c[b]));
                assert(fold_wf(c[a]) && fold_wf(c[b]));
                lemma_normalized_matches(s, g.header_start, g.end);
                lemma_normalized_matches(s, f.header_start, f.end);
                assert(g.last_line < f.header_line);
                lemma_line_start_mono(s, g.last_line + 1, f.header_line);
            } else if j > i {
                assert(f.end <= fs[j].start);
            }
        }
    } else {
        assert(hiding_fold(fs, x) is None);
    }
}

/// The rendered folds of folds that belong to the text are sorted by header line, each
/// header coming after the last line of the fold before it, so that they never share a line;
/// so `folded_at_header` finds the rendered fold of every header.
pub proof fn law_folded_sorted_by_header(s: Seq<char>, c: Seq<FoldState>)
    requires
        folds_wf(c),
        folds_match_text(s, c),
    ensures
        forall|i: int, j: int|
            0 <= i < j < outermost(c).len() ==> #[trigger] outermost(c)[i].last_line
                < #[trigger] outermost(c)[j].header_line,
        forall|i: int, j: int|
            0 <= i < j < outermost(c).len() ==> #[trigger] outermost(c)[i].header_line
                < #[trigger] outermost(c)[j].header_line,
{
    let fs = outermost(c);
    lemma_outermost(c);
    assert forall|i: int| 0 <= i < fs.len() implies fold_matches_text(s, #[trigger] fs[i]) by {
        assert(fs.contains(fs[i]));
        let k = choose|k: int| 0 <= k < c.len() && c[k] == fs[i];
    }
    assert forall|i: int, j: int| 0 <= i < j < fs.len() implies #[trigger] fs[i].last_line
        < #[trigger] fs[j].header_line by {
        let p = fs[i];
        let q = fs[j];
        assert(fold_matches_text(s, p) && fold_matches_text(s, q));
        lemma_normalized_matches(s, p.header_start, p.end);
        lemma_normalized_matches(s, q.header_start, q.end);
        assert(p.end <= q.start);
        // the header line of `q` is followed by another line, so it ends with a line break
        crate::text::lemma_line_end_before_next(s, q.header_line);
        if q.header_line <= p.last_line {
            lemma_line_start_mono(s, q.header_line + 1, p.last_line + 1);
        }
    }
}

/// Two folds that belong to the same text and have the same span are the same fold.
proof fn lemma_matching_determined(s: Seq<char>, f: FoldState, g: FoldState)
    requires
        fold_wf(f),
        fold_wf(g),
        fold_matches_text(s, f),
        fold_matches_text(s, g),
        f.header_line == g.header_line,
        f.last_line == g.last_line,
    ensures
        f == g,
{
    lemma_normalized_matches(s, f.header_start, f.end);
    lemma_normalized_matches(s, g.header_start, g.end);
}

/// Folds that belong to the same text and start at the same char and end at the same char
/// have the same span.
proof fn lemma_matching_key(s: Seq<char>, f: FoldState, g: FoldState)
    requires
        fold_wf(f),
        fold_wf(g),
        fold_matches_text(s, f),
        fold_matches_text(s, g),
        f.header_start == g.header_start,
        f.end == g.end,
    ensures
        f.header_line == g.header_line,
        f.last_line == g.last_line,
{
    lemma_normalized_matches(s, f.header_start, f.end);
    lemma_normalized_matches(s, g.header_start, g.end);
    if f.header_line < g.header_line {
        lemma_line_start_mono(s, f.header_line, g.header_line);
    } else if g.header_line < f.header_line {
        lemma_line_start_mono(s, g.header_line, f.header_line);
    }
    if f.last_line < g.last_line {
        lemma_line_start_mono(s, f.last_line + 1, g.last_line);
    } else if g.last_line < f.last_line {
        lemma_line_start_mono(s, g.last_line + 1, f.last_line);
    }
}

/// Closed folds that belong to a text are strictly sorted.
pub(crate) proof fn lemma_matching_strictly_sorted(s: Seq<char>, c: Seq<FoldState>)
    requires
        folds_wf(c),
        folds_match_text(s, c),
    ensures
        forall|i: int, j: int|
            0 <= i < j < c.len() ==> crate::fold::model::key_lt(#[trigger] c[i], #[trigger] c[j]),
{
    lemma_matching_spans_distinct(s, c);
    assert forall|i: int, j: int| 0 <= i < j < c.len() implies crate::fold::model::key_lt(
        #[trigger] c[i],
        #[trigger] c[j],
    ) by {
        assert(fold_wf(c[i]) && fold_wf(c[j]));
        assert(fold_matches_text(s, c[i]) && fold_matches_text(s, c[j]));
        assert(span_pairs(c)[i] != span_pairs(c)[j]);
        if c[i].header_start == c[j].header_start && c[i].end == c[j].end {
            lemma_matching_key(s, c[i], c[j]);
        }
    }
}

/// Two strictly sorted sequences of folds with the same folds are equal.
proof fn lemma_sorted_same_folds(a: Seq<FoldState>, b: Seq<FoldState>)
    requires
        forall|i: int, j: int|
            0 <= i < j < a.len() ==> crate::fold::model::key_lt(#[trigger] a[i], #[trigger] a[j]),
        forall|i: int, j: int|
            0 <= i < j < b.len() ==> crate::fold::model::key_lt(#[trigger] b[i], #[trigger] b[j]),
        forall|x: FoldState|
            #![trigger a.contains(x)]
            #![trigger b.contains(x)]
            a.contains(x) <==> b.contains(x),
    ensures
        a == b,
    decreases a.len() + b.len(),
{
    if a.len() == 0 {
        if b.len() > 0 {
            assert(b.contains(b[0]));
        }
        assert(a =~= b);
    } else if b.len() == 0 {
        assert(a.contains(a[0]));
    } else {
        assert(a.contains(a[0]));
        let k = choose|k: int| 0 <= k < b.len() && b[k] == a[0];
        assert(b.contains(b[0]));
        let m = choose|m: int| 0 <= m < a.len() && a[m] == b[0];
        if k > 0 {
            if m > 0 {
                assert(crate::fold::model::key_lt(a[0], a[m]));
                assert(crate::fold::model::key_lt(b[0], b[k]));
            }
        }
        assert(a[0] == b[0]);
        let a1 = a.drop_first();
        let b1 = b.drop_first();
        assert forall|x: FoldState|
            #![trigger a1.contains(x)]
            #![trigger b1.contains(x)]
            a1.contains(x) <==> b1.contains(x) by {
            if a1.contains(x) {
                let i = choose|i: int| 0 <= i < a1.len() && a1[i] == x;
                assert(a[i + 1] == x);
                assert(crate::fold::model::key_lt(a[0], a[i + 1]));
                assert(b.contains(x));
                let j = choose|j: int| 0 <= j < b.len() && b[j] == x;
                assert(j != 0);
                assert(b1[j - 1] == x);
            }
            if b1.contains(x) {
                let i = choose|i: int| 0 <= i < b1.len() && b1[i] == x;
                assert(b[i + 1] == x);
                assert(crate::fold::model::key_lt(b[0], b[i + 1]));
                assert(a.contains(x));
                let j = choose|j: int| 0 <= j < a.len() && a[j] == x;
                assert(j != 0);
                assert(a1[j - 1] == x);
            }
        }
        assert forall|i: int, j: int| 0 <= i < j < a1.len() implies crate::fold::model::key_lt(
            #[trigger] a1[i],
            #[trigger] a1[j],
        ) by {
            assert(a1[i] == a[i + 1] && a1[j] == a[j + 1]);
        }
        assert forall|i: int, j: int| 0 <= i < j < b1.len() implies crate::fold::model::key_lt(
            #[trigger] b1[i],
            #[trigger] b1[j],
        ) by {
            assert(b1[i] == b[i + 1] && b1[j] == b[j + 1]);
        }
        lemma_sorted_same_folds(a1, b1);
        assert(a =~= b) by {
            assert forall|i: int| 0 <= i < a.len() implies a[i] == b[i] by {
                if i > 0 {
                    assert(a[i] == a1[i - 1] && b[i] == b1[i - 1]);
                }
            }
        }
    }
}

/// Closed folds that belong to a text are determined by their spans: two such sets of closed
/// folds with the same spans are equal.
pub proof fn law_closed_folds_determined_by_spans(s: Seq<char>, a: Seq<FoldState>, b: Seq<
    FoldState,
>)
    requires
        folds_wf(a),
        folds_match_text(s, a),
        folds_wf(b),
        folds_match_text(s, b),
        forall|h: int, l: int| #[trigger] has_span(a, h, l) <==> has_span(b, h, l),
    ensures
        a == b,
{
    lemma_matching_strictly_sorted(s, a);
    lemma_matching_strictly_sorted(s, b);
    assert forall|x: FoldState| #[trigger] a.contains(x) implies b.contains(x) by {
        let i = choose|i: int| 0 <= i < a.len() && a[i] == x;
        assert(fold_wf(a[i]) && fold_matches_text(s, a[i]));
        assert(has_span(a, x.header_line, x.last_line));
        assert(has_span(b, x.header_line, x.last_line));
        let j = choose|j: int|
            0 <= j < b.len() && #[trigger] b[j].header_line == x.header_line && b[j].last_line
                == x.last_line;
        assert(fold_wf(b[j]) && fold_matches_text(s, b[j]));
        lemma_matching_determined(s, x, b[j]);
    }
    assert forall|x: FoldState| #[trigger] b.contains(x) implies a.contains(x) by {
        let i = choose|i: int| 0 <= i < b.len() && b[i] == x;
        assert(fold_wf(b[i]) && fold_matches_text(s, b[i]));
        assert(has_span(b, x.header_line, x.last_line));
        assert(has_span(a, x.header_line, x.last_line));
        let j = choose|j: int|
            0 <= j < a.len() && #[trigger] a[j].header_line == x.header_line && a[j].last_line
                == x.last_line;
        assert(fold_wf(a[j]) && fold_matches_text(s, a[j]));
        lemma_matching_determined(s, x, a[j]);
    }
    lemma_sorted_same_folds(a, b);
}

/// Closing spans that are all closed already (`close_all`, `close`) changes nothing.
pub proof fn law_closing_closed_spans_changes_nothing(
    s: Seq<char>,
    c: Seq<FoldState>,
    spans: Seq<crate::fold::FoldSpan>,
)
    requires
        folds_wf(c),
        folds_match_text(s, c),
        forall|i: int|
            0 <= i < spans.len() ==> has_span(
                c,
                (#[trigger] spans[i]).first_line as int,
                spans[i].last_line as int,
            ),
    ensures
        rebuilt(c + closing_folds(s, spans)) == c,
{
    let n = closing_folds(s, spans);
    law_close_all_reports_open_spans(s, c, spans);
    assert forall|k: int| 0 <= k < spans.len() implies closable(
        s,
        (#[trigger] spans[k]).first_line as int,
        spans[k].last_line as int,
    ) by {
        assert(has_span(c, spans[k].first_line as int, spans[k].last_line as int));
        let j = choose|j: int|
            0 <= j < c.len() && #[trigger] c[j].header_line == spans[k].first_line
                && c[j].last_line == spans[k].last_line;
        assert(fold_wf(c[j]) && fold_matches_text(s, c[j]));
        lemma_normalized_matches(s, c[j].header_start, c[j].end);
    }
    lemma_closing_folds_spans(s, spans);
    let r = rebuilt(c + n);
    assert forall|h: int, l: int| #[trigger] has_span(r, h, l) <==> has_span(c, h, l) by {
        if has_span(n, h, l) {
            let i = choose|i: int|
                0 <= i < n.len() && #[trigger] n[i].header_line == h && n[i].last_line == l;
            let k = choose|k: int|
                0 <= k < spans.len() && n[i].header_line == (#[trigger] spans[k]).first_line
                    && n[i].last_line == spans[k].last_line;
        }
    }
    law_closed_folds_determined_by_spans(s, r, c);
}

/// Closing `sp` in `s` adds a fold with the span `h..=l`.
pub open spec fn closes_span(s: Seq<char>, sp: crate::fold::FoldSpan, h: int, l: int) -> bool {
    closing_fold(s, sp.first_line as int, sp.last_line as int) matches Some(f) && f.header_line
        == h && f.last_line == l
}

/// Closing the spans `a` and then the spans `b` adds the folds of `a` and then those of `b`.
proof fn lemma_closing_folds_append(
    s: Seq<char>,
    a: Seq<crate::fold::FoldSpan>,
    b: Seq<crate::fold::FoldSpan>,
)
    ensures
        closing_folds(s, a + b) == closing_folds(s, a) + closing_folds(s, b),
    decreases b.len(),
{
    if b.len() == 0 {
        assert(a + b =~= a);
        assert(closing_folds(s, a) + closing_folds(s, b) =~= closing_folds(s, a));
    } else {
        lemma_closing_folds_append(s, a, b.drop_last());
        assert((a + b).drop_last() =~= a + b.drop_last());
        assert((a + b).last() == b.last());
        let x = closing_folds(s, a);
        let y = closing_folds(s, b.drop_last());
        match closing_fold(s, b.last().first_line as int, b.last().last_line as int) {
            Some(f) => {
                assert((x + y).push(f) =~= x + y.push(f));
            },
            None => {},
        }
    }
}

/// The spans of the folds that closing `spans` adds are those that one of them closes.
proof fn lemma_closing_folds_has_span(s: Seq<char>, spans: Seq<crate::fold::FoldSpan>)
    ensures
        forall|h: int, l: int|
            #[trigger] has_span(closing_folds(s, spans), h, l) <==> exists|k: int|
                0 <= k < spans.len() && #[trigger] closes_span(s, spans[k], h, l),
    decreases spans.len(),
{
    if spans.len() > 0 {
        let d = spans.drop_last();
        lemma_closing_folds_has_span(s, d);
        let prev = closing_folds(s, d);
        let r = closing_folds(s, spans);
        let sp = spans.last();
        assert(spans[spans.len() - 1] == sp);
        assert forall|h: int, l: int| #[trigger] has_span(r, h, l) <==> exists|k: int|
            0 <= k < spans.len() && #[trigger] closes_span(s, spans[k], h, l) by {
            if has_span(r, h, l) {
                let i = choose|i: int|
                    0 <= i < r.len() && #[trigger] r[i].header_line == h && r[i].last_line == l;
                if i < prev.len() {
                    assert(r[i] == prev[i]);
                    assert(has_span(prev, h, l));
                    let k = choose|k: int| 0 <= k < d.len() && #[trigger] closes_span(s, d[k], h, l);
                    assert(spans[k] == d[k]);
                } else {
                    assert(closes_span(s, spans[spans.len() - 1], h, l));
                }
            }
            if exists|k: int| 0 <= k < spans.len() && #[trigger] closes_span(s, spans[k], h, l) {
                let k = choose|k: int| 0 <= k < spans.len() && #[trigger] closes_span(s, spans[k], h, l);
                if k < d.len() {
                    assert(d[k] == spans[k]);
                    assert(closes_span(s, d[k], h, l));
                    assert(has_span(prev, h, l));
                    let i = choose|i: int|
                        0 <= i < prev.len() && #[trigger] prev[i].header_line == h && prev[i].last_line
                            == l;
                    assert(r[i] == prev[i]);
                } else {
                    assert(r[r.len() - 1].header_line == h);
                }
            }
        }
    }
}

/// Closing spans (`close_all`) does not depend on their order or on repeated spans: closing
/// spans with the same members gives the same closed folds.
pub proof fn law_close_all_ignores_order(
    s: Seq<char>,
    c: Seq<FoldState>,
    a: Seq<crate::fold::FoldSpan>,
    b: Seq<crate::fold::FoldSpan>,
)
    requires
        folds_wf(c),
        folds_match_text(s, c),
        forall|sp: crate::fold::FoldSpan| #[trigger] a.contains(sp) <==> b.contains(sp),
    ensures
        rebuilt(c + closing_folds(s, a)) == rebuilt(c + closing_folds(s, b)),
{
    law_close_all_reports_open_spans(s, c, a);
    law_close_all_reports_open_spans(s, c, b);
    lemma_closing_folds_has_span(s, a);
    lemma_closing_folds_has_span(s, b);
    let ra = rebuilt(c + closing_folds(s, a));
    let rb = rebuilt(c + closing_folds(s, b));
    assert forall|h: int, l: int| #[trigger] has_span(ra, h, l) <==> has_span(rb, h, l) by {
        if has_span(closing_folds(s, a), h, l) {
            let k = choose|k: int| 0 <= k < a.len() && #[trigger] closes_span(s, a[k], h, l);
            assert(a.contains(a[k]));
            let m = choose|m: int| 0 <= m < b.len() && b[m] == a[k];
            assert(closes_span(s, b[m], h, l));
        }
        if has_span(closing_folds(s, b), h, l) {
            let k = choose|k: int| 0 <= k < b.len() && #[trigger] closes_span(s, b[k], h, l);
            assert(b.contains(b[k]));
            assert(a.contains(b[k]));
            let m = choose|m: int| 0 <= m < a.len() && a[m] == b[k];
            assert(closes_span(s, a[m], h, l));
        }
    }
    law_closed_folds_determined_by_spans(s, ra, rb);
}

/// Closing spans in two batches (`close_all` twice, or `close` span by span) gives the same
/// closed folds as closing them all at once, and reports a change exactly when one of the
/// batches does.
pub proof fn law_close_in_batches(
    s: Seq<char>,
    c: Seq<FoldState>,
    a: Seq<crate::fold::FoldSpan>,
    b: Seq<crate::fold::FoldSpan>,
)
    requires
        folds_wf(c),
        folds_match_text(s, c),
    ensures
        ({
            let ra = rebuilt(c + closing_folds(s, a));
            let rab = rebuilt(ra + closing_folds(s, b));
            &&& rab == rebuilt(c + closing_folds(s, a + b))
            &&& (rab.len() != c.len()) == (ra.len() != c.len() || rab.len() != ra.len())
        }),
{
    let na = closing_folds(s, a);
    let nb = closing_folds(s, b);
    let ra = rebuilt(c + na);
    law_close_all_reports_open_spans(s, c, a);
    law_close_all_reports_open_spans(s, ra, b);
    law_close_all_reports_open_spans(s, c, a + b);
    lemma_closing_folds_append(s, a, b);
    let rab = rebuilt(ra + nb);
    let r = rebuilt(c + closing_folds(s, a + b));
    assert forall|h: int, l: int| #[trigger] has_span(rab, h, l) <==> has_span(r, h, l) by {
        let n = na + nb;
        assert(closing_folds(s, a + b) == n);
        if has_span(na, h, l) {
            let i = choose|i: int|
                0 <= i < na.len() && #[trigger] na[i].header_line == h && na[i].last_line == l;
            assert(n[i] == na[i]);
            assert(has_span(n, h, l));
        }
        if has_span(nb, h, l) {
            let i = choose|i: int|
                0 <= i < nb.len() && #[trigger] nb[i].header_line == h && nb[i].last_line == l;
            assert(n[i + na.len()] == nb[i]);
            assert(has_span(n, h, l));
        }
        if has_span(n, h, l) {
            let i = choose|i: int|
                0 <= i < n.len() && #[trigger] n[i].header_line == h && n[i].last_line == l;
            if i < na.len() {
                assert(n[i] == na[i]);
                assert(has_span(na, h, l));
            } else {
                assert(n[i] == nb[i - na.len()]);
                assert(has_span(nb, h, l));
            }
        }
    }
    law_closed_folds_determined_by_spans(s, rab, r);
}

/// Each fold that closing closable spans adds has the span of one of them.
proof fn lemma_closing_folds_spans(s: Seq<char>, spans: Seq<crate::fold::FoldSpan>)
    requires
        forall|k: int|
            0 <= k < spans.len() ==> closable(
                s,
                (#[trigger] spans[k]).first_line as int,
                spans[k].last_line as int,
            ),
    ensures
        forall|i: int|
            0 <= i < closing_folds(s, spans).len() ==> exists|k: int|
                0 <= k < spans.len() && (#[trigger] closing_folds(s, spans)[i]).header_line == (
                #[trigger] spans[k]).first_line && closing_folds(s, spans)[i].last_line
                    == spans[k].last_line,
    decreases spans.len(),
{
    if spans.len() > 0 {
        let d = spans.drop_last();
        lemma_closing_folds_spans(s, d);
        let prev = closing_folds(s, d);
        let r = closing_folds(s, spans);
        let sp = spans.last();
        assert forall|k: int| 0 <= k < d.len() implies closable(
            s,
            (#[trigger] d[k]).first_line as int,
            d[k].last_line as int,
        ) by {
            assert(d[k] == spans[k]);
        }
        assert(spans[spans.len() - 1] == sp);
        lemma_closing_fold_closable(s, sp.first_line as int, sp.last_line as int);
        assert forall|i: int| 0 <= i < r.len() implies exists|k: int|
            0 <= k < spans.len() && (#[trigger] r[i]).header_line == (#[trigger] spans[k]).first_line
                && r[i].last_line == spans[k].last_line by {
            if i < prev.len() {
                assert(r[i] == prev[i]);
                let k = choose|k: int|
                    0 <= k < d.len() && prev[i].header_line == (#[trigger] d[k]).first_line
                        && prev[i].last_line == d[k].last_line;
                assert(spans[k] == d[k]);
            } else {
                assert(spans[spans.len() - 1] == sp);
            }
        }
    }
}

} // verus!
