//! The closed folds of a document.
use vstd::prelude::*;
use crate::fold::FoldSpan;
use crate::changes::{len_before, map_pos_spec, Assoc, ChangeSet, Op};
use crate::fold::model::{
    closing_folds, decimal, dedup_spans, digit_char, disjoint_sorted, fold_wf, folds_wf,
    has_span, hides, hiding_fold, keep_folds, key_lt, lemma_closing_folds_wf, lemma_hides_unique,
    lemma_insert_at, lemma_keep_folds, lemma_normalized_wf, lemma_outermost, lemma_rebuilt,
    lemma_renormalized_wf, normalized, outer_from, outermost, placeholder_text, rebuilt,
    renormalized, sort_by_key, visible_position, FoldState,
};
use crate::text::{lemma_line_of, num_lines, Text};

verus! {

/// A closed fold as seen by the renderer.
///
/// Everything in `start..end` is hidden. The header line stays visible, a placeholder
/// is displayed after it and the hidden text is displayed as a part of the header's line ending.
#[derive(Debug, Clone, PartialEq, Eq)]
pub struct FoldedRange {
    /// Char index of the first char of the header line.
    pub header_start: usize,
    /// Char index of the header's line ending: the first hidden char.
    pub start: usize,
    /// Char index of the first char after the fold: the start of the line following the
    /// fold's last line.
    pub end: usize,
    /// The line that stays visible.
    pub header_line: usize,
    /// The last hidden line.
    pub last_line: usize,
    /// Virtual text that is shown at the end of the header line.
    pub placeholder: String,
}

impl View for FoldedRange {
    type V = FoldState;

    open spec fn view(&self) -> FoldState {
        FoldState {
            header_start: self.header_start as int,
            start: self.start as int,
            end: self.end as int,
            header_line: self.header_line as int,
            last_line: self.last_line as int,
            placeholder: self.placeholder@,
        }
    }
}

/// The folds `s` as plain values.
pub open spec fn views(s: Seq<FoldedRange>) -> Seq<FoldState> {
    s.map_values(|f: FoldedRange| f@)
}

fn digit_str(d: usize) -> (s: &'static str)
    requires
        d < 10,
    ensures
        s@ == seq![digit_char(d as int)],
{
    proof {
        reveal_strlit("0");
        reveal_strlit("1");
        reveal_strlit("2");
        reveal_strlit("3");
        reveal_strlit("4");
        reveal_strlit("5");
        reveal_strlit("6");
        reveal_strlit("7");
        reveal_strlit("8");
        reveal_strlit("9");
    }
    let s = if d == 0 {
        "0"
    } else if d == 1 {
        "1"
    } else if d == 2 {
        "2"
    } else if d == 3 {
        "3"
    } else if d == 4 {
        "4"
    } else if d == 5 {
        "5"
    } else if d == 6 {
        "6"
    } else if d == 7 {
        "7"
    } else if d == 8 {
        "8"
    } else {
        "9"
    };
    assert(s@ =~= seq![digit_char(d as int)]);
    s
}

/// Appends the decimal digits of `n`.
fn push_decimal(s: &mut String, n: usize)
    ensures
        final(s)@ == old(s)@ + decimal(n as nat),
    decreases n,
{
    if n >= 10 {
        push_decimal(s, n / 10);
    }
    s.append(digit_str(n % 10));
    proof {
        if n >= 10 {
            assert(decimal(n as nat) == decimal((n / 10) as nat).push(digit_char((n % 10) as int)));
        }
        assert(final(s)@ =~= old(s)@ + decimal(n as nat));
    }
}

/// The text shown after the header of a fold that hides `hidden` lines.
fn placeholder_string(hidden: usize) -> (s: String)
    ensures
        s@ == placeholder_text(hidden as int),
{
    proof {
        reveal_strlit(" … ");
        reveal_strlit(" line");
        reveal_strlit(" lines");
    }
    let mut s = String::new();
    s.append(" … ");
    push_decimal(&mut s, hidden);
    if hidden == 1 {
        s.append(" line");
    } else {
        s.append(" lines");
    }
    assert(s@ =~= placeholder_text(hidden as int));
    s
}

impl FoldedRange {
    pub fn span(&self) -> (span: FoldSpan)
        ensures
            span == (FoldSpan { first_line: self.header_line, last_line: self.last_line }),
    {
        FoldSpan { first_line: self.header_line, last_line: self.last_line }
    }

    /// The number of lines that are hidden by this fold.
    pub fn hidden_lines(&self) -> (n: usize)
        requires
            self.header_line <= self.last_line,
        ensures
            n == self.last_line - self.header_line,
    {
        self.last_line - self.header_line
    }

    /// Whether `char_idx` is hidden. The header's line ending itself is still displayed so
    /// it is not considered hidden.
    pub fn hides(&self, char_idx: usize) -> (r: bool)
        ensures
            r == hides(self@, char_idx as int),
    {
        self.start < char_idx && char_idx < self.end
    }

    fn copy(&self) -> (r: FoldedRange)
        ensures
            r == *self,
    {
        FoldedRange {
            header_start: self.header_start,
            start: self.start,
            end: self.end,
            header_line: self.header_line,
            last_line: self.last_line,
            placeholder: self.placeholder.clone(),
        }
    }

    /// Recomputes all derived fields from `header_start` and `end`
    /// which are the only fields that are kept in sync with edits.
    fn normalize(&mut self, text: &Text) -> (ok: bool)
        ensures
            ok == normalized(text@, old(self).header_start as int, old(self).end as int) is Some,
            ok ==> normalized(text@, old(self).header_start as int, old(self).end as int) == Some(
                final(self)@,
            ),
            !ok ==> *final(self) == *old(self),
    {
        let len = text.len_chars();
        let hs = if self.header_start < len {
            self.header_start
        } else {
            len
        };
        let end = if self.end < len {
            self.end
        } else {
            len
        };
        let header_line = text.char_to_line(hs);
        let last_line = text.char_to_line(
            if end > 0 {
                end - 1
            } else {
                0
            },
        );
        if last_line <= header_line {
            return false;
        }
        let _ = text.len_lines();
        proof {
            lemma_line_of(text@, if end > 0 {
                end - 1
            } else {
                0
            });
            lemma_normalized_wf(text@, self.header_start as int, self.end as int);
        }
        self.header_line = header_line;
        self.last_line = last_line;
        self.header_start = text.line_to_char(header_line);
        self.start = text.line_end_char_index(header_line);
        self.end = text.line_to_char(last_line + 1);
        self.placeholder = placeholder_string(last_line - header_line);
        true
    }
}

/// Whether `a` sorts before `b`: its header starts earlier, or at the same char and it ends
/// later.
fn key_lt_exec(a: &FoldedRange, b: &FoldedRange) -> (r: bool)
    ensures
        r == key_lt(a@, b@),
{
    a.header_start < b.header_start || (a.header_start == b.header_start && a.end > b.end)
}

/// The folds `c` with the start of their header and their end moved through the edits `ops`:
/// text inserted at the start of the header stays on the header line, and text inserted at
/// the end of a fold stays out of it.
pub open spec fn mapped_folds(c: Seq<FoldState>, ops: Seq<Op>) -> Seq<FoldState> {
    c.map_values(
        |f: FoldState|
            FoldState {
                header_start: map_pos_spec(ops, f.header_start, Assoc::After),
                start: f.start,
                end: map_pos_spec(ops, f.end, Assoc::Before),
                header_line: f.header_line,
                last_line: f.last_line,
                placeholder: f.placeholder,
            },
    )
}

/// Which closed folds to keep.
enum Retain {
    /// Those with another span.
    OtherSpan(FoldSpan),
    /// Those that are not inside the span.
    NotWithin(FoldSpan),
    /// Those that do not hide the char index.
    NotHiding(usize),
}

/// Closed folds with another span than `span`.
pub open spec fn other_span(span: FoldSpan) -> spec_fn(FoldState) -> bool {
    |f: FoldState| !(f.header_line == span.first_line && f.last_line == span.last_line)
}

/// Closed folds that are not inside `span`.
pub open spec fn not_within(span: FoldSpan) -> spec_fn(FoldState) -> bool {
    |f: FoldState| f.header_line < span.first_line || f.last_line > span.last_line
}

/// Closed folds that do not hide `char_idx`.
pub open spec fn not_hiding(char_idx: int) -> spec_fn(FoldState) -> bool {
    |f: FoldState| !hides(f, char_idx)
}

spec fn retain_pred(r: Retain) -> spec_fn(FoldState) -> bool {
    match r {
        Retain::OtherSpan(span) => other_span(span),
        Retain::NotWithin(span) => not_within(span),
        Retain::NotHiding(c) => not_hiding(c as int),
    }
}

fn retain_keeps(r: &Retain, f: &FoldedRange) -> (keep: bool)
    ensures
        keep == retain_pred(*r)(f@),
{
    match r {
        Retain::OtherSpan(span) => !(f.header_line == span.first_line && f.last_line
            == span.last_line),
        Retain::NotWithin(span) => f.header_line < span.first_line || f.last_line > span.last_line,
        Retain::NotHiding(c) => !f.hides(*c),
    }
}

/// The set of closed folds of a document.
///
/// Folds may be nested. Opening an outer fold leaves inner closed folds closed, like in vim.
#[derive(Debug)]
pub struct Folds {
    /// All closed folds ordered by `header_start`, outermost first.
    closed: Vec<FoldedRange>,
    /// The subset of `closed` that is not nested in another closed fold.
    /// These are the ranges that are actually hidden and it is what gets rendered.
    folded: Vec<FoldedRange>,
}

impl View for Folds {
    type V = Seq<FoldState>;

    /// The closed folds.
    closed spec fn view(&self) -> Seq<FoldState> {
        views(self.closed@)
    }
}

impl Clone for Folds {
    fn clone(&self) -> (folds: Self)
        ensures
            folds@ == self@,
            folds_wf(folds@),
    {
        proof {
            use_type_invariant(self);
        }
        Folds { closed: copy_folds(&self.closed), folded: copy_folds(&self.folded) }
    }
}

impl Default for Folds {
    fn default() -> (folds: Self)
        ensures
            folds@ == Seq::<FoldState>::empty(),
            folds_wf(folds@),
    {
        let closed: Vec<FoldedRange> = Vec::new();
        let folded: Vec<FoldedRange> = Vec::new();
        assert(views(closed@) =~= Seq::<FoldState>::empty());
        assert(views(folded@) =~= Seq::<FoldState>::empty());
        assert(outermost(Seq::<FoldState>::empty()) =~= Seq::<FoldState>::empty());
        Folds { closed, folded }
    }
}

fn copy_folds(v: &Vec<FoldedRange>) -> (r: Vec<FoldedRange>)
    ensures
        r@ == v@,
{
    let mut r: Vec<FoldedRange> = Vec::new();
    let mut i: usize = 0;
    while i < v.len()
        invariant
            i <= v@.len(),
            r@ == v@.take(i as int),
        decreases v@.len() - i,
    {
        r.push(v[i].copy());
        i += 1;
        assert(r@ =~= v@.take(i as int));
    }
    assert(v@.take(v@.len() as int) =~= v@);
    r
}

impl Folds {
    #[verifier::type_invariant]
    spec fn inv(self) -> bool {
        &&& folds_wf(views(self.closed@))
        &&& views(self.folded@) == outermost(views(self.closed@))
    }

    /// The closed folds `closed` after sorting them, removing repeated spans, and picking the
    /// outermost ones for rendering.
    fn rebuild(closed: Vec<FoldedRange>) -> (folds: Folds)
        requires
            forall|i: int| 0 <= i < closed@.len() ==> fold_wf(#[trigger] closed@[i]@),
        ensures
            folds@ == rebuilt(views(closed@)),
            folds_wf(folds@),
    {
        let ghost cv = views(closed@);
        proof {
            assert forall|i: int| 0 <= i < cv.len() implies fold_wf(#[trigger] cv[i]) by {
                assert(cv[i] == closed@[i]@);
            }
            lemma_rebuilt(cv);
        }
        // sort, keeping the order of folds with equal keys
        let mut sorted: Vec<FoldedRange> = Vec::new();
        let mut k: usize = 0;
        while k < closed.len()
            invariant
                cv == views(closed@),
                k <= closed@.len(),
                views(sorted@) == sort_by_key(cv.take(k as int)),
            decreases closed@.len() - k,
        {
            let f = closed[k].copy();
            let mut p: usize = 0;
            while p < sorted.len() && !key_lt_exec(&f, &sorted[p])
                invariant
                    p <= sorted@.len(),
                    forall|j: int| 0 <= j < p ==> !key_lt(f@, #[trigger] views(sorted@)[j]),
                decreases sorted@.len() - p,
            {
                p += 1;
            }
            let ghost before = views(sorted@);
            proof {
                lemma_insert_at(before, f@, p as int);
                assert(cv.take(k + 1).drop_last() =~= cv.take(k as int));
            }
            sorted.insert(p, f);
            assert(views(sorted@) =~= before.insert(p as int, f@));
            k += 1;
        }
        assert(cv.take(closed@.len() as int) =~= cv);
        // remove the repeated spans
        let ghost sv = views(sorted@);
        let mut deduped: Vec<FoldedRange> = Vec::new();
        let mut k: usize = 0;
        while k < sorted.len()
            invariant
                sv == views(sorted@),
                k <= sorted@.len(),
                views(deduped@) == dedup_spans(sv.take(k as int)),
            decreases sorted@.len() - k,
        {
            let ghost before = views(deduped@);
            assert(sv.take(k + 1).drop_last() =~= sv.take(k as int));
            let n = deduped.len();
            if n > 0 && deduped[n - 1].header_line == sorted[k].header_line && deduped[n
                - 1].last_line == sorted[k].last_line {
                assert(before.last() == deduped@[n - 1]@);
            } else {
                deduped.push(sorted[k].copy());
                assert(views(deduped@) =~= before.push(sv[k as int]));
            }
            k += 1;
        }
        assert(sv.take(sorted@.len() as int) =~= sv);
        let ghost dv = views(deduped@);
        proof {
            lemma_rebuilt(cv);
        }
        // the folds that are not nested in another one
        let mut folded: Vec<FoldedRange> = Vec::new();
        let mut folded_until: usize = 0;
        let mut k: usize = 0;
        while k < deduped.len()
            invariant
                dv == views(deduped@),
                k <= deduped@.len(),
                views(folded@) + outer_from(dv, k as int, folded_until as int) == outer_from(
                    dv,
                    0,
                    0,
                ),
            decreases deduped@.len() - k,
        {
            let ghost before = views(folded@);
            if deduped[k].start >= folded_until {
                folded_until = deduped[k].end;
                folded.push(deduped[k].copy());
                assert(views(folded@) =~= before.push(dv[k as int]));
                assert(views(folded@) + outer_from(dv, k + 1, folded_until as int) =~= before
                    + outer_from(dv, k as int, dv[k as int].start));
            }
            k += 1;
        }
        assert(outer_from(dv, k as int, folded_until as int) =~= Seq::<FoldState>::empty());
        assert(views(folded@) =~= outermost(dv));
        let folds = Folds { closed: deduped, folded };
        proof {
            use_type_invariant(&folds);
        }
        folds
    }

    pub fn is_empty(&self) -> (r: bool)
        ensures
            r == (self@.len() == 0),
            folds_wf(self@),
    {
        proof {
            use_type_invariant(self);
        }
        self.closed.len() == 0
    }

    /// The outermost closed folds. These are sorted and never overlap.
    pub fn folded(&self) -> (folded: &[FoldedRange])
        ensures
            views(folded@) == outermost(self@),
            disjoint_sorted(views(folded@)),
            folds_wf(self@),
    {
        proof {
            use_type_invariant(self);
            lemma_outermost(self@);
        }
        self.folded.as_slice()
    }

    /// The closed fold whose (visible) header is `line`, if any. The search relies on the
    /// outermost folds being sorted by header line, as they are for folds that match their
    /// text.
    pub fn folded_at_header(&self, line: usize) -> (fold: Option<&FoldedRange>)
        ensures
            fold matches Some(f) ==> outermost(self@).contains(f@) && f.header_line == line,
            fold is None ==> ((forall|i: int, j: int|
                0 <= i < j < outermost(self@).len() ==> #[trigger] outermost(self@)[i].header_line
                    <= #[trigger] outermost(self@)[j].header_line) ==> forall|i: int|
                0 <= i < outermost(self@).len() ==> #[trigger] outermost(self@)[i].header_line
                    != line),
    {
        proof {
            use_type_invariant(self);
        }
        let ghost fv = views(self.folded@);
        let ghost sorted = forall|i: int, j: int|
            0 <= i < j < fv.len() ==> #[trigger] fv[i].header_line <= #[trigger] fv[j].header_line;
        let mut lo: usize = 0;
        let mut hi: usize = self.folded.len();
        while lo < hi
            invariant
                fv == views(self.folded@),
                fv == outermost(self@),
                lo <= hi <= fv.len(),
                sorted == (forall|i: int, j: int|
                    0 <= i < j < fv.len() ==> #[trigger] fv[i].header_line
                        <= #[trigger] fv[j].header_line),
                sorted ==> forall|i: int| 0 <= i < lo ==> #[trigger] fv[i].header_line < line,
                sorted ==> forall|i: int| hi <= i < fv.len() ==> #[trigger] fv[i].header_line > line,
            decreases hi - lo,
        {
            let mid = lo + (hi - lo) / 2;
            let h = self.folded[mid].header_line;
            if h == line {
                assert(fv[mid as int] == self.folded@[mid as int]@);
                assert(fv.contains(fv[mid as int]));
                return Some(&self.folded[mid]);
            }
            if h < line {
                assert(fv[mid as int].header_line == h);
                lo = mid + 1;
            } else {
                assert(fv[mid as int].header_line == h);
                hi = mid;
            }
        }
        None
    }

    pub fn is_closed(&self, span: FoldSpan) -> (closed: bool)
        ensures
            closed == has_span(self@, span.first_line as int, span.last_line as int),
            closed ==> span.first_line < span.last_line,
            folds_wf(self@),
    {
        proof {
            use_type_invariant(self);
        }
        let ghost cv = views(self.closed@);
        let mut i: usize = 0;
        while i < self.closed.len()
            invariant
                cv == views(self.closed@),
                folds_wf(cv),
                i <= cv.len(),
                forall|j: int|
                    0 <= j < i ==> !(#[trigger] cv[j].header_line == span.first_line
                        && cv[j].last_line == span.last_line),
            decreases cv.len() - i,
        {
            if self.closed[i].header_line == span.first_line && self.closed[i].last_line
                == span.last_line {
                assert(cv[i as int].header_line == span.first_line);
                return true;
            }
            i += 1;
        }
        false
    }

    /// The outermost closed fold that hides `char_idx`.
    pub fn hiding(&self, char_idx: usize) -> (fold: Option<&FoldedRange>)
        ensures
            fold matches Some(f) ==> hiding_fold(outermost(self@), char_idx as int) == Some(f@),
            fold is None ==> hiding_fold(outermost(self@), char_idx as int) is None,
    {
        proof {
            use_type_invariant(self);
            lemma_outermost(self@);
        }
        let ghost fv = views(self.folded@);
        let ghost c = char_idx as int;
        // the first fold that ends after `char_idx`
        let mut lo: usize = 0;
        let mut hi: usize = self.folded.len();
        while lo < hi
            invariant
                fv == views(self.folded@),
                c == char_idx as int,
                disjoint_sorted(fv),
                lo <= hi <= fv.len(),
                forall|i: int| 0 <= i < lo ==> #[trigger] fv[i].end <= c,
                forall|i: int| hi <= i < fv.len() ==> #[trigger] fv[i].end > c,
            decreases hi - lo,
        {
            let mid = lo + (hi - lo) / 2;
            assert(fv[mid as int] == self.folded@[mid as int]@);
            let e = self.folded[mid].end;
            assert(fv[mid as int].end == e);
            assert(fv[mid as int].start < fv[mid as int].end);
            if e <= char_idx {
                assert forall|i: int| 0 <= i < mid + 1 implies #[trigger] fv[i].end <= c by {
                    if i < mid {
                        assert(fv[i].end <= fv[mid as int].start);
                    }
                }
                lo = mid + 1;
            } else {
                assert forall|i: int| mid <= i < fv.len() implies #[trigger] fv[i].end > c by {
                    if i > mid {
                        assert(fv[mid as int].end <= fv[i].start);
                        assert(fv[i].start < fv[i].end);
                    }
                }
                hi = mid;
            }
        }
        if lo < self.folded.len() && self.folded[lo].hides(char_idx) {
            proof {
                assert(fv[lo as int] == self.folded@[lo as int]@);
                assert(hides(fv[lo as int], c));
                let i = choose|i: int| 0 <= i < fv.len() && hides(#[trigger] fv[i], c);
                lemma_hides_unique(fv, c, i, lo as int);
            }
            Some(&self.folded[lo])
        } else {
            proof {
                if exists|i: int| 0 <= i < fv.len() && hides(#[trigger] fv[i], c) {
                    let i = choose|i: int| 0 <= i < fv.len() && hides(#[trigger] fv[i], c);
                    if i > lo {
                        assert(fv[lo as int].end <= fv[i].start);
                    }
                    if i == lo {
                        assert(fv[lo as int] == self.folded@[lo as int]@);
                    }
                }
            }
            None
        }
    }

    /// Closes `span`. Returns whether the span was open before.
    pub fn close(&mut self, text: &Text, span: FoldSpan) -> (changed: bool)
        requires
            span.last_line < num_lines(text@) ==> span.first_line <= num_lines(text@),
        ensures
            final(self)@ == rebuilt(old(self)@ + closing_folds(text@, seq![span])),
            changed == (final(self)@.len() != old(self)@.len()),
            folds_wf(final(self)@),
    {
        let spans = vec![span];
        assert(spans@ == seq![span]);
        self.close_all(text, spans.as_slice())
    }

    /// Closes all of `spans`. Returns whether any span was open before.
    pub fn close_all(&mut self, text: &Text, spans: &[FoldSpan]) -> (changed: bool)
        requires
            forall|i: int|
                0 <= i < spans@.len() ==> (#[trigger] spans@[i]).last_line < num_lines(text@)
                    ==> spans@[i].first_line <= num_lines(text@),
        ensures
            final(self)@ == rebuilt(old(self)@ + closing_folds(text@, spans@)),
            changed == (final(self)@.len() != old(self)@.len()),
            folds_wf(final(self)@),
    {
        proof {
            use_type_invariant(&*self);
        }
        let len = self.closed.len();
        let ghost ov = self@;
        let mut closed = copy_folds(&self.closed);
        let n = text.len_lines();
        let mut i: usize = 0;
        while i < spans.len()
            invariant
                n == num_lines(text@),
                i <= spans@.len(),
                forall|j: int|
                    0 <= j < spans@.len() ==> (#[trigger] spans@[j]).last_line < num_lines(text@)
                        ==> spans@[j].first_line <= num_lines(text@),
                views(closed@) == ov + closing_folds(text@, spans@.take(i as int)),
            decreases spans@.len() - i,
        {
            let span = spans[i];
            let ghost before = views(closed@);
            assert(spans@.take(i + 1).drop_last() =~= spans@.take(i as int));
            assert(spans@.take(i + 1).last() == span);
            if span.last_line < n {
                let mut fold = FoldedRange {
                    header_start: text.line_to_char(span.first_line),
                    start: 0,
                    end: text.line_to_char(span.last_line + 1),
                    header_line: 0,
                    last_line: 0,
                    placeholder: String::new(),
                };
                if fold.normalize(text) {
                    closed.push(fold);
                    assert(views(closed@) =~= before.push(fold@));
                }
            }
            i += 1;
        }
        assert(spans@.take(spans@.len() as int) =~= spans@);
        proof {
            lemma_closing_folds_wf(text@, spans@);
            let cv = views(closed@);
            assert forall|j: int| 0 <= j < closed@.len() implies fold_wf(#[trigger] closed@[j]@) by {
                assert(closed@[j]@ == cv[j]);
                if j >= ov.len() {
                    assert(cv[j] == closing_folds(text@, spans@)[j - ov.len()]);
                }
            }
        }
        *self = Folds::rebuild(closed);
        self.closed.len() != len
    }

    /// The closed folds that `retain` keeps.
    fn retained(&self, retain: Retain) -> (kept: Vec<FoldedRange>)
        ensures
            views(kept@) == keep_folds(self@, retain_pred(retain)),
            forall|i: int| 0 <= i < kept@.len() ==> fold_wf(#[trigger] kept@[i]@),
    {
        proof {
            use_type_invariant(self);
        }
        let ghost cv = self@;
        let mut kept: Vec<FoldedRange> = Vec::new();
        let mut i: usize = 0;
        while i < self.closed.len()
            invariant
                cv == views(self.closed@),
                i <= cv.len(),
                views(kept@) == keep_folds(cv.take(i as int), retain_pred(retain)),
            decreases cv.len() - i,
        {
            let ghost before = views(kept@);
            assert(cv.take(i + 1).drop_last() =~= cv.take(i as int));
            assert(cv.take(i + 1).last() == self.closed@[i as int]@);
            if retain_keeps(&retain, &self.closed[i]) {
                kept.push(self.closed[i].copy());
                assert(views(kept@) =~= before.push(self.closed@[i as int]@));
            }
            i += 1;
        }
        assert(cv.take(cv.len() as int) =~= cv);
        proof {
            lemma_keep_folds(cv, retain_pred(retain));
            assert forall|j: int| 0 <= j < kept@.len() implies fold_wf(#[trigger] kept@[j]@) by {
                assert(kept@[j]@ == views(kept@)[j]);
                assert(views(kept@).contains(views(kept@)[j]));
                let m = choose|m: int| 0 <= m < cv.len() && cv[m] == views(kept@)[j];
            }
        }
        kept
    }

    /// Keeps the closed folds that `retain` keeps; returns whether any was dropped.
    fn retain(&mut self, retain: Retain) -> (changed: bool)
        ensures
            changed == (keep_folds(old(self)@, retain_pred(retain)).len() != old(self)@.len()),
            final(self)@ == if changed {
                rebuilt(keep_folds(old(self)@, retain_pred(retain)))
            } else {
                old(self)@
            },
            folds_wf(final(self)@),
    {
        proof {
            use_type_invariant(&*self);
        }
        let kept = self.retained(retain);
        let changed = kept.len() != self.closed.len();
        if changed {
            *self = Folds::rebuild(kept);
        }
        changed
    }

    /// Opens `span`. Returns whether the span was closed before.
    pub fn open(&mut self, span: FoldSpan) -> (changed: bool)
        ensures
            changed == (keep_folds(old(self)@, other_span(span)).len() != old(self)@.len()),
            final(self)@ == if changed {
                rebuilt(keep_folds(old(self)@, other_span(span)))
            } else {
                old(self)@
            },
            folds_wf(final(self)@),
    {
        self.retain(Retain::OtherSpan(span))
    }

    /// Opens all closed folds that are inside of `span`, including `span` itself.
    /// Returns whether any fold was opened.
    pub fn open_within(&mut self, span: FoldSpan) -> (changed: bool)
        ensures
            changed == (keep_folds(old(self)@, not_within(span)).len() != old(self)@.len()),
            final(self)@ == if changed {
                rebuilt(keep_folds(old(self)@, not_within(span)))
            } else {
                old(self)@
            },
            folds_wf(final(self)@),
    {
        self.retain(Retain::NotWithin(span))
    }

    pub fn open_all(&mut self)
        ensures
            final(self)@ == Seq::<FoldState>::empty(),
            folds_wf(final(self)@),
    {
        *self = Folds::default();
    }

    /// Opens all closed folds that hide `char_idx` so that it becomes visible.
    /// Returns whether any fold was opened.
    pub fn reveal_char(&mut self, char_idx: usize) -> (changed: bool)
        ensures
            changed == (keep_folds(old(self)@, not_hiding(char_idx as int)).len()
                != old(self)@.len()),
            final(self)@ == if changed {
                rebuilt(keep_folds(old(self)@, not_hiding(char_idx as int)))
            } else {
                old(self)@
            },
            folds_wf(final(self)@),
    {
        self.retain(Retain::NotHiding(char_idx))
    }

    /// Returns `char_idx` if it is visible. Otherwise returns the closest position on the
    /// header of the fold that hides it, keeping the column if possible.
    pub fn visible_pos(&self, text: &Text, char_idx: usize) -> (pos: usize)
        requires
            char_idx <= text@.len() || hiding_fold(outermost(self@), char_idx as int) is None,
        ensures
            pos == visible_position(text@, outermost(self@), char_idx as int),
    {
        proof {
            use_type_invariant(self);
            lemma_outermost(self@);
        }
        let fold = match self.hiding(char_idx) {
            None => {
                return char_idx;
            },
            Some(fold) => fold,
        };
        proof {
            let fv = outermost(self@);
            let i = choose|i: int| 0 <= i < fv.len() && hides(#[trigger] fv[i], char_idx as int);
            assert(fold_wf(fv[i]));
            lemma_line_of(text@, char_idx as int);
        }
        let line_start = text.line_to_char(text.char_to_line(char_idx));
        let col = char_idx - line_start;
        let header_len = fold.start - fold.header_start;
        let last_col = if header_len > 0 {
            header_len - 1
        } else {
            0
        };
        fold.header_start + if col < last_col {
            col
        } else {
            last_col
        }
    }

    /// Keeps the folds in sync with `changes`, which must already be applied to `text`.
    pub fn map(&mut self, text: &Text, changes: &ChangeSet)
        requires
            forall|i: int| 0 <= i < old(self)@.len() ==> #[trigger] old(self)@[i].end <= len_before(changes@),
        ensures
            final(self)@ == if old(self)@.len() == 0 {
                old(self)@
            } else {
                rebuilt(renormalized(text@, mapped_folds(old(self)@, changes@)))
            },
            folds_wf(final(self)@),
    {
        proof {
            use_type_invariant(&*self);
        }
        if self.closed.len() == 0 {
            return;
        }
        let ghost cv = self@;
        let mut mapped: Vec<FoldedRange> = Vec::new();
        let mut i: usize = 0;
        while i < self.closed.len()
            invariant
                cv == views(self.closed@),
                folds_wf(cv),
                forall|j: int| 0 <= j < cv.len() ==> #[trigger] cv[j].end <= len_before(changes@),
                i <= cv.len(),
                views(mapped@) == mapped_folds(cv.take(i as int), changes@),
            decreases cv.len() - i,
        {
            let ghost before = views(mapped@);
            let mut fold = self.closed[i].copy();
            assert(fold@ == cv[i as int]);
            assert(fold_wf(cv[i as int]));
            // Inserting at the very start of the header line (for example to open a line above)
            // must not push the header line down, and text inserted right after the fold
            // must not become part of it.
            fold.header_start = changes.map_pos(fold.header_start, Assoc::After);
            fold.end = changes.map_pos(fold.end, Assoc::Before);
            let ghost old_m = mapped@;
            let ghost fv = fold;
            assert(cv.take(i as int).len() == i);
            assert(before.len() == i);
            assert(old_m.len() == i);
            mapped.push(fold);
            assert(mapped@ == old_m.push(fv));
            assert forall|j: int| 0 <= j < i + 1 implies views(mapped@)[j] == mapped_folds(
                cv.take(i + 1),
                changes@,
            )[j] by {
                assert(cv.take(i + 1)[j] == cv[j]);
                if j < i {
                    assert(mapped@[j] == old_m[j]);
                    assert(views(mapped@)[j] == before[j]);
                    assert(before[j] == mapped_folds(cv.take(i as int), changes@)[j]);
                    assert(cv.take(i as int)[j] == cv[j]);
                } else {
                    assert(mapped@[j] == fv);
                }
            }
            assert(views(mapped@) =~= mapped_folds(cv.take(i + 1), changes@));
            i += 1;
        }
        assert(cv.take(cv.len() as int) =~= cv);
        self.refresh_from(text, mapped);
    }

    /// Recomputes the folds after the text changed. Folds that don't span multiple lines
    /// any more are dropped.
    pub fn refresh(&mut self, text: &Text)
        ensures
            final(self)@ == rebuilt(renormalized(text@, old(self)@)),
            folds_wf(final(self)@),
    {
        let closed = copy_folds(&self.closed);
        self.refresh_from(text, closed);
    }

    /// Replaces the closed folds by `closed` recomputed from `text`.
    fn refresh_from(&mut self, text: &Text, closed: Vec<FoldedRange>)
        ensures
            final(self)@ == rebuilt(renormalized(text@, views(closed@))),
            folds_wf(final(self)@),
    {
        let ghost cv = views(closed@);
        let mut kept: Vec<FoldedRange> = Vec::new();
        let mut i: usize = 0;
        while i < closed.len()
            invariant
                cv == views(closed@),
                i <= cv.len(),
                views(kept@) == renormalized(text@, cv.take(i as int)),
            decreases cv.len() - i,
        {
            let ghost before = views(kept@);
            assert(cv.take(i + 1).drop_last() =~= cv.take(i as int));
            assert(cv.take(i + 1).last() == closed@[i as int]@);
            let mut fold = closed[i].copy();
            if fold.normalize(text) {
                kept.push(fold);
                assert(views(kept@) =~= before.push(fold@));
            }
            i += 1;
        }
        assert(cv.take(cv.len() as int) =~= cv);
        proof {
            assert forall|j: int| 0 <= j < cv.len() implies #[trigger] cv[j].header_start >= 0
                && cv[j].end >= 0 by {
                assert(cv[j] == closed@[j]@);
            }
            lemma_renormalized_wf(text@, cv);
            assert forall|j: int| 0 <= j < kept@.len() implies fold_wf(#[trigger] kept@[j]@) by {
                assert(kept@[j]@ == views(kept@)[j]);
            }
        }
        *self = Folds::rebuild(kept);
    }
}

} // verus!
