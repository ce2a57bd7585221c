//! The mathematical model of closed folds: what a closed fold is made of, how a fold is
//! recomputed from a text, and how the set of closed folds is kept sorted and which of its
//! folds are rendered.
use vstd::prelude::*;
use crate::fold::FoldSpan;
use crate::text::{
    lemma_line_end, lemma_line_end_before_next, lemma_line_start_bounds, lemma_line_of, lemma_line_start_mono, line_end,
    line_of, line_start, num_lines,
};

verus! {

/// A closed fold as plain values (see `FoldedRange`).
pub struct FoldState {
    /// Char index of the first char of the header line.
    pub header_start: int,
    /// Char index of the header's line ending: the first hidden char.
    pub start: int,
    /// Char index of the first char after the fold.
    pub end: int,
    /// The line that stays visible.
    pub header_line: int,
    /// The last hidden line.
    pub last_line: int,
    /// Virtual text that is shown at the end of the header line.
    pub placeholder: Seq<char>,
}

pub open spec fn digit_char(d: int) -> char {
    if d == 0 {
        '0'
    } else if d == 1 {
        '1'
    } else if d == 2 {
        '2'
    } else if d == 3 {
        '3'
    } else if d == 4 {
        '4'
    } else if d == 5 {
        '5'
    } else if d == 6 {
        '6'
    } else if d == 7 {
        '7'
    } else if d == 8 {
        '8'
    } else {
        '9'
    }
}

/// The decimal digits of `n`.
pub open spec fn decimal(n: nat) -> Seq<char>
    decreases n,
{
    if n < 10 {
        seq![digit_char(n as int)]
    } else {
        decimal(n / 10).push(digit_char((n % 10) as int))
    }
}

/// The text shown after the header of a fold that hides `hidden` lines: " … 2 lines".
pub open spec fn placeholder_text(hidden: int) -> Seq<char> {
    seq![' ', '…', ' '] + decimal(hidden as nat) + if hidden == 1 {
        seq![' ', 'l', 'i', 'n', 'e']
    } else {
        seq![' ', 'l', 'i', 'n', 'e', 's']
    }
}

/// A closed fold hides at least one line, after the line ending of its header.
pub open spec fn fold_wf(f: FoldState) -> bool {
    &&& 0 <= f.header_line < f.last_line
    &&& 0 <= f.header_start <= f.start < f.end
    &&& f.placeholder == placeholder_text(f.last_line - f.header_line)
}

/// The fold of `s` recomputed from the char index of its header and of its end: it hides
/// the lines after the header up to the line before `end`; there is none when that leaves
/// no line to hide.
pub open spec fn normalized(s: Seq<char>, header_start: int, end: int) -> Option<FoldState> {
    let len = s.len() as int;
    let header_line = line_of(s, if header_start < len { header_start } else { len });
    let end_clamped = if end < len { end } else { len };
    let last_line = line_of(s, if end_clamped > 0 { end_clamped - 1 } else { 0 });
    if last_line <= header_line {
        None
    } else {
        Some(FoldState {
            header_start: line_start(s, header_line),
            start: line_end(s, header_line),
            end: line_start(s, last_line + 1),
            header_line,
            last_line,
            placeholder: placeholder_text(last_line - header_line),
        })
    }
}

/// The fold that closing the lines `first_line..=last_line` of `s` adds, if any.
pub open spec fn closing_fold(s: Seq<char>, first_line: int, last_line: int) -> Option<
    FoldState,
> {
    if last_line < num_lines(s) {
        normalized(s, line_start(s, first_line), line_start(s, last_line + 1))
    } else {
        None
    }
}

/// `f` is the fold of `s` that it would be recomputed to.
pub open spec fn fold_matches_text(s: Seq<char>, f: FoldState) -> bool {
    normalized(s, f.header_start, f.end) == Some(f)
}

/// `f` hides the char index `c`. The header's line ending itself is displayed, so it is not
/// hidden.
pub open spec fn hides(f: FoldState, c: int) -> bool {
    f.start < c < f.end
}

pub open spec fn same_span(a: FoldState, b: FoldState) -> bool {
    a.header_line == b.header_line && a.last_line == b.last_line
}

/// Some fold of `c` spans the lines `header_line..=last_line`.
pub open spec fn has_span(c: Seq<FoldState>, header_line: int, last_line: int) -> bool {
    exists|i: int|
        0 <= i < c.len() && #[trigger] c[i].header_line == header_line && c[i].last_line
            == last_line
}

/// `a` sorts before `b`: its header starts earlier, or at the same char and it ends later.
pub open spec fn key_lt(a: FoldState, b: FoldState) -> bool {
    a.header_start < b.header_start || (a.header_start == b.header_start && a.end > b.end)
}

pub open spec fn sorted_by_key(c: Seq<FoldState>) -> bool {
    forall|i: int, j: int| 0 <= i < j < c.len() ==> !key_lt(#[trigger] c[j], #[trigger] c[i])
}

/// Inserts `f` before the first fold of `s` that sorts after it.
pub open spec fn insert_by_key(s: Seq<FoldState>, f: FoldState) -> Seq<FoldState>
    decreases s.len(),
{
    if s.len() == 0 {
        seq![f]
    } else if key_lt(f, s[0]) {
        seq![f] + s
    } else {
        seq![s[0]] + insert_by_key(s.drop_first(), f)
    }
}

/// `c` sorted by key; folds with equal keys keep their order.
pub open spec fn sort_by_key(c: Seq<FoldState>) -> Seq<FoldState>
    decreases c.len(),
{
    if c.len() == 0 {
        c
    } else {
        insert_by_key(sort_by_key(c.drop_last()), c.last())
    }
}

/// `c` without each fold whose span is that of the last fold kept before it.
pub open spec fn dedup_spans(c: Seq<FoldState>) -> Seq<FoldState>
    decreases c.len(),
{
    if c.len() == 0 {
        c
    } else {
        let d = dedup_spans(c.drop_last());
        if d.len() > 0 && same_span(d.last(), c.last()) {
            d
        } else {
            d.push(c.last())
        }
    }
}

/// The closed folds `c` after sorting them and removing repeated spans.
pub open spec fn rebuilt(c: Seq<FoldState>) -> Seq<FoldState> {
    dedup_spans(sort_by_key(c))
}

/// The folds of `c` from index `i` on that start at or after `until` and after the end of
/// the previous fold taken.
pub open spec fn outer_from(c: Seq<FoldState>, i: int, until: int) -> Seq<FoldState>
    decreases c.len() - i,
{
    if i < 0 || i >= c.len() {
        seq![]
    } else if c[i].start >= until {
        seq![c[i]] + outer_from(c, i + 1, c[i].end)
    } else {
        outer_from(c, i + 1, until)
    }
}

/// The closed folds that are rendered: in order, each one that starts at or after the end of
/// the last one taken. For spans that never partly overlap these are the closed folds that are
/// not nested in another closed fold.
pub open spec fn outermost(c: Seq<FoldState>) -> Seq<FoldState> {
    outer_from(c, 0, 0)
}

/// Each fold ends no later than the next one starts.
pub open spec fn disjoint_sorted(c: Seq<FoldState>) -> bool {
    &&& forall|i: int| 0 <= i < c.len() ==> #[trigger] c[i].start < c[i].end
    &&& forall|i: int, j: int| 0 <= i < j < c.len() ==> #[trigger] c[i].end <= #[trigger] c[j].start
}

/// The closed folds are well formed, sorted, and no two neighbours share a span.
pub open spec fn folds_wf(c: Seq<FoldState>) -> bool {
    &&& forall|i: int| 0 <= i < c.len() ==> fold_wf(#[trigger] c[i])
    &&& sorted_by_key(c)
    &&& forall|i: int| 0 <= i < c.len() - 1 ==> !same_span(#[trigger] c[i], c[i + 1])
}

/// The fold of `fs` that hides `c`, if any.
pub open spec fn hiding_fold(fs: Seq<FoldState>, c: int) -> Option<FoldState> {
    if exists|i: int| 0 <= i < fs.len() && hides(#[trigger] fs[i], c) {
        Some(fs[choose|i: int| 0 <= i < fs.len() && hides(#[trigger] fs[i], c)])
    } else {
        None
    }
}

/// The folds that closing `spans` in `s` adds, in order.
pub open spec fn closing_folds(s: Seq<char>, spans: Seq<FoldSpan>) -> Seq<FoldState>
    decreases spans.len(),
{
    if spans.len() == 0 {
        seq![]
    } else {
        let prev = closing_folds(s, spans.drop_last());
        match closing_fold(s, spans.last().first_line as int, spans.last().last_line as int) {
            Some(f) => prev.push(f),
            None => prev,
        }
    }
}

/// The folds of `c` recomputed from `s`, without those that no longer hide a line.
pub open spec fn renormalized(s: Seq<char>, c: Seq<FoldState>) -> Seq<FoldState>
    decreases c.len(),
{
    if c.len() == 0 {
        seq![]
    } else {
        let prev = renormalized(s, c.drop_last());
        match normalized(s, c.last().header_start, c.last().end) {
            Some(f) => prev.push(f),
            None => prev,
        }
    }
}

/// The folds of `c` for which `keep` holds, in order.
pub open spec fn keep_folds(c: Seq<FoldState>, keep: spec_fn(FoldState) -> bool) -> Seq<
    FoldState,
>
    decreases c.len(),
{
    if c.len() == 0 {
        seq![]
    } else {
        let prev = keep_folds(c.drop_last(), keep);
        if keep(c.last()) {
            prev.push(c.last())
        } else {
            prev
        }
    }
}

/// The position shown for `c`: `c` itself when no fold hides it, else the position on the
/// header of the hiding fold in the same column, clamped to the last char of the header.
pub open spec fn visible_position(s: Seq<char>, folded: Seq<FoldState>, c: int) -> int {
    match hiding_fold(folded, c) {
        None => c,
        Some(f) => {
            let col = c - line_start(s, line_of(s, c));
            let header_len = f.start - f.header_start;
            let last_col = if header_len > 0 { header_len - 1 } else { 0 };
            f.header_start + if col < last_col { col } else { last_col }
        },
    }
}

// ---------------------------------------------------------------------------------------
// Lemmas
// ---------------------------------------------------------------------------------------

pub proof fn lemma_insert_at(s: Seq<FoldState>, f: FoldState, p: int)
    requires
        0 <= p <= s.len(),
        forall|j: int| 0 <= j < p ==> !key_lt(f, #[trigger] s[j]),
        p == s.len() || key_lt(f, s[p]),
    ensures
        insert_by_key(s, f) == s.insert(p, f),
    decreases s.len(),
{
    if s.len() == 0 {
        assert(insert_by_key(s, f) =~= s.insert(p, f));
    } else if key_lt(f, s[0]) {
        assert(insert_by_key(s, f) =~= s.insert(p, f));
    } else {
        let t = s.drop_first();
        assert forall|j: int| 0 <= j < p - 1 implies !key_lt(f, #[trigger] t[j]) by {
            assert(t[j] == s[j + 1]);
        }
        lemma_insert_at(t, f, p - 1);
        assert(insert_by_key(s, f) =~= s.insert(p, f));
    }
}

pub proof fn lemma_insert_by_key(s: Seq<FoldState>, f: FoldState)
    ensures
        insert_by_key(s, f).len() == s.len() + 1,
        forall|x: FoldState| #[trigger]
            insert_by_key(s, f).contains(x) <==> (s.contains(x) || x == f),
        sorted_by_key(s) ==> sorted_by_key(insert_by_key(s, f)),
    decreases s.len(),
{
    let r = insert_by_key(s, f);
    if s.len() == 0 {
        assert forall|x: FoldState| #[trigger] r.contains(x) <==> (s.contains(x) || x == f) by {
            if r.contains(x) {
                assert(r[0] == x);
            }
            if x == f {
                assert(r[0] == x);
            }
        }
    } else if key_lt(f, s[0]) {
        assert forall|x: FoldState| #[trigger] r.contains(x) <==> (s.contains(x) || x == f) by {
            if r.contains(x) {
                let k = choose|k: int| 0 <= k < r.len() && r[k] == x;
                if k > 0 {
                    assert(s[k - 1] == x);
                }
            }
            if s.contains(x) {
                let k = choose|k: int| 0 <= k < s.len() && s[k] == x;
                assert(r[k + 1] == x);
            }
            if x == f {
                assert(r[0] == x);
            }
        }
        if sorted_by_key(s) {
            assert forall|i: int, j: int| 0 <= i < j < r.len() implies !key_lt(
                #[trigger] r[j],
                #[trigger] r[i],
            ) by {
                if i == 0 {
                    assert(r[j] == s[j - 1]);
                    if j - 1 > 0 {
                        assert(!key_lt(s[j - 1], s[0]));
                    }
                } else {
                    assert(r[i] == s[i - 1] && r[j] == s[j - 1]);
                }
            }
        }
    } else {
        let t = s.drop_first();
        lemma_insert_by_key(t, f);
        let rt = insert_by_key(t, f);
        assert(r == seq![s[0]] + rt);
        assert forall|x: FoldState| #[trigger] r.contains(x) <==> (s.contains(x) || x == f) by {
            if r.contains(x) {
                let k = choose|k: int| 0 <= k < r.len() && r[k] == x;
                if k > 0 {
                    assert(rt[k - 1] == x);
                    assert(rt.contains(x));
                    if t.contains(x) {
                        let m = choose|m: int| 0 <= m < t.len() && t[m] == x;
                        assert(s[m + 1] == x);
                    }
                } else {
                    assert(s[0] == x);
                }
            }
            if s.contains(x) {
                let k = choose|k: int| 0 <= k < s.len() && s[k] == x;
                if k > 0 {
                    assert(t[k - 1] == x);
                    assert(rt.contains(x));
                    let m = choose|m: int| 0 <= m < rt.len() && rt[m] == x;
                    assert(r[m + 1] == x);
                } else {
                    assert(r[0] == x);
                }
            }
            if x == f {
                assert(rt.contains(x));
                let m = choose|m: int| 0 <= m < rt.len() && rt[m] == x;
                assert(r[m + 1] == x);
            }
        }
        if sorted_by_key(s) {
            assert(sorted_by_key(t)) by {
                assert forall|i: int, j: int| 0 <= i < j < t.len() implies !key_lt(
                    #[trigger] t[j],
                    #[trigger] t[i],
                ) by {
                    assert(t[i] == s[i + 1] && t[j] == s[j + 1]);
                }
            }
            assert forall|i: int, j: int| 0 <= i < j < r.len() implies !key_lt(
                #[trigger] r[j],
                #[trigger] r[i],
            ) by {
                if i == 0 {
                    assert(r[j] == rt[j - 1]);
                    assert(rt.contains(rt[j - 1]));
                    if rt[j - 1] != f {
                        assert(t.contains(rt[j - 1]));
                        let m = choose|m: int| 0 <= m < t.len() && t[m] == rt[j - 1];
                        assert(s[m + 1] == t[m]);
                    }
                } else {
                    assert(r[i] == rt[i - 1] && r[j] == rt[j - 1]);
                }
            }
        }
    }
}

pub proof fn lemma_sort_by_key(c: Seq<FoldState>)
    ensures
        sort_by_key(c).len() == c.len(),
        forall|x: FoldState| #[trigger] sort_by_key(c).contains(x) <==> c.contains(x),
        sorted_by_key(sort_by_key(c)),
    decreases c.len(),
{
    if c.len() > 0 {
        let d = c.drop_last();
        lemma_sort_by_key(d);
        lemma_insert_by_key(sort_by_key(d), c.last());
        assert forall|x: FoldState| #[trigger] sort_by_key(c).contains(x) <==> c.contains(x) by {
            if d.contains(x) {
                let k = choose|k: int| 0 <= k < d.len() && d[k] == x;
                assert(c[k] == x);
            }
            if c.contains(x) {
                let k = choose|k: int| 0 <= k < c.len() && c[k] == x;
                if k < c.len() - 1 {
                    assert(d[k] == x);
                }
            }
        }
    }
}

pub proof fn lemma_dedup_spans(c: Seq<FoldState>)
    ensures
        dedup_spans(c).len() <= c.len(),
        forall|x: FoldState| #[trigger] dedup_spans(c).contains(x) ==> c.contains(x),
        forall|h: int, l: int| #[trigger] has_span(dedup_spans(c), h, l) <==> has_span(c, h, l),
        forall|i: int|
            0 <= i < dedup_spans(c).len() - 1 ==> !same_span(
                #[trigger] dedup_spans(c)[i],
                dedup_spans(c)[i + 1],
            ),
        sorted_by_key(c) ==> sorted_by_key(dedup_spans(c)),
        c.len() > 0 ==> dedup_spans(c).len() > 0 && same_span(dedup_spans(c).last(), c.last()),
    decreases c.len(),
{
    if c.len() > 0 {
        let d0 = c.drop_last();
        lemma_dedup_spans(d0);
        let d = dedup_spans(d0);
        let r = dedup_spans(c);
        assert forall|x: FoldState| #[trigger] r.contains(x) implies c.contains(x) by {
            if d.contains(x) {
                assert(d0.contains(x));
                let k = choose|k: int| 0 <= k < d0.len() && d0[k] == x;
                assert(c[k] == x);
            } else {
                assert(r[r.len() - 1] == x);
                assert(c[c.len() - 1] == x);
            }
        }
        assert forall|h: int, l: int| #[trigger] has_span(r, h, l) <==> has_span(c, h, l) by {
            if has_span(r, h, l) {
                let i = choose|i: int|
                    0 <= i < r.len() && #[trigger] r[i].header_line == h && r[i].last_line == l;
                if i < d.len() {
                    assert(d[i] == r[i]);
                    assert(has_span(d, h, l));
                    let k = choose|k: int|
                        0 <= k < d0.len() && #[trigger] d0[k].header_line == h && d0[k].last_line
                            == l;
                    assert(c[k] == d0[k]);
                } else {
                    assert(c[c.len() - 1] == r[i]);
                }
            }
            if has_span(c, h, l) {
                let k = choose|k: int|
                    0 <= k < c.len() && #[trigger] c[k].header_line == h && c[k].last_line == l;
                if k < c.len() - 1 {
                    assert(d0[k] == c[k]);
                    assert(has_span(d0, h, l));
                    assert(has_span(d, h, l));
                    let i = choose|i: int|
                        0 <= i < d.len() && #[trigger] d[i].header_line == h && d[i].last_line
                            == l;
                    assert(r[i] == d[i]);
                } else if d.len() > 0 && same_span(d.last(), c.last()) {
                    assert(r[d.len() - 1] == d.last());
                } else {
                    assert(r[r.len() - 1] == c.last());
                }
            }
        }
        if sorted_by_key(c) {
            assert(sorted_by_key(d0)) by {
                assert forall|i: int, j: int| 0 <= i < j < d0.len() implies !key_lt(
                    #[trigger] d0[j],
                    #[trigger] d0[i],
                ) by {
                    assert(d0[i] == c[i] && d0[j] == c[j]);
                }
            }
            assert forall|i: int, j: int| 0 <= i < j < r.len() implies !key_lt(
                #[trigger] r[j],
                #[trigger] r[i],
            ) by {
                if j >= d.len() {
                    assert(r[i] == d[i]);
                    assert(d.contains(d[i]));
                    assert(d0.contains(d[i]));
                    let k = choose|k: int| 0 <= k < d0.len() && d0[k] == d[i];
                    assert(c[k] == d0[k]);
                    assert(r[j] == c[c.len() - 1]);
                } else {
                    assert(r[i] == d[i] && r[j] == d[j]);
                }
            }
        }
    }
}

/// The closed folds rebuilt from well formed folds are well formed, and hold the same spans.
pub proof fn lemma_rebuilt(c: Seq<FoldState>)
    requires
        forall|i: int| 0 <= i < c.len() ==> fold_wf(#[trigger] c[i]),
    ensures
        folds_wf(rebuilt(c)),
        forall|x: FoldState| #[trigger] rebuilt(c).contains(x) ==> c.contains(x),
        forall|h: int, l: int| #[trigger] has_span(rebuilt(c), h, l) <==> has_span(c, h, l),
        rebuilt(c).len() <= c.len(),
{
    let s = sort_by_key(c);
    lemma_sort_by_key(c);
    lemma_dedup_spans(s);
    let r = rebuilt(c);
    assert forall|i: int| 0 <= i < r.len() implies fold_wf(#[trigger] r[i]) by {
        assert(r.contains(r[i]));
        assert(s.contains(r[i]));
        let k = choose|k: int| 0 <= k < c.len() && c[k] == r[i];
    }
    assert forall|h: int, l: int| #[trigger] has_span(s, h, l) <==> has_span(c, h, l) by {
        if has_span(s, h, l) {
            let i = choose|i: int|
                0 <= i < s.len() && #[trigger] s[i].header_line == h && s[i].last_line == l;
            assert(s.contains(s[i]));
            let k = choose|k: int| 0 <= k < c.len() && c[k] == s[i];
            assert(c[k].header_line == h && c[k].last_line == l);
        }
        if has_span(c, h, l) {
            let k = choose|k: int|
                0 <= k < c.len() && #[trigger] c[k].header_line == h && c[k].last_line == l;
            assert(c.contains(c[k]));
            assert(s.contains(c[k]));
            let i = choose|i: int| 0 <= i < s.len() && s[i] == c[k];
            assert(s[i].header_line == h && s[i].last_line == l);
        }
    }
    assert forall|x: FoldState| #[trigger] r.contains(x) implies c.contains(x) by {
        assert(s.contains(x));
    }
}

/// Rebuilding well formed closed folds changes nothing.
pub proof fn lemma_rebuilt_unchanged(c: Seq<FoldState>)
    requires
        folds_wf(c),
    ensures
        rebuilt(c) == c,
    decreases c.len(),
{
    lemma_sort_unchanged(c);
    lemma_dedup_unchanged(c);
}

proof fn lemma_sort_unchanged(c: Seq<FoldState>)
    requires
        sorted_by_key(c),
    ensures
        sort_by_key(c) == c,
    decreases c.len(),
{
    if c.len() > 0 {
        let d = c.drop_last();
        assert(sorted_by_key(d)) by {
            assert forall|i: int, j: int| 0 <= i < j < d.len() implies !key_lt(
                #[trigger] d[j],
                #[trigger] d[i],
            ) by {
                assert(d[i] == c[i] && d[j] == c[j]);
            }
        }
        lemma_sort_unchanged(d);
        assert forall|j: int| 0 <= j < d.len() implies !key_lt(c.last(), #[trigger] d[j]) by {
            assert(d[j] == c[j]);
        }
        lemma_insert_at(d, c.last(), d.len() as int);
        assert(d.insert(d.len() as int, c.last()) =~= c);
    }
}

proof fn lemma_dedup_unchanged(c: Seq<FoldState>)
    requires
        forall|i: int| 0 <= i < c.len() - 1 ==> !same_span(#[trigger] c[i], c[i + 1]),
    ensures
        dedup_spans(c) == c,
    decreases c.len(),
{
    if c.len() > 0 {
        let d = c.drop_last();
        assert forall|i: int| 0 <= i < d.len() - 1 implies !same_span(#[trigger] d[i], d[i + 1]) by {
            assert(d[i] == c[i] && d[i + 1] == c[i + 1]);
        }
        lemma_dedup_unchanged(d);
        if d.len() > 0 {
            assert(!same_span(c[c.len() - 2], c[c.len() - 1]));
        }
        assert(d.push(c.last()) =~= c);
    }
}

/// The folds taken from `c` start at or after `until`, come from `c`, and do not overlap.
pub proof fn lemma_outer_from(c: Seq<FoldState>, i: int, until: int)
    requires
        0 <= i,
        forall|k: int| 0 <= k < c.len() ==> #[trigger] c[k].start < c[k].end,
    ensures
        disjoint_sorted(outer_from(c, i, until)),
        forall|k: int|
            0 <= k < outer_from(c, i, until).len() ==> #[trigger] outer_from(c, i, until)[k].start
                >= until,
        forall|x: FoldState| #[trigger] outer_from(c, i, until).contains(x) ==> c.contains(x),
    decreases c.len() - i,
{
    if i < c.len() {
        if c[i].start >= until {
            lemma_outer_from(c, i + 1, c[i].end);
            let rest = outer_from(c, i + 1, c[i].end);
            let r = outer_from(c, i, until);
            assert(r == seq![c[i]] + rest);
            assert forall|a: int, b: int| 0 <= a < b < r.len() implies #[trigger] r[a].end
                <= #[trigger] r[b].start by {
                if a == 0 {
                    assert(r[b] == rest[b - 1]);
                } else {
                    assert(r[a] == rest[a - 1] && r[b] == rest[b - 1]);
                }
            }
            assert forall|k: int| 0 <= k < r.len() implies #[trigger] r[k].start < r[k].end by {
                if k > 0 {
                    assert(r[k] == rest[k - 1]);
                }
            }
            assert forall|k: int| 0 <= k < r.len() implies #[trigger] r[k].start >= until by {
                if k > 0 {
                    assert(r[k] == rest[k - 1]);
                }
            }
            assert forall|x: FoldState| #[trigger] r.contains(x) implies c.contains(x) by {
                let k = choose|k: int| 0 <= k < r.len() && r[k] == x;
                if k > 0 {
                    assert(rest[k - 1] == x);
                    assert(rest.contains(x));
                }
            }
        } else {
            lemma_outer_from(c, i + 1, until);
        }
    }
}

/// The rendered folds of well formed closed folds do not overlap.
pub proof fn lemma_outermost(c: Seq<FoldState>)
    requires
        folds_wf(c),
    ensures
        disjoint_sorted(outermost(c)),
        forall|x: FoldState| #[trigger] outermost(c).contains(x) ==> c.contains(x),
        forall|k: int| 0 <= k < outermost(c).len() ==> fold_wf(#[trigger] outermost(c)[k]),
{
    assert forall|k: int| 0 <= k < c.len() implies #[trigger] c[k].start < c[k].end by {
        assert(fold_wf(c[k]));
    }
    lemma_outer_from(c, 0, 0);
    assert forall|k: int| 0 <= k < outermost(c).len() implies fold_wf(
        #[trigger] outermost(c)[k],
    ) by {
        assert(outermost(c).contains(outermost(c)[k]));
        let m = choose|m: int| 0 <= m < c.len() && c[m] == outermost(c)[k];
    }
}

/// At most one of folds that do not overlap hides a char.
pub proof fn lemma_hides_unique(fs: Seq<FoldState>, x: int, i: int, j: int)
    requires
        disjoint_sorted(fs),
        0 <= i < fs.len(),
        0 <= j < fs.len(),
        hides(fs[i], x),
        hides(fs[j], x),
    ensures
        i == j,
{
    if i < j {
        assert(fs[i].end <= fs[j].start);
    } else if j < i {
        assert(fs[j].end <= fs[i].start);
    }
}

/// A fold recomputed from a text is well formed.
pub proof fn lemma_normalized_wf(s: Seq<char>, header_start: int, end: int)
    requires
        header_start >= 0,
        end >= 0,
    ensures
        normalized(s, header_start, end) matches Some(f) ==> fold_wf(f) && f.last_line < num_lines(
            s,
        ) && f.end <= s.len(),
{
    let len = s.len() as int;
    let hs = if header_start < len { header_start } else { len };
    let e = if end < len { end } else { len };
    let e1 = if e > 0 { e - 1 } else { 0 };
    if hs >= 0 && e1 >= 0 {
        lemma_line_of(s, hs);
        lemma_line_of(s, e1);
        let hl = line_of(s, hs);
        let ll = line_of(s, e1);
        if hl < ll {
            lemma_line_start_bounds(s, hl);
            lemma_line_end(s, hl);
            lemma_line_end_before_next(s, hl);
            lemma_line_start_mono(s, hl + 1, ll + 1);
        }
    }
}

/// The folds closed from spans, or recomputed from a text, are well formed.
pub proof fn lemma_closing_folds_wf(s: Seq<char>, spans: Seq<FoldSpan>)
    ensures
        forall|i: int|
            0 <= i < closing_folds(s, spans).len() ==> fold_wf(#[trigger] closing_folds(s, spans)[i]),
    decreases spans.len(),
{
    if spans.len() > 0 {
        lemma_closing_folds_wf(s, spans.drop_last());
        let sp = spans.last();
        lemma_line_start_bounds(s, sp.first_line as int);
        lemma_line_start_bounds(s, sp.last_line as int + 1);
        lemma_normalized_wf(
            s,
            line_start(s, sp.first_line as int),
            line_start(s, sp.last_line as int + 1),
        );
        let prev = closing_folds(s, spans.drop_last());
        let r = closing_folds(s, spans);
        assert forall|i: int| 0 <= i < r.len() implies fold_wf(#[trigger] r[i]) by {
            if i < prev.len() {
                assert(r[i] == prev[i]);
            }
        }
    }
}

pub proof fn lemma_renormalized_wf(s: Seq<char>, c: Seq<FoldState>)
    requires
        forall|i: int| 0 <= i < c.len() ==> #[trigger] c[i].header_start >= 0 && c[i].end >= 0,
    ensures
        forall|i: int|
            0 <= i < renormalized(s, c).len() ==> fold_wf(#[trigger] renormalized(s, c)[i]),
    decreases c.len(),
{
    if c.len() > 0 {
        lemma_renormalized_wf(s, c.drop_last());
        lemma_normalized_wf(s, c.last().header_start, c.last().end);
        let prev = renormalized(s, c.drop_last());
        let r = renormalized(s, c);
        assert forall|i: int| 0 <= i < r.len() implies fold_wf(#[trigger] r[i]) by {
            if i < prev.len() {
                assert(r[i] == prev[i]);
            }
        }
    }
}

/// The folds kept from `c` are folds of `c`.
pub proof fn lemma_keep_folds(c: Seq<FoldState>, keep: spec_fn(FoldState) -> bool)
    ensures
        keep_folds(c, keep).len() <= c.len(),
        forall|x: FoldState| #[trigger] keep_folds(c, keep).contains(x) <==> (c.contains(x) && keep(x)),
    decreases c.len(),
{
    if c.len() > 0 {
        let d = c.drop_last();
        lemma_keep_folds(d, keep);
        let r = keep_folds(c, keep);
        let rd = keep_folds(d, keep);
        assert forall|x: FoldState| #[trigger] r.contains(x) <==> (c.contains(x) && keep(x)) by {
            if r.contains(x) {
                let k = choose|k: int| 0 <= k < r.len() && r[k] == x;
                if k < rd.len() {
                    assert(rd[k] == x);
                    assert(rd.contains(x));
                    let m = choose|m: int| 0 <= m < d.len() && d[m] == x;
                    assert(c[m] == x);
                } else {
                    assert(c[c.len() - 1] == x);
                }
            }
            if c.contains(x) && keep(x) {
                let k = choose|k: int| 0 <= k < c.len() && c[k] == x;
                if k < c.len() - 1 {
                    assert(d[k] == x);
                    assert(rd.contains(x));
                    let m = choose|m: int| 0 <= m < rd.len() && rd[m] == x;
                    assert(r[m] == x);
                } else {
                    assert(r[r.len() - 1] == x);
                }
            }
        }
    }
}

/// Keeping every fold keeps `c` as it is.
pub proof fn lemma_keep_all(c: Seq<FoldState>, keep: spec_fn(FoldState) -> bool)
    requires
        keep_folds(c, keep).len() == c.len(),
    ensures
        keep_folds(c, keep) == c,
    decreases c.len(),
{
    if c.len() > 0 {
        let d = c.drop_last();
        lemma_keep_folds(d, keep);
        if !keep(c.last()) {
            assert(false);
        }
        lemma_keep_all(d, keep);
        assert(d.push(c.last()) =~= c);
    }
}

} // verus!
