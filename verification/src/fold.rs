//! Code folding.
//!
//! Folding is split in two halves:
//!
//! * **Fold spans** ([`FoldSpan`]) describe what *can* be folded. They are computed on demand
//!   from the document (see [`tree_sitter_spans`] and [`indent_spans`]) and are never stored.
//! * **Closed folds** ([`Folds`]) record which of those spans the user closed. Only the closed
//!   folds need to survive edits, so they are stored as char positions that are mapped through
//!   every [`ChangeSet`](crate::changes::ChangeSet).
//!
//! A closed fold keeps its first line (the *header*) visible and hides everything up to and
//! including the last line of the span.
pub mod closed;
pub mod laws;
pub mod model;
pub mod rendered;

pub use closed::{FoldedRange, Folds};

use vstd::prelude::*;
use crate::text::{
    byte_len, char_of_byte, indent_computable, indent_width, lemma_line_of,
    lemma_line_start_mono, line_chars, line_is_blank, line_of, line_start, num_lines, Text,
};

verus! {

/// A region of the document that can be folded, as an inclusive range of document lines.
///
/// `first_line` is the header that stays visible when the span is closed, so
/// `first_line < last_line` always holds for a valid span.
#[derive(Debug, Clone, Copy, PartialEq, Eq, Structural, PartialOrd, Ord)]
pub struct FoldSpan {
    pub first_line: usize,
    pub last_line: usize,
}

impl FoldSpan {
    /// The span from `first_line` to `last_line`, if it holds more than one line.
    pub fn new(first_line: usize, last_line: usize) -> (span: Option<Self>)
        ensures
            span == (if first_line < last_line {
                Some(FoldSpan { first_line, last_line })
            } else {
                None
            }),
    {
        if first_line < last_line {
            Some(FoldSpan { first_line, last_line })
        } else {
            None
        }
    }

    pub fn contains_line(&self, line: usize) -> (r: bool)
        ensures
            r == (self.first_line <= line <= self.last_line),
    {
        self.first_line <= line && line <= self.last_line
    }
}

/// `a` comes before `b` outermost-first: it starts earlier, or it starts on the same line
/// and is larger.
pub open spec fn span_before(a: FoldSpan, b: FoldSpan) -> bool {
    a.first_line < b.first_line || (a.first_line == b.first_line && a.last_line > b.last_line)
}

/// The spans are sorted outermost-first and hold no duplicates.
pub open spec fn spans_sorted(spans: Seq<FoldSpan>) -> bool {
    forall|i: int, j: int| 0 <= i < j < spans.len() ==> span_before(spans[i], spans[j])
}

/// Inserts `span` into the sorted `spans` unless it is there already.
fn insert_span(spans: &mut Vec<FoldSpan>, span: FoldSpan)
    requires
        spans_sorted(old(spans)@),
    ensures
        spans_sorted(final(spans)@),
        forall|s: FoldSpan| final(spans)@.contains(s) <==> (old(spans)@.contains(s) || s == span),
{
    let mut i: usize = 0;
    while i < spans.len() && span_before_exec(spans[i], span)
        invariant
            spans@ == old(spans)@,
            i <= spans@.len(),
            forall|j: int| 0 <= j < i ==> span_before(#[trigger] spans@[j], span),
        decreases spans@.len() - i,
    {
        i += 1;
    }
    let ghost old_spans = spans@;
    if i < spans.len() && spans[i] == span {
        return;
    }
    spans.insert(i, span);
    proof {
        let n = spans@;
        assert forall|a: int, b: int| 0 <= a < b < n.len() implies span_before(n[a], n[b]) by {
            if b < i {
                assert(n[a] == old_spans[a] && n[b] == old_spans[b]);
            } else if b == i {
                assert(n[a] == old_spans[a]);
            } else if a < i {
                assert(n[a] == old_spans[a] && n[b] == old_spans[b - 1]);
                assert(span_before(old_spans[a], old_spans[i as int]));
            } else if a == i {
                assert(n[b] == old_spans[b - 1]);
                if b - 1 > i {
                    assert(span_before(old_spans[i as int], old_spans[b - 1]));
                }
            } else {
                assert(n[a] == old_spans[a - 1] && n[b] == old_spans[b - 1]);
            }
        }
        assert forall|s: FoldSpan| n.contains(s) <==> (old_spans.contains(s) || s == span) by {
            if n.contains(s) {
                let k = choose|k: int| 0 <= k < n.len() && n[k] == s;
                if k < i {
                    assert(old_spans[k] == s);
                } else if k > i {
                    assert(old_spans[k - 1] == s);
                }
            }
            if old_spans.contains(s) {
                let k = choose|k: int| 0 <= k < old_spans.len() && old_spans[k] == s;
                if k < i {
                    assert(n[k] == s);
                } else {
                    assert(n[k + 1] == s);
                }
            }
            if s == span {
                assert(n[i as int] == s);
            }
        }
    }
}

fn span_before_exec(a: FoldSpan, b: FoldSpan) -> (r: bool)
    ensures
        r == span_before(a, b),
{
    a.first_line < b.first_line || (a.first_line == b.first_line && a.last_line > b.last_line)
}

/// Sorts spans outermost-first (by start, larger spans before the spans nested in them) and
/// removes duplicates.
pub fn normalize_spans(spans: &mut Vec<FoldSpan>)
    ensures
        spans_sorted(final(spans)@),
        forall|s: FoldSpan| final(spans)@.contains(s) <==> old(spans)@.contains(s),
{
    let mut sorted: Vec<FoldSpan> = Vec::new();
    let mut k: usize = 0;
    while k < spans.len()
        invariant
            spans@ == old(spans)@,
            k <= spans@.len(),
            spans_sorted(sorted@),
            forall|s: FoldSpan| sorted@.contains(s) <==> spans@.take(k as int).contains(s),
        decreases spans@.len() - k,
    {
        insert_span(&mut sorted, spans[k]);
        proof {
            let t = spans@.take(k + 1);
            assert forall|s: FoldSpan| t.contains(s) <==> (spans@.take(k as int).contains(s) || s
                == spans@[k as int]) by {
                if t.contains(s) {
                    let j = choose|j: int| 0 <= j < t.len() && t[j] == s;
                    if j < k {
                        assert(spans@.take(k as int)[j] == s);
                    }
                }
                if spans@.take(k as int).contains(s) {
                    let j = choose|j: int| 0 <= j < k && spans@.take(k as int)[j] == s;
                    assert(t[j] == s);
                }
                if s == spans@[k as int] {
                    assert(t[k as int] == s);
                }
            }
        }
        k += 1;
    }
    assert(spans@.take(spans@.len() as int) =~= spans@);
    *spans = sorted;
}

// ---------------------------------------------------------------------------------------
// Fold spans from indentation
// ---------------------------------------------------------------------------------------

/// Line `l` of `s` exists and is not blank.
pub open spec fn content_line(s: Seq<char>, l: int) -> bool {
    0 <= l < num_lines(s) && !line_is_blank(s, l)
}

pub open spec fn indent_of(s: Seq<char>, l: int, tab_width: int) -> int {
    indent_width(line_chars(s, l), tab_width)
}

/// Line `c` ends the indented block that follows line `f`: it is the first non-blank line
/// after `f` that is not more indented than `f`, or the number of lines when there is none.
pub open spec fn closes_block(s: Seq<char>, tab_width: int, f: int, c: int) -> bool {
    &&& f < c <= num_lines(s)
    &&& c == num_lines(s) || (content_line(s, c) && indent_of(s, c, tab_width) <= indent_of(
        s,
        f,
        tab_width,
    ))
    &&& forall|m: int|
        f < m < c && #[trigger] content_line(s, m) ==> indent_of(s, m, tab_width) > indent_of(
            s,
            f,
            tab_width,
        )
}

/// The last non-blank line before line `c`, 0 when there is none.
pub open spec fn last_content_before(s: Seq<char>, c: int) -> int
    decreases c,
{
    if c <= 0 {
        0
    } else if content_line(s, c - 1) {
        c - 1
    } else {
        last_content_before(s, c - 1)
    }
}

/// `span` is a fold span by indentation: its first line is a non-blank line, and it ends at
/// the last non-blank line of the more indented block that follows it.
pub open spec fn is_indent_span(s: Seq<char>, tab_width: int, span: FoldSpan) -> bool {
    &&& content_line(s, span.first_line as int)
    &&& span.first_line < span.last_line
    &&& exists|c: int|
        closes_block(s, tab_width, span.first_line as int, c) && span.last_line
            == last_content_before(s, c)
}

/// The indentation of every non-blank line can be computed.
pub open spec fn indents_computable(s: Seq<char>, tab_width: int) -> bool {
    forall|l: int| #[trigger] content_line(s, l) ==> indent_computable(line_chars(s, l), tab_width)
}

proof fn lemma_closes_block_unique(s: Seq<char>, tab_width: int, f: int, c1: int, c2: int)
    requires
        closes_block(s, tab_width, f, c1),
        closes_block(s, tab_width, f, c2),
    ensures
        c1 == c2,
{
    if c1 < c2 {
        assert(content_line(s, c1));
    } else if c2 < c1 {
        assert(content_line(s, c2));
    }
}

/// `open` holds the line `f`.
spec fn stack_has(open: Seq<(usize, usize)>, f: int) -> bool {
    exists|i: int| 0 <= i < open.len() && open[i].1 == f
}

/// `open` holds the line `f` at index `lo` or above.
spec fn holds_from(open: Seq<(usize, usize)>, lo: int, f: int) -> bool {
    exists|i: int| lo <= i < open.len() && open[i].1 == f
}

/// Pops the lines of `open` that are not less indented than `indent`, and adds the span
/// from each of them to `last_line`.
fn close_until(
    open: &mut Vec<(usize, usize)>,
    spans: &mut Vec<FoldSpan>,
    indent: usize,
    last_line: usize,
)
    requires
        forall|i: int, j: int| 0 <= i < j < old(open)@.len() ==> old(open)@[i].0 < old(open)@[j].0,
    ensures
        final(open)@.len() <= old(open)@.len(),
        final(open)@ == old(open)@.take(final(open)@.len() as int),
        forall|i: int| 0 <= i < final(open)@.len() ==> old(open)@[i].0 < indent,
        forall|i: int| final(open)@.len() <= i < old(open)@.len() ==> old(open)@[i].0 >= indent,
        forall|s: FoldSpan|
            final(spans)@.contains(s) <==> (old(spans)@.contains(s) || (s.last_line == last_line
                && s.first_line < last_line && holds_from(
                old(open)@,
                final(open)@.len() as int,
                s.first_line as int,
            ))),
{
    let ghost o = open@;
    let ghost sp = spans@;
    while open.len() > 0 && open[open.len() - 1].0 >= indent
        invariant
            forall|i: int, j: int| 0 <= i < j < o.len() ==> o[i].0 < o[j].0,
            open@.len() <= o.len(),
            open@ == o.take(open@.len() as int),
            forall|i: int| open@.len() <= i < o.len() ==> o[i].0 >= indent,
            forall|s: FoldSpan|
                #[trigger] spans@.contains(s) <==> (sp.contains(s) || (s.last_line == last_line
                    && s.first_line < last_line && holds_from(
                    o,
                    open@.len() as int,
                    s.first_line as int,
                ))),
        decreases open@.len(),
    {
        let top = open[open.len() - 1];
        let ghost before = spans@;
        let ghost n = open@.len() - 1;
        assert(o[n] == top);
        assert forall|s: FoldSpan|
            #[trigger] before.contains(s) <==> (sp.contains(s) || (s.last_line == last_line && s.first_line
                < last_line && holds_from(o, n + 1, s.first_line as int))) by {
            assert(n + 1 == open@.len());
            assert(before.contains(s) == spans@.contains(s));
            assert(spans@.contains(s) <==> (sp.contains(s) || (s.last_line == last_line
                && s.first_line < last_line && holds_from(
                o,
                open@.len() as int,
                s.first_line as int,
            ))));
        }
        open.pop();
        assert(open@ =~= o.take(n));
        assert(open@.len() == n);
        if top.1 < last_line {
            spans.push(FoldSpan { first_line: top.1, last_line });
        }
        proof {
            assert forall|s: FoldSpan| #[trigger] spans@.contains(s) <==> (sp.contains(s) || (s.last_line
                == last_line && s.first_line < last_line && holds_from(
                o,
                n,
                s.first_line as int,
            ))) by {
                let new_one = s.last_line == last_line && s.first_line < last_line && holds_from(
                    o,
                    n,
                    s.first_line as int,
                );
                let old_one = s.last_line == last_line && s.first_line < last_line && holds_from(
                    o,
                    n + 1,
                    s.first_line as int,
                );
                if spans@.contains(s) {
                    if before.contains(s) {
                        if old_one {
                            let i = choose|i: int| n + 1 <= i < o.len() && o[i].1 == s.first_line;
                            assert(n <= i < o.len() && o[i].1 == s.first_line);
                        }
                    } else {
                        assert(top.1 < last_line);
                        assert(spans@ == before.push(FoldSpan { first_line: top.1, last_line }));
                        assert(spans@[spans@.len() - 1] == s);
                        assert(n <= n < o.len() && o[n].1 == s.first_line);
                    }
                }
                if new_one {
                    let i = choose|i: int| n <= i < o.len() && o[i].1 == s.first_line;
                    if i == n {
                        assert(top.1 < last_line);
                        assert(spans@[spans@.len() - 1] == s);
                    } else {
                        assert(old_one);
                        assert(before.contains(s));
                        let k = choose|k: int| 0 <= k < before.len() && before[k] == s;
                        assert(spans@[k] == s);
                    }
                }
                if sp.contains(s) {
                    assert(before.contains(s));
                    let k = choose|k: int| 0 <= k < before.len() && before[k] == s;
                    assert(spans@[k] == s);
                }
            }
        }
    }
    proof {
        if open@.len() > 0 {
            assert(o[open@.len() - 1] == open@[open@.len() - 1]);
        }
    }
}

/// Computes fold spans from indentation: every line that is followed by more deeply indented
/// lines can be folded together with those lines. Blank lines never end a span.
///
/// This works for anything with an indentation based structure and is used as a fallback for
/// documents without a syntax tree.
pub fn indent_spans(text: &Text, tab_width: usize) -> (spans: Vec<FoldSpan>)
    requires
        indents_computable(text@, tab_width as int),
    ensures
        spans_sorted(spans@),
        forall|s: FoldSpan| spans@.contains(s) <==> is_indent_span(text@, tab_width as int, s),
{
    let ghost s = text@;
    let ghost tw = tab_width as int;
    let mut spans: Vec<FoldSpan> = Vec::new();
    // Lines that may still be extended by following, more indented lines: `(indent, line)`.
    let mut open: Vec<(usize, usize)> = Vec::new();
    let mut last_content_line: usize = 0;
    let n = text.len_lines();
    let mut line_idx: usize = 0;
    while line_idx < n
        invariant
            n == num_lines(s),
            s == text@,
            tw == tab_width,
            indents_computable(s, tw),
            line_idx <= n,
            last_content_line == last_content_before(s, line_idx as int),
            forall|i: int, j: int| 0 <= i < j < open@.len() ==> open@[i].0 < open@[j].0,
            forall|i: int, j: int| 0 <= i < j < open@.len() ==> open@[i].1 < open@[j].1,
            forall|i: int|
                0 <= i < open@.len() ==> open@[i].1 < line_idx && content_line(s, open@[i].1 as int)
                    && open@[i].0 == indent_of(s, open@[i].1 as int, tw),
            forall|f: int|
                0 <= f < line_idx && #[trigger] content_line(s, f) ==> (stack_has(open@, f) <==> forall|
                    m: int,
                |
                    f < m < line_idx && content_line(s, m) ==> indent_of(s, m, tw) > indent_of(
                        s,
                        f,
                        tw,
                    )),
            forall|sp: FoldSpan|
                spans@.contains(sp) <==> (is_indent_span(s, tw, sp) && sp.first_line < line_idx
                    && !stack_has(open@, sp.first_line as int)),
        decreases n - line_idx,
    {
        if text.is_blank_line(line_idx) {
            proof {
                assert forall|f: int|
                    0 <= f < line_idx + 1 && #[trigger] content_line(s, f) implies (stack_has(
                        open@,
                        f,
                    ) <==> forall|m: int|
                        f < m < line_idx + 1 && content_line(s, m) ==> indent_of(s, m, tw)
                            > indent_of(s, f, tw)) by {
                    assert(f < line_idx);
                }
            }
            line_idx += 1;
            continue;
        }
        assert(content_line(s, line_idx as int));
        let indent = text.line_indent(line_idx, tab_width);
        let ghost o = open@;
        close_until(&mut open, &mut spans, indent, last_content_line);
        let ghost kept = open@.len();
        proof {
            // every popped line is closed by this line
            assert forall|i: int| kept <= i < o.len() implies closes_block(
                s,
                tw,
                o[i].1 as int,
                line_idx as int,
            ) by {
                let f = o[i].1 as int;
                assert(stack_has(o, f));
            }
        }
        open.push((indent, line_idx));
        proof {
            let ghost k = line_idx as int;
            assert forall|f: int|
                0 <= f < k + 1 && #[trigger] content_line(s, f) implies (stack_has(open@, f)
                <==> forall|m: int|
                    f < m < k + 1 && content_line(s, m) ==> indent_of(s, m, tw) > indent_of(
                        s,
                        f,
                        tw,
                    )) by {
                if f == k {
                    assert(open@[open@.len() - 1].1 == f);
                } else if stack_has(o, f) {
                    let i = choose|i: int| 0 <= i < o.len() && o[i].1 == f;
                    if i < kept {
                        assert(open@[i] == o[i]);
                        assert(indent_of(s, k, tw) > indent_of(s, f, tw));
                    } else {
                        // popped: line `k` is not more indented
                        if stack_has(open@, f) {
                            let j = choose|j: int| 0 <= j < open@.len() && open@[j].1 == f;
                            if j < kept {
                                assert(open@[j] == o[j]);
                            }
                        }
                        assert(!(forall|m: int|
                            f < m < k + 1 && content_line(s, m) ==> indent_of(s, m, tw)
                                > indent_of(s, f, tw)));
                    }
                } else {
                    if stack_has(open@, f) {
                        let j = choose|j: int| 0 <= j < open@.len() && open@[j].1 == f;
                        if j < kept {
                            assert(open@[j] == o[j]);
                        }
                    }
                }
            }
            assert forall|sp: FoldSpan|
                spans@.contains(sp) <==> (is_indent_span(s, tw, sp) && sp.first_line < k + 1
                    && !stack_has(open@, sp.first_line as int)) by {
                let f = sp.first_line as int;
                let popped = holds_from(o, kept as int, f);
                if popped {
                    let i = choose|i: int| kept <= i < o.len() && o[i].1 == f;
                    assert(closes_block(s, tw, f, k));
                    assert(stack_has(o, f));
                    if stack_has(open@, f) {
                        let j = choose|j: int| 0 <= j < open@.len() && open@[j].1 == f;
                        if j < kept {
                            assert(open@[j] == o[j]);
                        }
                    }
                    if is_indent_span(s, tw, sp) {
                        let c = choose|c: int|
                            closes_block(s, tw, f, c) && sp.last_line == last_content_before(
                                s,
                                c,
                            );
                        lemma_closes_block_unique(s, tw, f, c, k);
                    }
                    if sp.last_line == last_content_line && sp.first_line < last_content_line {
                        assert(closes_block(s, tw, f, k) && sp.last_line == last_content_before(
                            s,
                            k,
                        ));
                    }
                } else {
                    if stack_has(o, f) {
                        let i = choose|i: int| 0 <= i < o.len() && o[i].1 == f;
                        assert(i < kept);
                        assert(open@[i] == o[i]);
                    }
                    if stack_has(open@, f) && f != k {
                        let j = choose|j: int| 0 <= j < open@.len() && open@[j].1 == f;
                        assert(j < kept);
                        assert(open@[j] == o[j]);
                        assert(stack_has(o, f));
                    }
                    if f == k {
                        assert(open@[open@.len() - 1].1 == f);
                    }
                }
            }
        }
        last_content_line = line_idx;
        line_idx += 1;
    }
    let ghost o = open@;
    close_until(&mut open, &mut spans, 0, last_content_line);
    proof {
        if open@.len() > 0 {
            assert(o[0].0 < 0);
        }
        assert forall|sp: FoldSpan|
            spans@.contains(sp) <==> is_indent_span(s, tw, sp) by {
            let f = sp.first_line as int;
            if stack_has(o, f) {
                let i = choose|i: int| 0 <= i < o.len() && o[i].1 == f;
                assert(closes_block(s, tw, f, n as int));
                if is_indent_span(s, tw, sp) {
                    let c = choose|c: int|
                        closes_block(s, tw, f, c) && sp.last_line == last_content_before(s, c);
                    lemma_closes_block_unique(s, tw, f, c, n as int);
                }
            }
            if is_indent_span(s, tw, sp) {
                assert(f < num_lines(s));
            }
        }
    }
    normalize_spans(&mut spans);
    spans
}

proof fn lemma_last_content_before(s: Seq<char>, c: int, m: int)
    requires
        0 <= c,
    ensures
        last_content_before(s, c) == 0 || (content_line(s, last_content_before(s, c))
            && last_content_before(s, c) < c),
        0 <= m < c && content_line(s, m) ==> m <= last_content_before(s, c),
    decreases c,
{
    if c > 0 && !content_line(s, c - 1) {
        lemma_last_content_before(s, c - 1, m);
    }
}

proof fn lemma_closer_from(s: Seq<char>, tab_width: int, f: int, m: int)
    requires
        0 <= f < m <= num_lines(s),
        forall|k: int|
            f < k < m && #[trigger] content_line(s, k) ==> indent_of(s, k, tab_width) > indent_of(
                s,
                f,
                tab_width,
            ),
    ensures
        exists|c: int| m <= c && closes_block(s, tab_width, f, c),
    decreases num_lines(s) - m,
{
    if m == num_lines(s) || (content_line(s, m) && indent_of(s, m, tab_width) <= indent_of(
        s,
        f,
        tab_width,
    )) {
        assert(closes_block(s, tab_width, f, m));
    } else {
        lemma_closer_from(s, tab_width, f, m + 1);
    }
}

/// Blank lines never end a span: a fold span by indentation ends on a non-blank line, and
/// every non-blank line after its first is more indented than its first.
pub proof fn law_indent_span_ends_on_content(s: Seq<char>, tab_width: int, span: FoldSpan)
    requires
        is_indent_span(s, tab_width, span),
    ensures
        content_line(s, span.last_line as int),
        forall|m: int|
            span.first_line < m <= span.last_line && #[trigger] content_line(s, m) ==> indent_of(
                s,
                m,
                tab_width,
            ) > indent_of(s, span.first_line as int, tab_width),
{
    let c = choose|c: int|
        closes_block(s, tab_width, span.first_line as int, c) && span.last_line
            == last_content_before(s, c);
    lemma_last_content_before(s, c, 0);
}

/// Every line that is followed by more deeply indented lines can be folded together with
/// those lines: a non-blank line `f` whose block reaches the more indented line `m` heads a
/// fold span by indentation that reaches at least `m`.
pub proof fn law_indented_lines_fold(s: Seq<char>, tab_width: int, f: int, m: int)
    requires
        num_lines(s) <= usize::MAX,
        content_line(s, f),
        content_line(s, m),
        f < m,
        indent_of(s, m, tab_width) > indent_of(s, f, tab_width),
        forall|k: int|
            f < k < m && #[trigger] content_line(s, k) ==> indent_of(s, k, tab_width) > indent_of(
                s,
                f,
                tab_width,
            ),
    ensures
        exists|span: FoldSpan|
            span.first_line == f && span.last_line >= m && is_indent_span(s, tab_width, span),
{
    lemma_closer_from(s, tab_width, f, m + 1);
    let c = choose|c: int| m + 1 <= c && closes_block(s, tab_width, f, c);
    lemma_last_content_before(s, c, m);
    let last = last_content_before(s, c);
    let span = FoldSpan { first_line: f as usize, last_line: last as usize };
    assert(closes_block(s, tab_width, span.first_line as int, c) && span.last_line
        == last_content_before(s, c));
    assert(is_indent_span(s, tab_width, span));
}

// ---------------------------------------------------------------------------------------
// Fold spans from the syntax tree
// ---------------------------------------------------------------------------------------

/// A node of the syntax tree, as matched by the generic fold query of the tree's language
/// layer: its byte range in the document and whether it is a named node.
#[derive(Debug, Clone, Copy, PartialEq, Eq, Structural)]
pub struct SyntaxNode {
    pub start_byte: usize,
    pub end_byte: usize,
    pub is_named: bool,
}

/// `last` moved up over blank lines, but not above `first`.
pub open spec fn trim_blank_lines(s: Seq<char>, first: int, last: int) -> int
    decreases last - first,
{
    if last > first && line_is_blank(s, last) {
        trim_blank_lines(s, first, last - 1)
    } else {
        last
    }
}

/// The span of a named node that covers more than one line: from the line of its start to
/// the line of its end, where a node that ends right after a line break does not cover the
/// next line, and trailing blank lines stay visible.
pub open spec fn node_span(s: Seq<char>, node: SyntaxNode) -> Option<FoldSpan> {
    if !node.is_named {
        None
    } else {
        let start = char_of_byte(s, node.start_byte as int);
        let end = char_of_byte(s, node.end_byte as int);
        let first = line_of(s, start);
        let end_line = line_of(s, end);
        let last = if end > start && end == line_start(s, end_line) {
            end_line - 1
        } else {
            end_line
        };
        let last = trim_blank_lines(s, first, last);
        if first < last {
            Some(FoldSpan { first_line: first as usize, last_line: last as usize })
        } else {
            None
        }
    }
}

/// Moving `last` up over blank lines stops at `first` or on a line that is not blank.
proof fn lemma_trim_blank_lines(s: Seq<char>, first: int, last: int)
    requires
        first <= last,
    ensures
        first <= trim_blank_lines(s, first, last) <= last,
        trim_blank_lines(s, first, last) == first || !line_is_blank(
            s,
            trim_blank_lines(s, first, last),
        ),
        forall|l: int|
            trim_blank_lines(s, first, last) < l <= last ==> #[trigger] line_is_blank(s, l),
    decreases last - first,
{
    if last > first && line_is_blank(s, last) {
        lemma_trim_blank_lines(s, first, last - 1);
    }
}

/// The lines that begin before the char `e`: all lines before the line of `e`, and that line
/// too unless `e` is its first char.
proof fn lemma_lines_before(s: Seq<char>, e: int, l: int)
    requires
        0 <= e <= s.len(),
        0 <= l < num_lines(s),
    ensures
        line_start(s, l) < e <==> (l < line_of(s, e) || (l == line_of(s, e) && line_start(
            s,
            l,
        ) != e)),
{
    lemma_line_of(s, e);
    let el = line_of(s, e);
    if l < el {
        lemma_line_start_mono(s, l, el);
    } else if l > el {
        lemma_line_start_mono(s, el + 1, l);
    }
}

/// The span of a named node runs from the line of its start to the last line that begins
/// before its end and is not blank: the line after a node that ends right after a line break
/// is never part of it, and blank lines at its end are left out. A node gets a span exactly
/// when such a line comes after the line of its start.
pub proof fn law_node_span_lines(s: Seq<char>, node: SyntaxNode)
    requires
        num_lines(s) <= usize::MAX,
    ensures
        ({
            let start = char_of_byte(s, node.start_byte as int);
            let end = char_of_byte(s, node.end_byte as int);
            let first = line_of(s, start);
            match node_span(s, node) {
                Some(sp) => {
                    &&& node.is_named
                    &&& sp.first_line == first
                    &&& first < sp.last_line < num_lines(s)
                    &&& line_start(s, sp.last_line as int) < end
                    &&& !line_is_blank(s, sp.last_line as int)
                    &&& forall|l: int|
                        sp.last_line < l < num_lines(s) && line_start(s, l) < end
                            ==> #[trigger] line_is_blank(s, l)
                },
                None => !node.is_named || forall|l: int|
                    first < l < num_lines(s) && line_start(s, l) < end ==> #[trigger] line_is_blank(
                        s,
                        l,
                    ),
            }
        }),
{
    let start = char_of_byte(s, node.start_byte as int);
    let end = char_of_byte(s, node.end_byte as int);
    crate::text::lemma_char_of_byte_bounds(s, 0, node.start_byte as int);
    crate::text::lemma_char_of_byte_bounds(s, 0, node.end_byte as int);
    lemma_line_of(s, start);
    lemma_line_of(s, end);
    let first = line_of(s, start);
    let end_line = line_of(s, end);
    let last0 = if end > start && end == line_start(s, end_line) {
        end_line - 1
    } else {
        end_line
    };
    if node.is_named {
        if end <= start {
            crate::text::lemma_line_of_mono(s, end, start);
        }
        if first <= last0 {
            lemma_trim_blank_lines(s, first, last0);
        }
        assert forall|l: int| first < l < num_lines(s) && line_start(s, l) < end implies l
            <= last0 by {
            lemma_lines_before(s, end, l);
            if end <= start {
                lemma_line_start_mono(s, first + 1, l);
            }
        }
        let last = trim_blank_lines(s, first, last0);
        if first < last {
            assert(0 <= last0 < num_lines(s));
            lemma_lines_before(s, end, last);
            if end == line_start(s, end_line) && last == end_line && end <= start {
                crate::text::lemma_line_of_mono(s, end, start);
            }
            let sp = FoldSpan { first_line: first as usize, last_line: last as usize };
            assert(node_span(s, node) == Some(sp));
            assert(line_start(s, last) < end);
            assert forall|l: int| sp.last_line < l < num_lines(s) && line_start(s, l) < end
                implies #[trigger] line_is_blank(s, l) by {
                assert(l <= last0);
            }
        } else {
            assert(node_span(s, node) is None);
            assert forall|l: int| first < l < num_lines(s) && line_start(s, l) < end
                implies #[trigger] line_is_blank(s, l) by {
                assert(l <= last0);
            }
        }
    }
}

/// Computes fold spans from the syntax tree: every *named* node that spans more than one line is
/// foldable. `nodes` are the nodes that the generic "any node" fold query matched, in every
/// layer of the tree, so nodes of injected languages are covered too.
pub fn tree_sitter_spans(nodes: &[SyntaxNode], text: &Text) -> (spans: Vec<FoldSpan>)
    requires
        forall|i: int|
            0 <= i < nodes@.len() ==> #[trigger] nodes@[i].start_byte <= byte_len(text@)
                && nodes@[i].end_byte <= byte_len(text@),
    ensures
        spans_sorted(spans@),
        forall|sp: FoldSpan|
            #[trigger] spans@.contains(sp) <==> exists|i: int|
                0 <= i < nodes@.len() && node_span(text@, #[trigger] nodes@[i]) == Some(sp),
{
    let ghost s = text@;
    let n_lines = text.len_lines();
    let mut spans: Vec<FoldSpan> = Vec::new();
    let mut i: usize = 0;
    while i < nodes.len()
        invariant
            s == text@,
            n_lines == num_lines(s),
            i <= nodes@.len(),
            forall|sp: FoldSpan|
                #[trigger] spans@.contains(sp) <==> exists|j: int|
                    0 <= j < i && node_span(s, #[trigger] nodes@[j]) == Some(sp),
        decreases nodes@.len() - i,
    {
        let node = nodes[i];
        let ghost before = spans@;
        if node.is_named {
            let start = text.byte_to_char(node.start_byte);
            let end = text.byte_to_char(node.end_byte);
            let first_line = text.char_to_line(start);
            let mut last_line = text.char_to_line(end);
            proof {
                lemma_line_of(s, start as int);
                lemma_line_of(s, end as int);
            }
            // Nodes frequently end right after their trailing line break, i.e. at the very start
            // of the next line. That line is not part of the node.
            if end > start && end == text.line_to_char(last_line) {
                proof {
                    if last_line == 0 {
                        lemma_line_start_mono(s, 0, 0);
                        assert(line_start(s, 0) == 0) by {
                            crate::text::lemma_starts_upto(s, s.len() as int);
                        }
                    }
                }
                last_line -= 1;
            }
            let ghost l1 = last_line as int;
            // Keep trailing blank lines visible so that folded siblings stay visually separated.
            while last_line > first_line && text.is_blank_line(last_line)
                invariant
                    s == text@,
                    n_lines == num_lines(s),
                    last_line < n_lines,
                    trim_blank_lines(s, first_line as int, last_line as int) == trim_blank_lines(
                        s,
                        first_line as int,
                        l1,
                    ),
                decreases last_line,
            {
                last_line -= 1;
            }
            if first_line < last_line {
                spans.push(FoldSpan { first_line, last_line });
            }
        }
        proof {
            assert forall|sp: FoldSpan| #[trigger] spans@.contains(sp) <==> exists|j: int|
                0 <= j < i + 1 && node_span(s, #[trigger] nodes@[j]) == Some(sp) by {
                if spans@.contains(sp) && !before.contains(sp) {
                    assert(spans@[spans@.len() - 1] == sp);
                    assert(node_span(s, nodes@[i as int]) == Some(sp));
                }
                if exists|j: int| 0 <= j < i + 1 && node_span(s, #[trigger] nodes@[j]) == Some(sp) {
                    let j = choose|j: int|
                        0 <= j < i + 1 && node_span(s, #[trigger] nodes@[j]) == Some(sp);
                    if j == i {
                        assert(spans@[spans@.len() - 1] == sp);
                    } else {
                        assert(before.contains(sp));
                        let k = choose|k: int| 0 <= k < before.len() && before[k] == sp;
                        assert(spans@[k] == sp);
                    }
                }
                if before.contains(sp) {
                    let k = choose|k: int| 0 <= k < before.len() && before[k] == sp;
                    assert(spans@[k] == sp);
                }
            }
        }
        i += 1;
    }
    normalize_spans(&mut spans);
    spans
}

/// The spans of `spans` that contain `line`, in order.
pub open spec fn spans_with_line(spans: Seq<FoldSpan>, line: int) -> Seq<FoldSpan>
    decreases spans.len(),
{
    if spans.len() == 0 {
        seq![]
    } else {
        let prev = spans_with_line(spans.drop_last(), line);
        if spans.last().first_line <= line <= spans.last().last_line {
            prev.push(spans.last())
        } else {
            prev
        }
    }
}

proof fn lemma_spans_with_line_tail(spans: Seq<FoldSpan>, line: int, k: int)
    requires
        0 <= k <= spans.len(),
        forall|i: int| k <= i < spans.len() ==> #[trigger] spans[i].first_line > line,
    ensures
        spans_with_line(spans, line) == spans_with_line(spans.take(k), line),
    decreases spans.len() - k,
{
    if k < spans.len() {
        let d = spans.drop_last();
        assert forall|i: int| k <= i < d.len() implies #[trigger] d[i].first_line > line by {
            assert(d[i] == spans[i]);
        }
        lemma_spans_with_line_tail(d, line, k);
        assert(d.take(k) =~= spans.take(k));
    } else {
        assert(spans.take(k) =~= spans);
    }
}

/// Returns the spans that contain `line`, outermost first. The spans are expected to be sorted
/// by `first_line`: the search stops at the first span that starts after `line`.
pub fn spans_containing_line(spans: &[FoldSpan], line: usize) -> (found: Vec<FoldSpan>)
    ensures
        exists|k: int| 0 <= k <= spans@.len() && found@ == spans_with_line(spans@.take(k), line as int),
        (forall|i: int, j: int|
            0 <= i < j < spans@.len() ==> #[trigger] spans@[i].first_line
                <= #[trigger] spans@[j].first_line) ==> found@ == spans_with_line(
            spans@,
            line as int,
        ),
{
    let ghost sorted = forall|i: int, j: int|
        0 <= i < j < spans@.len() ==> #[trigger] spans@[i].first_line
            <= #[trigger] spans@[j].first_line;
    // Spans are sorted by `first_line` so nothing after this point can contain `line`.
    let mut lo: usize = 0;
    let mut hi: usize = spans.len();
    while lo < hi
        invariant
            lo <= hi <= spans@.len(),
            sorted == (forall|i: int, j: int|
                0 <= i < j < spans@.len() ==> #[trigger] spans@[i].first_line
                    <= #[trigger] spans@[j].first_line),
            sorted ==> forall|i: int| 0 <= i < lo ==> #[trigger] spans@[i].first_line <= line,
            sorted ==> forall|i: int| hi <= i < spans@.len() ==> #[trigger] spans@[i].first_line
                > line,
        decreases hi - lo,
    {
        let mid = lo + (hi - lo) / 2;
        if spans[mid].first_line <= line {
            lo = mid + 1;
        } else {
            hi = mid;
        }
    }
    let end = lo;
    let mut found: Vec<FoldSpan> = Vec::new();
    let mut i: usize = 0;
    while i < end
        invariant
            end <= spans@.len(),
            i <= end,
            found@ == spans_with_line(spans@.take(i as int), line as int),
        decreases end - i,
    {
        assert(spans@.take(i + 1).drop_last() =~= spans@.take(i as int));
        assert(spans@.take(i + 1).last() == spans@[i as int]);
        if spans[i].contains_line(line) {
            found.push(spans[i]);
        }
        i += 1;
    }
    proof {
        if sorted {
            lemma_spans_with_line_tail(spans@, line as int, end as int);
        }
    }
    found
}

} // verus!
