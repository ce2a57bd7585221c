//! Which closed folds are rendered, for folds that belong to their text.
use vstd::prelude::*;
use crate::fold::laws::{folds_match_text, law_folded_sorted_by_header, lemma_normalized_matches};
use crate::fold::model::{
    fold_matches_text, fold_wf, folds_wf, has_span, key_lt, lemma_outermost, outer_from,
    outermost, FoldState,
};
use crate::text::{
    lemma_line_end, lemma_line_end_before_next, lemma_line_start_mono, line_end, line_start,
    num_lines,
};

verus! {

/// No two spans of `c` partly overlap: any two are nested or have no line in common, as the
/// spans found from indentation or from a syntax tree are.
pub open spec fn spans_laminar(c: Seq<FoldState>) -> bool {
    forall|i: int, j: int|
        0 <= i < c.len() && 0 <= j < c.len() ==> {
            ||| (#[trigger] c[i]).last_line < (#[trigger] c[j]).header_line
            ||| c[j].last_line < c[i].header_line
            ||| (c[i].header_line <= c[j].header_line && c[j].last_line <= c[i].last_line)
            ||| (c[j].header_line <= c[i].header_line && c[i].last_line <= c[j].last_line)
        }
}

/// Another closed fold of `c` holds the lines `header_line..=last_line`.
pub open spec fn span_nested(c: Seq<FoldState>, header_line: int, last_line: int) -> bool {
    exists|j: int|
        0 <= j < c.len() && #[trigger] c[j].header_line <= header_line && last_line
            <= c[j].last_line && !(c[j].header_line == header_line && c[j].last_line == last_line)
}

/// The furthest end of the folds before index `k`, or 0.
spec fn max_end_before(c: Seq<FoldState>, k: int) -> int
    decreases k,
{
    if k <= 0 {
        0
    } else {
        let m = max_end_before(c, k - 1);
        if c[k - 1].end > m {
            c[k - 1].end
        } else {
            m
        }
    }
}

proof fn lemma_max_end_before(c: Seq<FoldState>, k: int)
    requires
        0 <= k <= c.len(),
    ensures
        max_end_before(c, k) >= 0,
        forall|j: int| 0 <= j < k ==> #[trigger] c[j].end <= max_end_before(c, k),
        max_end_before(c, k) == 0 || exists|j: int|
            0 <= j < k && #[trigger] c[j].end == max_end_before(c, k),
    decreases k,
{
    if k > 0 {
        lemma_max_end_before(c, k - 1);
        if max_end_before(c, k - 1) != 0 && c[k - 1].end <= max_end_before(c, k - 1) {
            let j = choose|j: int| 0 <= j < k - 1 && #[trigger] c[j].end == max_end_before(c, k - 1);
            assert(c[j].end == max_end_before(c, k));
        }
        if c[k - 1].end > max_end_before(c, k - 1) {
            assert(c[k - 1].end == max_end_before(c, k));
        }
    }
}

/// A fold that belongs to the text runs from the start of its header line, through the end of
/// that line (which has a line break), to the start of the line after its last line.
proof fn lemma_matching_lines(s: Seq<char>, f: FoldState)
    requires
        fold_wf(f),
        fold_matches_text(s, f),
    ensures
        0 <= f.header_line < f.last_line < num_lines(s),
        f.header_start == line_start(s, f.header_line),
        f.start == line_end(s, f.header_line),
        f.end == line_start(s, f.last_line + 1),
        f.header_start <= f.start < line_start(s, f.header_line + 1),
{
    lemma_normalized_matches(s, f.header_start, f.end);
    lemma_line_end(s, f.header_line);
    lemma_line_end_before_next(s, f.header_line);
}

/// Whether a fold ends before another starts is decided by their lines.
proof fn lemma_end_before(s: Seq<char>, f: FoldState, g: FoldState)
    requires
        fold_wf(f),
        fold_matches_text(s, f),
        fold_wf(g),
        fold_matches_text(s, g),
    ensures
        f.last_line < g.header_line ==> f.end <= g.header_start,
        f.last_line >= g.header_line ==> f.end > g.start,
        f.last_line <= g.last_line ==> f.end <= g.end,
{
    lemma_matching_lines(s, f);
    lemma_matching_lines(s, g);
    if f.last_line < g.header_line {
        lemma_line_start_mono(s, f.last_line + 1, g.header_line);
    } else {
        lemma_line_start_mono(s, g.header_line + 1, f.last_line + 1);
    }
    if f.last_line <= g.last_line {
        lemma_line_start_mono(s, f.last_line + 1, g.last_line + 1);
    }
}

/// Closed folds that belong to the text are sorted by header line, and by last line from the
/// last down among those with the same header line.
proof fn lemma_line_order(s: Seq<char>, c: Seq<FoldState>)
    requires
        folds_wf(c),
        folds_match_text(s, c),
    ensures
        forall|j: int, k: int|
            0 <= j < k < c.len() ==> (#[trigger] c[j]).header_line < (#[trigger] c[k]).header_line
                || (c[j].header_line == c[k].header_line && c[j].last_line > c[k].last_line),
{
    crate::fold::laws::lemma_matching_strictly_sorted(s, c);
    assert forall|j: int, k: int| 0 <= j < k < c.len() implies (#[trigger] c[j]).header_line
        < (#[trigger] c[k]).header_line || (c[j].header_line == c[k].header_line
        && c[j].last_line > c[k].last_line) by {
        let f = c[j];
        let g = c[k];
        assert(key_lt(f, g));
        assert(fold_wf(f) && fold_matches_text(s, f) && fold_wf(g) && fold_matches_text(s, g));
        lemma_matching_lines(s, f);
        lemma_matching_lines(s, g);
        if g.header_line <= f.header_line {
            lemma_line_start_mono(s, g.header_line, f.header_line);
        }
        if f.header_line == g.header_line && f.last_line <= g.last_line {
            lemma_line_start_mono(s, f.last_line + 1, g.last_line + 1);
        }
    }
}

/// A closed fold starts at or after the end of every fold before it exactly when no other
/// closed fold holds its lines.
proof fn lemma_top_level(s: Seq<char>, c: Seq<FoldState>, k: int)
    requires
        folds_wf(c),
        folds_match_text(s, c),
        spans_laminar(c),
        0 <= k < c.len(),
    ensures
        (c[k].start >= max_end_before(c, k)) == !span_nested(c, c[k].header_line, c[k].last_line),
{
    lemma_line_order(s, c);
    lemma_max_end_before(c, k);
    let g = c[k];
    assert(fold_wf(g) && fold_matches_text(s, g));
    lemma_matching_lines(s, g);
    if span_nested(c, g.header_line, g.last_line) {
        let j = choose|j: int|
            0 <= j < c.len() && #[trigger] c[j].header_line <= g.header_line && g.last_line
                <= c[j].last_line && !(c[j].header_line == g.header_line && c[j].last_line
                == g.last_line);
        if j < k {
            assert(fold_wf(c[j]) && fold_matches_text(s, c[j]));
            lemma_end_before(s, g, c[j]);
            assert(c[j].end <= max_end_before(c, k));
        } else if j > k {
            assert(c[k].header_line < c[j].header_line || (c[k].header_line == c[j].header_line
                && c[k].last_line > c[j].last_line));
        }
    } else {
        assert forall|j: int| 0 <= j < k implies #[trigger] c[j].end <= g.start by {
            let f = c[j];
            assert(fold_wf(f) && fold_matches_text(s, f));
            lemma_end_before(s, f, g);
            assert(c[j].header_line < c[k].header_line || (c[j].header_line == c[k].header_line
                && c[j].last_line > c[k].last_line));
            assert(spans_laminar(c) ==> ({
                ||| c[j].last_line < c[k].header_line
                ||| c[k].last_line < c[j].header_line
                ||| (c[j].header_line <= c[k].header_line && c[k].last_line <= c[j].last_line)
                ||| (c[k].header_line <= c[j].header_line && c[j].last_line <= c[k].last_line)
            }));
            if f.last_line >= g.header_line {
                // then `f` would hold the lines of `g`
                assert(c[j].header_line <= g.header_line && g.last_line <= c[j].last_line);
                assert(span_nested(c, g.header_line, g.last_line));
            }
        }
        if max_end_before(c, k) != 0 {
            let j = choose|j: int| 0 <= j < k && #[trigger] c[j].end == max_end_before(c, k);
        }
    }
}

/// A fold that starts before the furthest end of the folds before it is nested in one of them,
/// so it ends no later than that.
proof fn lemma_skipped_ends_earlier(s: Seq<char>, c: Seq<FoldState>, i: int)
    requires
        folds_wf(c),
        folds_match_text(s, c),
        spans_laminar(c),
        0 <= i < c.len(),
        c[i].start < max_end_before(c, i),
    ensures
        c[i].end <= max_end_before(c, i),
{
    let m = max_end_before(c, i);
    lemma_max_end_before(c, i);
    let j = choose|j: int| 0 <= j < i && #[trigger] c[j].end == m;
    lemma_line_order(s, c);
    assert(fold_wf(c[j]) && fold_matches_text(s, c[j]));
    assert(fold_wf(c[i]) && fold_matches_text(s, c[i]));
    lemma_end_before(s, c[j], c[i]);
    assert(c[j].header_line < c[i].header_line || (c[j].header_line == c[i].header_line
        && c[j].last_line > c[i].last_line));
    assert(spans_laminar(c) ==> ({
        ||| c[j].last_line < c[i].header_line
        ||| c[i].last_line < c[j].header_line
        ||| (c[j].header_line <= c[i].header_line && c[i].last_line <= c[j].last_line)
        ||| (c[i].header_line <= c[j].header_line && c[j].last_line <= c[i].last_line)
    }));
    lemma_end_before(s, c[i], c[j]);
}

/// The furthest end before the next fold is the end of this fold when it is taken, and does
/// not change when it is passed over.
spec fn max_end_steps(c: Seq<FoldState>) -> bool {
    forall|k: int|
        0 <= k < c.len() ==> {
            &&& (#[trigger] c[k]).start >= max_end_before(c, k) ==> max_end_before(c, k + 1)
                == c[k].end
            &&& c[k].start < max_end_before(c, k) ==> max_end_before(c, k + 1) == max_end_before(
                c,
                k,
            )
        }
}

/// The folds taken from index `i` on, from the furthest end before `i`, are the folds at or
/// after `i` that start at or after the furthest end before them.
proof fn lemma_outer_from_max(c: Seq<FoldState>, i: int)
    requires
        max_end_steps(c),
        0 <= i <= c.len(),
    ensures
        forall|x: FoldState|
            #[trigger] outer_from(c, i, max_end_before(c, i)).contains(x) <==> exists|k: int|
                i <= k < c.len() && #[trigger] c[k] == x && c[k].start >= max_end_before(c, k),
    decreases c.len() - i,
{
    let m = max_end_before(c, i);
    let r = outer_from(c, i, m);
    if i == c.len() {
        assert(r =~= Seq::<FoldState>::empty());
    } else {
        lemma_outer_from_max(c, i + 1);
        let rest = outer_from(c, i + 1, max_end_before(c, i + 1));
        assert(c[i] == c[i]);
        if c[i].start >= m {
            assert(r == seq![c[i]] + rest);
            assert forall|x: FoldState| #[trigger] r.contains(x) <==> exists|k: int|
                i <= k < c.len() && #[trigger] c[k] == x && c[k].start >= max_end_before(c, k) by {
                if r.contains(x) {
                    let a = choose|a: int| 0 <= a < r.len() && r[a] == x;
                    if a > 0 {
                        assert(rest[a - 1] == x);
                        assert(rest.contains(x));
                    }
                }
                if exists|k: int|
                    i <= k < c.len() && #[trigger] c[k] == x && c[k].start >= max_end_before(c, k) {
                    let k = choose|k: int|
                        i <= k < c.len() && #[trigger] c[k] == x && c[k].start >= max_end_before(
                            c,
                            k,
                        );
                    if k == i {
                        assert(r[0] == x);
                    } else {
                        assert(rest.contains(x));
                        let a = choose|a: int| 0 <= a < rest.len() && rest[a] == x;
                        assert(r[a + 1] == x);
                    }
                }
            }
        } else {
            assert(r == rest);
            assert forall|x: FoldState| #[trigger] r.contains(x) <==> exists|k: int|
                i <= k < c.len() && #[trigger] c[k] == x && c[k].start >= max_end_before(c, k) by {
                if exists|k: int|
                    i <= k < c.len() && #[trigger] c[k] == x && c[k].start >= max_end_before(c, k) {
                    let k = choose|k: int|
                        i <= k < c.len() && #[trigger] c[k] == x && c[k].start >= max_end_before(
                            c,
                            k,
                        );
                    assert(k != i);
                }
            }
        }
    }
}

/// For folds that belong to the text and never partly overlap, taking a fold or passing over
/// it moves the furthest end as `max_end_steps` says.
proof fn lemma_max_end_steps(s: Seq<char>, c: Seq<FoldState>)
    requires
        folds_wf(c),
        folds_match_text(s, c),
        spans_laminar(c),
    ensures
        max_end_steps(c),
{
    assert forall|k: int| 0 <= k < c.len() implies {
        &&& (#[trigger] c[k]).start >= max_end_before(c, k) ==> max_end_before(c, k + 1)
            == c[k].end
        &&& c[k].start < max_end_before(c, k) ==> max_end_before(c, k + 1) == max_end_before(
            c,
            k,
        )
    } by {
        assert(fold_wf(c[k]));
        if c[k].start < max_end_before(c, k) {
            lemma_skipped_ends_earlier(s, c, k);
        }
    }
}

/// For closed folds that belong to the text and whose spans never partly overlap, the
/// rendered folds are exactly the closed folds that are not nested in another closed fold.
pub proof fn law_rendered_are_outermost(s: Seq<char>, c: Seq<FoldState>)
    requires
        folds_wf(c),
        folds_match_text(s, c),
        spans_laminar(c),
    ensures
        forall|h: int, l: int|
            #[trigger] has_span(outermost(c), h, l) <==> (has_span(c, h, l) && !span_nested(
                c,
                h,
                l,
            )),
{
    lemma_max_end_steps(s, c);
    lemma_outer_from_max(c, 0);
    let fs = outermost(c);
    assert(max_end_before(c, 0) == 0);
    assert forall|h: int, l: int| #[trigger] has_span(fs, h, l) <==> (has_span(c, h, l)
        && !span_nested(c, h, l)) by {
        if has_span(fs, h, l) {
            let a = choose|a: int|
                0 <= a < fs.len() && #[trigger] fs[a].header_line == h && fs[a].last_line == l;
            assert(fs.contains(fs[a]));
            let k = choose|k: int|
                0 <= k < c.len() && #[trigger] c[k] == fs[a] && c[k].start >= max_end_before(c, k);
            lemma_top_level(s, c, k);
            assert(c[k].header_line == h);
        }
        if has_span(c, h, l) && !span_nested(c, h, l) {
            let k = choose|k: int|
                0 <= k < c.len() && #[trigger] c[k].header_line == h && c[k].last_line == l;
            lemma_top_level(s, c, k);
            assert(fs.contains(c[k]));
            let a = choose|a: int| 0 <= a < fs.len() && fs[a] == c[k];
            assert(fs[a].header_line == h);
        }
    }
}

/// The rendered folds of closed folds that belong to the text each hide the lines after
/// their header line up to their last line, are closed, and there are some exactly when
/// some fold is closed.
pub proof fn law_rendered_folds_shape(s: Seq<char>, c: Seq<FoldState>)
    requires
        folds_wf(c),
        folds_match_text(s, c),
    ensures
        forall|i: int|
            0 <= i < outermost(c).len() ==> {
                let f = #[trigger] outermost(c)[i];
                &&& 0 <= f.header_line < f.last_line < num_lines(s)
                &&& f.header_start == line_start(s, f.header_line)
                &&& f.start == line_end(s, f.header_line)
                &&& f.end == line_start(s, f.last_line + 1)
                &&& has_span(c, f.header_line, f.last_line)
            },
        (outermost(c).len() == 0) == (c.len() == 0),
{
    let fs = outermost(c);
    lemma_outermost(c);
    law_folded_sorted_by_header(s, c);
    assert forall|i: int| 0 <= i < fs.len() implies {
        let f = #[trigger] fs[i];
        &&& 0 <= f.header_line < f.last_line < num_lines(s)
        &&& f.header_start == line_start(s, f.header_line)
        &&& f.start == line_end(s, f.header_line)
        &&& f.end == line_start(s, f.last_line + 1)
        &&& has_span(c, f.header_line, f.last_line)
    } by {
        assert(fs.contains(fs[i]));
        let k = choose|k: int| 0 <= k < c.len() && c[k] == fs[i];
        assert(fold_wf(c[k]) && fold_matches_text(s, c[k]));
        lemma_matching_lines(s, c[k]);
    }
    if c.len() > 0 {
        assert(fold_wf(c[0]));
        assert(fs == seq![c[0]] + outer_from(c, 1, c[0].end));
    }
}

} // verus!
