//! Searching for characters.
use vstd::prelude::*;
use crate::fold::model::{disjoint_sorted, hides, hiding_fold, outermost, FoldState};
use crate::fold::Folds;
use crate::text::Text;

verus! {

/// Something that tells the characters looked for.
pub trait CharMatcher {
    /// Whether the matcher can be asked about `ch` and always gives the same answer.
    spec fn accepts(&self, ch: char) -> bool;

    /// Whether `ch` is looked for.
    spec fn matches(&self, ch: char) -> bool;

    fn char_match(&self, ch: char) -> (r: bool)
        requires
            self.accepts(ch),
        ensures
            r == self.matches(ch),
    ;
}

impl CharMatcher for char {
    open spec fn accepts(&self, ch: char) -> bool {
        true
    }

    open spec fn matches(&self, ch: char) -> bool {
        *self == ch
    }

    fn char_match(&self, ch: char) -> (r: bool) {
        *self == ch
    }
}

/// A predicate on chars looks for the chars it holds of.
impl<F: Fn(&char) -> bool> CharMatcher for F {
    open spec fn accepts(&self, ch: char) -> bool {
        &&& call_requires(*self, (&ch,))
        &&& forall|r1: bool, r2: bool|
            call_ensures(*self, (&ch,), r1) && call_ensures(*self, (&ch,), r2) ==> r1 == r2
    }

    open spec fn matches(&self, ch: char) -> bool {
        call_ensures(*self, (&ch,), true)
    }

    fn char_match(&self, ch: char) -> (r: bool) {
        (*self)(&ch)
    }
}

/// A char looks for itself and for no other char, and can be asked about every char.
pub proof fn law_char_matches_only_itself(c: char, ch: char)
    ensures
        c.accepts(ch),
        c.matches(ch) <==> ch == c,
{
}

/// Searching for a char finds exactly the visible positions that hold that char.
pub proof fn law_char_search_finds_the_char(s: Seq<char>, folded: Seq<FoldState>, c: char, q: int)
    ensures
        forward_match(s, folded, c, q) <==> (0 <= q < s.len() && hiding_fold(folded, q) is None
            && s[q] == c),
        backward_match(s, folded, c, q) <==> (0 <= q < s.len() && hiding_fold(folded, q) is None
            && s[q] == c),
{
}

/// A predicate on chars that can be called on `ch` and always gives the same answer there
/// can be asked about `ch`.
pub proof fn lemma_predicate_accepts<F: Fn(&char) -> bool>(f: F, ch: char)
    requires
        call_requires(f, (&ch,)),
        forall|r1: bool, r2: bool|
            call_ensures(f, (&ch,), r1) && call_ensures(f, (&ch,), r2) ==> r1 == r2,
    ensures
        f.accepts(ch),
        f.matches(ch) == call_ensures(f, (&ch,), true),
{
}

/// The direction of a search.
#[derive(Debug, Clone, Copy, PartialEq, Eq, Structural)]
pub enum Direction {
    Forward,
    Backward,
}

/// A forward search considers the char at `q`: it exists, no rendered fold hides it, and it
/// is looked for.
pub open spec fn forward_match<M: CharMatcher>(
    s: Seq<char>,
    folded: Seq<FoldState>,
    m: M,
    q: int,
) -> bool {
    &&& 0 <= q < s.len()
    &&& hiding_fold(folded, q) is None
    &&& m.matches(s[q])
}

/// The number of chars in `lo..hi` that a forward search finds.
pub open spec fn forward_count<M: CharMatcher>(
    s: Seq<char>,
    folded: Seq<FoldState>,
    m: M,
    lo: int,
    hi: int,
) -> int
    decreases hi - lo,
{
    if hi <= lo {
        0
    } else {
        forward_count(s, folded, m, lo, hi - 1) + if forward_match(s, folded, m, hi - 1) {
            1int
        } else {
            0
        }
    }
}

/// A forward search that reaches `q` stops there: the char after it is hidden by a fold that
/// ends after the text.
pub open spec fn forward_blocked(s: Seq<char>, folded: Seq<FoldState>, q: int) -> bool {
    hiding_fold(folded, q + 1) matches Some(f) && f.end > s.len()
}

/// A backward search finds the char at `q`.
pub open spec fn backward_match<M: CharMatcher>(
    s: Seq<char>,
    folded: Seq<FoldState>,
    m: M,
    q: int,
) -> bool {
    &&& 0 <= q < s.len()
    &&& hiding_fold(folded, q) is None
    &&& m.matches(s[q])
}

/// The number of chars in `lo..hi` that a backward search finds.
pub open spec fn backward_count<M: CharMatcher>(
    s: Seq<char>,
    folded: Seq<FoldState>,
    m: M,
    lo: int,
    hi: int,
) -> int
    decreases hi - lo,
{
    if hi <= lo {
        0
    } else {
        (if backward_match(s, folded, m, lo) {
            1int
        } else {
            0
        }) + backward_count(s, folded, m, lo + 1, hi)
    }
}

proof fn lemma_forward_count_hidden<M: CharMatcher>(
    s: Seq<char>,
    folded: Seq<FoldState>,
    m: M,
    lo: int,
    mid: int,
    hi: int,
)
    requires
        lo <= mid <= hi,
        forall|x: int| mid <= x < hi ==> hiding_fold(folded, x) is Some,
    ensures
        forward_count(s, folded, m, lo, hi) == forward_count(s, folded, m, lo, mid),
    decreases hi - mid,
{
    if hi > mid {
        lemma_forward_count_hidden(s, folded, m, lo, mid, hi - 1);
    }
}

proof fn lemma_forward_count_mono<M: CharMatcher>(
    s: Seq<char>,
    folded: Seq<FoldState>,
    m: M,
    lo: int,
    a: int,
    b: int,
)
    requires
        lo <= a <= b,
    ensures
        forward_count(s, folded, m, lo, a) <= forward_count(s, folded, m, lo, b),
    decreases b - a,
{
    if b > a {
        lemma_forward_count_mono(s, folded, m, lo, a, b - 1);
    }
}

proof fn lemma_backward_count_skipped<M: CharMatcher>(
    s: Seq<char>,
    folded: Seq<FoldState>,
    m: M,
    lo: int,
    mid: int,
    hi: int,
)
    requires
        lo <= mid <= hi,
        forall|x: int| lo <= x < mid ==> hiding_fold(folded, x) is Some,
    ensures
        backward_count(s, folded, m, lo, hi) == backward_count(s, folded, m, mid, hi),
    decreases mid - lo,
{
    if lo < mid {
        lemma_backward_count_skipped(s, folded, m, lo + 1, mid, hi);
    }
}

/// A fold that hides a char is one of the folds.
proof fn lemma_hiding_fold(folded: Seq<FoldState>, x: int)
    ensures
        hiding_fold(folded, x) matches Some(f) ==> hides(f, x) && folded.contains(f),
        hiding_fold(folded, x) is None ==> forall|i: int|
            0 <= i < folded.len() ==> !hides(#[trigger] folded[i], x),
{
    if exists|i: int| 0 <= i < folded.len() && hides(#[trigger] folded[i], x) {
        let i = choose|i: int| 0 <= i < folded.len() && hides(#[trigger] folded[i], x);
        assert(folded.contains(folded[i]));
    }
}

/// Finds the position of the `n`th matching character in the given direction, starting from
/// the gap before the char at `pos`.
///
/// The hidden text of a closed fold does not participate in the search: it is skipped over as
/// if it were not there, rather than counting any matches it may contain, and `n` is
/// unaffected by it. In both directions the line ending of a fold's header is visible and is
/// searched like any other char.
///
/// The matcher must answer for every char, and always the same way, as a `char` does and as a
/// predicate does that `lemma_predicate_accepts` applies to.
pub fn find_nth_char<M: CharMatcher>(
    n: usize,
    text: &Text,
    char_matcher: M,
    pos: usize,
    direction: Direction,
    folds: &Folds,
) -> (found: Option<usize>)
    requires
        forall|ch: char| #[trigger] char_matcher.accepts(ch),
    ensures
        n == 0 || pos > text@.len() ==> found is None,
        direction == Direction::Forward ==> (found matches Some(q) ==> {
            &&& pos <= q
            &&& forward_match(text@, outermost(folds@), char_matcher, q as int)
            &&& forward_count(text@, outermost(folds@), char_matcher, pos as int, q as int) == n
                - 1
            &&& !forward_blocked(text@, outermost(folds@), q as int)
        }),
        direction == Direction::Forward ==> (found is None ==> {
            ||| n == 0
            ||| pos > text@.len()
            ||| forward_count(text@, outermost(folds@), char_matcher, pos as int, text@.len() as int)
                < n
            ||| exists|q: int|
                pos <= q && forward_match(text@, outermost(folds@), char_matcher, q)
                    && forward_count(text@, outermost(folds@), char_matcher, pos as int, q) == n
                    - 1 && forward_blocked(text@, outermost(folds@), q)
        }),
        direction == Direction::Backward ==> (found matches Some(q) ==> {
            &&& q < pos <= text@.len()
            &&& backward_match(text@, outermost(folds@), char_matcher, q as int)
            &&& backward_count(text@, outermost(folds@), char_matcher, q + 1, pos as int) == n - 1
        }),
        direction == Direction::Backward ==> (found is None ==> {
            ||| n == 0
            ||| pos > text@.len()
            ||| backward_count(text@, outermost(folds@), char_matcher, 0, pos as int) < n
        }),
{
    if n == 0 {
        return None;
    }
    let len = text.len_chars();
    if pos > len {
        return None;
    }
    // the rendered folds never overlap
    let _rendered = folds.folded();
    let ghost fs = outermost(folds@);
    let ghost s = text@;
    let ghost m = char_matcher;
    let ghost pos0 = pos as int;
    let ghost n0 = n as int;
    let mut remaining = n;
    let mut cur = pos;
    match direction {
        Direction::Forward => {
            // skip the fold hiding the start
            if let Some(fold) = folds.hiding(cur) {
                proof {
                    lemma_hiding_fold(fs, cur as int);
                    assert forall|x: int| pos0 <= x < fold.end implies hiding_fold(fs, x) is Some by {
                        assert(hides(fold@, x));
                        let i = choose|i: int| 0 <= i < fs.len() && fs[i] == fold@;
                        assert(hides(fs[i], x));
                    }
                    lemma_forward_count_hidden(s, fs, m, pos0, pos0, fold.end as int);
                    if fold.end > len {
                        assert forall|x: int| pos0 <= x < len implies hiding_fold(fs, x) is Some by {}
                        lemma_forward_count_hidden(s, fs, m, pos0, pos0, len as int);
                    } else {
                        lemma_hiding_fold(fs, fold.end as int);
                        if hiding_fold(fs, fold.end as int) is Some {
                            let g = hiding_fold(fs, fold.end as int)->0;
                            let i = choose|i: int| 0 <= i < fs.len() && fs[i] == fold@;
                            let j = choose|j: int| 0 <= j < fs.len() && fs[j] == g;
                            if i < j {
                                assert(fs[i].end <= fs[j].start);
                            } else if j < i {
                                assert(fs[j].end <= fs[i].start);
                            }
                        }
                    }
                }
                if fold.end > len {
                    return None;
                }
                cur = fold.end;
            }
            loop
                invariant
                    s == text@,
                    len == s.len(),
                    fs == outermost(folds@),
                    disjoint_sorted(fs),
                    m == char_matcher,
                    forall|ch: char| #[trigger] char_matcher.accepts(ch),
                    direction == Direction::Forward,
                    pos0 == pos as int,
                    n0 == n as int,
                    pos0 <= cur <= len,
                    1 <= remaining <= n0,
                    hiding_fold(fs, cur as int) is None,
                    forward_count(s, fs, m, pos0, cur as int) == n0 - remaining,
                decreases len - cur,
            {
                if cur >= len {
                    return None;
                }
                let char_pos = cur;
                let c = text.char_at(cur);
                cur += 1;
                let ghost q = char_pos as int;
                assert(forward_count(s, fs, m, pos0, q + 1) == forward_count(s, fs, m, pos0, q) + if forward_match(s, fs, m, q) {
                    1int
                } else {
                    0
                });
                assert(forward_match(s, fs, m, q) == char_matcher.matches(c));
                if let Some(fold) = folds.hiding(cur) {
                    proof {
                        lemma_hiding_fold(fs, cur as int);
                        assert forall|x: int| q + 1 <= x < fold.end implies hiding_fold(fs, x) is Some by {
                            assert(hides(fold@, x));
                            let i = choose|i: int| 0 <= i < fs.len() && fs[i] == fold@;
                            assert(hides(fs[i], x));
                        }
                    }
                    if fold.end > len {
                        proof {
                            lemma_forward_count_hidden(s, fs, m, pos0, q + 1, len as int);
                            if char_matcher.matches(c) && remaining == 1 {
                                assert(forward_blocked(s, fs, q));
                            }
                        }
                        return None;
                    }
                    proof {
                        lemma_forward_count_hidden(s, fs, m, pos0, q + 1, fold.end as int);
                        lemma_hiding_fold(fs, fold.end as int);
                        if hiding_fold(fs, fold.end as int) is Some {
                            let g = hiding_fold(fs, fold.end as int)->0;
                            let i = choose|i: int| 0 <= i < fs.len() && fs[i] == fold@;
                            let j = choose|j: int| 0 <= j < fs.len() && fs[j] == g;
                            if i < j {
                                assert(fs[i].end <= fs[j].start);
                            } else if j < i {
                                assert(fs[j].end <= fs[i].start);
                            }
                        }
                    }
                    cur = fold.end;
                } else {
                    proof {
                        lemma_hiding_fold(fs, cur as int);
                    }
                }
                if char_matcher.char_match(c) {
                    remaining -= 1;
                    if remaining == 0 {
                        proof {
                            lemma_hiding_fold(fs, q + 1);
                        }
                        return Some(char_pos);
                    }
                }
            }
        },
        Direction::Backward => {
            loop
                invariant
                    s == text@,
                    len == s.len(),
                    fs == outermost(folds@),
                    disjoint_sorted(fs),
                    m == char_matcher,
                    forall|ch: char| #[trigger] char_matcher.accepts(ch),
                    direction == Direction::Backward,
                    pos0 == pos as int,
                    n0 == n as int,
                    cur <= pos0 <= len,
                    1 <= remaining <= n0,
                    backward_count(s, fs, m, cur as int, pos0) == n0 - remaining,
                decreases cur,
            {
                if cur == 0 {
                    return None;
                }
                let mut char_pos: usize = cur - 1;
                // the char before `cur` is hidden: the nearest visible one is the line
                // ending of the fold's header
                if let Some(fold) = folds.hiding(char_pos) {
                    proof {
                        lemma_hiding_fold(fs, char_pos as int);
                        let i = choose|i: int| 0 <= i < fs.len() && fs[i] == fold@;
                        assert forall|x: int| fold.start < x < cur implies hiding_fold(
                            fs,
                            x,
                        ) is Some by {
                            assert(hides(fs[i], x));
                        }
                        lemma_backward_count_skipped(
                            s,
                            fs,
                            m,
                            fold.start + 1,
                            cur as int,
                            pos0,
                        );
                        lemma_hiding_fold(fs, fold.start as int);
                        if hiding_fold(fs, fold.start as int) is Some {
                            let g = hiding_fold(fs, fold.start as int)->0;
                            let j = choose|j: int| 0 <= j < fs.len() && fs[j] == g;
                            if i < j {
                                assert(fs[i].end <= fs[j].start);
                            } else if j < i {
                                assert(fs[j].end <= fs[i].start);
                            }
                        }
                    }
                    char_pos = fold.start;
                }
                let c = text.char_at(char_pos);
                cur = char_pos;
                let ghost q = char_pos as int;
                assert(backward_match(s, fs, m, q) == char_matcher.matches(c));
                if char_matcher.char_match(c) {
                    remaining -= 1;
                    if remaining == 0 {
                        return Some(char_pos);
                    }
                }
            }
        },
    }
}

} // verus!
