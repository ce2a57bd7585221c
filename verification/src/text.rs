//! A document as a sequence of chars, split into lines.
//!
//! A line ends after a line break: LF, VT, FF, CR, NEL, LS or PS, where a CR that is directly
//! followed by a LF is part of one CRLF break. The text always has at least one line: the
//! one after its last line break, which is empty when the text ends with a break.
use vstd::prelude::*;

verus! {

/// The chars that end a line.
pub open spec fn is_line_break(c: char) -> bool {
    c == '\n' || c == '\r' || c == '\u{0B}' || c == '\u{0C}' || c == '\u{85}' || c == '\u{2028}'
        || c == '\u{2029}'
}

/// A new line begins at the char index `i`.
pub open spec fn starts_line_at(s: Seq<char>, i: int) -> bool {
    &&& 0 < i <= s.len()
    &&& is_line_break(s[i - 1])
    &&& !(s[i - 1] == '\r' && i < s.len() && s[i] == '\n')
}

/// The char indices up to and including `k` at which a line begins, in increasing order.
pub open spec fn line_starts_upto(s: Seq<char>, k: int) -> Seq<int>
    decreases k,
{
    if k <= 0 {
        seq![0int]
    } else if starts_line_at(s, k) {
        line_starts_upto(s, k - 1).push(k)
    } else {
        line_starts_upto(s, k - 1)
    }
}

/// The char index at which each line begins.
pub open spec fn line_starts(s: Seq<char>) -> Seq<int> {
    line_starts_upto(s, s.len() as int)
}

pub open spec fn num_lines(s: Seq<char>) -> int {
    line_starts(s).len() as int
}

/// The first char of line `l`; for `l == num_lines(s)` the length of the text.
pub open spec fn line_start(s: Seq<char>, l: int) -> int {
    if 0 <= l < num_lines(s) {
        line_starts(s)[l]
    } else {
        s.len() as int
    }
}

/// The line that holds the char index `c` (the last line for `c == s.len()`).
pub open spec fn line_of(s: Seq<char>, c: int) -> int {
    line_starts_upto(s, c).len() - 1
}

/// The chars of line `l`, its line break included.
pub open spec fn line_chars(s: Seq<char>, l: int) -> Seq<char> {
    s.subrange(line_start(s, l), line_start(s, l + 1))
}

/// The number of chars of the line break that ends `line`.
pub open spec fn line_ending_len(line: Seq<char>) -> int {
    if line.len() >= 2 && line[line.len() - 2] == '\r' && line[line.len() - 1] == '\n' {
        2
    } else if line.len() >= 1 && is_line_break(line[line.len() - 1]) {
        1
    } else {
        0
    }
}

/// The char index of the line break of line `l` (its end when it has none).
pub open spec fn line_end(s: Seq<char>, l: int) -> int {
    line_start(s, l + 1) - line_ending_len(line_chars(s, l))
}

/// The chars with the Unicode `White_Space` property.
pub open spec fn is_white_space(c: char) -> bool {
    let u = c as u32;
    (0x9 <= u <= 0xd) || u == 0x20 || u == 0x85 || u == 0xa0 || u == 0x1680 || (0x2000 <= u
        <= 0x200a) || u == 0x2028 || u == 0x2029 || u == 0x202f || u == 0x205f || u == 0x3000
}

/// Every char of line `l` is white space.
pub open spec fn line_is_blank(s: Seq<char>, l: int) -> bool {
    forall|i: int| line_start(s, l) <= i < line_start(s, l + 1) ==> is_white_space(#[trigger] s[i])
}

/// Every line break, and every char of indentation (space and tab), is white space: they all
/// have the Unicode `White_Space` property, so a line of indentation is blank.
pub proof fn law_line_breaks_are_white_space(c: char)
    ensures
        is_line_break(c) ==> is_white_space(c),
        c == ' ' || c == '\t' ==> is_white_space(c),
{
}

/// A line is blank exactly when the chars before its line ending are white space: its line
/// ending, LF, CR, CRLF or another break, never makes it non-blank.
pub proof fn law_blank_line_ignores_its_line_ending(s: Seq<char>, l: int)
    requires
        0 <= l < num_lines(s),
    ensures
        line_is_blank(s, l) <==> forall|i: int|
            line_start(s, l) <= i < line_end(s, l) ==> is_white_space(#[trigger] s[i]),
{
    lemma_line_start_mono(s, l, l + 1);
    let a = line_start(s, l);
    let b = line_start(s, l + 1);
    let ln = line_chars(s, l);
    assert(ln.len() == b - a);
    assert forall|i: int| line_end(s, l) <= i < b implies is_white_space(#[trigger] s[i]) by {
        assert(s[i] == ln[i - a]);
        assert(is_line_break(s[i]));
    }
}

/// The indentation width of `line` from its `i`-th char on, `w` columns already counted:
/// a space is one column, a tab reaches the next multiple of `tab_width`.
pub open spec fn indent_from(line: Seq<char>, i: int, w: int, tab_width: int) -> int
    decreases line.len() - i,
{
    if i < 0 || i >= line.len() {
        w
    } else if line[i] == '\t' {
        indent_from(line, i + 1, w + tab_width - w % tab_width, tab_width)
    } else if line[i] == ' ' {
        indent_from(line, i + 1, w + 1, tab_width)
    } else {
        w
    }
}

/// The indentation width of `line`.
pub open spec fn indent_width(line: Seq<char>, tab_width: int) -> int {
    indent_from(line, 0, 0, tab_width)
}

/// The leading white space of `line` (its spaces and tabs) holds a tab.
pub open spec fn has_leading_tab(line: Seq<char>) -> bool {
    exists|i: int|
        0 <= i < line.len() && line[i] == '\t' && forall|j: int|
            0 <= j < i ==> (#[trigger] line[j] == ' ' || line[j] == '\t')
}

/// The indentation of `line` can be computed: a tab needs a positive width, and the width
/// must fit in a `usize`.
pub open spec fn indent_computable(line: Seq<char>, tab_width: int) -> bool {
    &&& tab_width > 0 || !has_leading_tab(line)
    &&& indent_width(line, tab_width) <= usize::MAX
}

proof fn lemma_indent_from_grows(line: Seq<char>, i: int, w: int, tab_width: int)
    requires
        0 <= w,
        tab_width > 0 || !has_leading_tab(line),
        0 <= i,
        forall|j: int| 0 <= j < i && j < line.len() ==> (#[trigger] line[j] == ' ' || line[j] == '\t'),
    ensures
        w <= indent_from(line, i, w, tab_width),
    decreases line.len() - i,
{
    if i < line.len() {
        if line[i] == '\t' {
            assert(has_leading_tab(line));
            assert(w % tab_width < tab_width);
            lemma_indent_from_grows(line, i + 1, w + tab_width - w % tab_width, tab_width);
        } else if line[i] == ' ' {
            lemma_indent_from_grows(line, i + 1, w + 1, tab_width);
        }
    }
}

/// The chars up to `k` that begin a line are sorted, begin with 0 and are all line starts.
pub proof fn lemma_starts_upto(s: Seq<char>, k: int)
    requires
        0 <= k <= s.len(),
    ensures
        line_starts_upto(s, k).len() >= 1,
        line_starts_upto(s, k)[0] == 0,
        forall|i: int|
            0 <= i < line_starts_upto(s, k).len() ==> 0 <= #[trigger] line_starts_upto(s, k)[i]
                <= k,
        forall|i: int, j: int|
            0 <= i < j < line_starts_upto(s, k).len() ==> line_starts_upto(s, k)[i]
                < line_starts_upto(s, k)[j],
        forall|i: int|
            0 < i < line_starts_upto(s, k).len() ==> starts_line_at(
                s,
                #[trigger] line_starts_upto(s, k)[i],
            ),
    decreases k,
{
    if k > 0 {
        lemma_starts_upto(s, k - 1);
    }
}

/// The line starts up to `k` are a prefix of those up to `m`; the others lie after `k`.
pub proof fn lemma_starts_prefix(s: Seq<char>, k: int, m: int)
    requires
        0 <= k <= m <= s.len(),
    ensures
        line_starts_upto(s, k).len() <= line_starts_upto(s, m).len(),
        line_starts_upto(s, m).subrange(0, line_starts_upto(s, k).len() as int)
            == line_starts_upto(s, k),
        forall|i: int|
            line_starts_upto(s, k).len() <= i < line_starts_upto(s, m).len() ==> k
                < #[trigger] line_starts_upto(s, m)[i],
    decreases m - k,
{
    if m > k {
        lemma_starts_prefix(s, k, m - 1);
        let a = line_starts_upto(s, k);
        let b = line_starts_upto(s, m - 1);
        let c = line_starts_upto(s, m);
        if starts_line_at(s, m) {
            assert(c == b.push(m));
            assert(c.subrange(0, a.len() as int) =~= b.subrange(0, a.len() as int));
        }
    } else {
        assert(line_starts_upto(s, m).subrange(0, line_starts_upto(s, m).len() as int)
            =~= line_starts_upto(s, m));
    }
}

/// The lines are in order: line `a` begins no later than line `b`, strictly before when
/// both are lines of the text.
pub proof fn lemma_line_start_mono(s: Seq<char>, a: int, b: int)
    requires
        0 <= a <= b <= num_lines(s),
    ensures
        line_start(s, a) <= line_start(s, b),
        a < b < num_lines(s) ==> line_start(s, a) < line_start(s, b),
        0 <= line_start(s, a) <= s.len(),
        0 <= line_start(s, b) <= s.len(),
{
    lemma_starts_upto(s, s.len() as int);
}

/// `line_of` finds the line that holds a char.
pub proof fn lemma_line_of(s: Seq<char>, c: int)
    requires
        0 <= c <= s.len(),
    ensures
        0 <= line_of(s, c) < num_lines(s),
        line_start(s, line_of(s, c)) <= c,
        c < line_start(s, line_of(s, c) + 1) || c == s.len(),
{
    lemma_starts_upto(s, c);
    lemma_starts_upto(s, s.len() as int);
    lemma_starts_prefix(s, c, s.len() as int);
    let u = line_starts_upto(s, c);
    let l = u.len() - 1;
    assert(line_starts(s)[l] == u[l]);
}

/// A char between the start of line `l` and that of the next lies on line `l`.
pub proof fn lemma_line_of_in_line(s: Seq<char>, l: int, c: int)
    requires
        0 <= l < num_lines(s),
        line_start(s, l) <= c,
        c < line_start(s, l + 1) || (c == s.len() && l == num_lines(s) - 1),
    ensures
        line_of(s, c) == l,
{
    lemma_line_start_mono(s, l, l + 1);
    lemma_line_of(s, c);
    let k = line_of(s, c);
    if k < l {
        lemma_line_start_mono(s, k + 1, l);
    } else if k > l {
        lemma_line_start_mono(s, l + 1, k);
    }
}

/// The first char of a line lies on that line.
pub proof fn lemma_line_of_start(s: Seq<char>, l: int)
    requires
        0 <= l < num_lines(s),
    ensures
        line_of(s, line_start(s, l)) == l,
{
    lemma_line_start_mono(s, l, l + 1);
    if line_start(s, l) == line_start(s, l + 1) {
        // only the last line can be empty
        if l + 1 < num_lines(s) {
            lemma_line_start_mono(s, l, l + 1);
        }
        assert(line_start(s, l) == s.len());
        lemma_line_of(s, s.len() as int);
        if line_of(s, s.len() as int) < l {
            lemma_line_start_mono(s, line_of(s, s.len() as int) + 1, l);
            lemma_starts_upto(s, s.len() as int);
        }
    }
    lemma_line_of_in_line(s, l, line_start(s, l));
}

/// Lines of later chars do not come before those of earlier chars.
pub proof fn lemma_line_of_mono(s: Seq<char>, a: int, b: int)
    requires
        0 <= a <= b <= s.len(),
    ensures
        line_of(s, a) <= line_of(s, b),
{
    lemma_starts_prefix(s, a, b);
}

/// The line break of a line lies between its start and the start of the next line.
pub proof fn lemma_line_end(s: Seq<char>, l: int)
    requires
        0 <= l < num_lines(s),
    ensures
        line_start(s, l) <= line_end(s, l) <= line_start(s, l + 1),
{
    lemma_line_start_mono(s, l, l + 1);
}

/// The number of bytes of the UTF-8 encoding of `c`.
pub open spec fn utf8_len(c: char) -> int {
    let u = c as u32;
    if u < 0x80 {
        1
    } else if u < 0x800 {
        2
    } else if u < 0x10000 {
        3
    } else {
        4
    }
}

/// The byte offset of the char at index `i` in the UTF-8 encoding of `s`.
pub open spec fn byte_offset(s: Seq<char>, i: int) -> int
    decreases i,
{
    if i <= 0 || s.len() == 0 {
        0
    } else if i > s.len() {
        byte_offset(s, s.len() as int)
    } else {
        byte_offset(s, i - 1) + utf8_len(s[i - 1])
    }
}

/// The number of bytes of the UTF-8 encoding of `s`.
pub open spec fn byte_len(s: Seq<char>) -> int {
    byte_offset(s, s.len() as int)
}

/// The index of the char whose encoding holds the byte `b`, from the char `i` on: the last
/// char that starts at or before `b` (the length of the text for `b == byte_len(s)`).
pub open spec fn char_of_byte_from(s: Seq<char>, i: int, b: int) -> int
    decreases s.len() - i,
{
    if i < 0 || i >= s.len() || byte_offset(s, i + 1) > b {
        i
    } else {
        char_of_byte_from(s, i + 1, b)
    }
}

/// The index of the char whose encoding holds the byte `b`.
pub open spec fn char_of_byte(s: Seq<char>, b: int) -> int {
    char_of_byte_from(s, 0, b)
}

pub proof fn lemma_char_of_byte_bounds(s: Seq<char>, i: int, b: int)
    requires
        0 <= i <= s.len(),
    ensures
        i <= char_of_byte_from(s, i, b) <= s.len(),
    decreases s.len() - i,
{
    if i < s.len() && byte_offset(s, i + 1) <= b {
        lemma_char_of_byte_bounds(s, i + 1, b);
    }
}

/// Every line begins within the text.
pub proof fn lemma_line_start_bounds(s: Seq<char>, l: int)
    ensures
        0 <= line_start(s, l) <= s.len(),
{
    lemma_starts_upto(s, s.len() as int);
}

/// A line that is followed by another ends with a line break.
pub proof fn lemma_line_end_before_next(s: Seq<char>, l: int)
    requires
        0 <= l,
        l + 1 < num_lines(s),
    ensures
        line_end(s, l) < line_start(s, l + 1),
{
    lemma_starts_upto(s, s.len() as int);
    lemma_line_start_mono(s, l, l + 1);
    let p = line_start(s, l + 1);
    assert(starts_line_at(s, line_starts(s)[l + 1]));
    let ln = line_chars(s, l);
    assert(ln[ln.len() - 1] == s[p - 1]);
}

/// The chars that end a line.
pub fn is_line_break_char(c: char) -> (r: bool)
    ensures
        r == is_line_break(c),
{
    c == '\n' || c == '\r' || c == '\u{0B}' || c == '\u{0C}' || c == '\u{85}' || c == '\u{2028}'
        || c == '\u{2029}'
}

/// Whether `c` has the Unicode `White_Space` property.
pub fn is_whitespace(c: char) -> (r: bool)
    ensures
        r == is_white_space(c),
{
    let u = c as u32;
    (0x9 <= u && u <= 0xd) || u == 0x20 || u == 0x85 || u == 0xa0 || u == 0x1680 || (0x2000 <= u
        && u <= 0x200a) || u == 0x2028 || u == 0x2029 || u == 0x202f || u == 0x205f || u == 0x3000
}

/// The number of bytes of the UTF-8 encoding of `c`.
pub fn utf8_len_exec(c: char) -> (n: usize)
    ensures
        n == utf8_len(c),
{
    let u = c as u32;
    if u < 0x80 {
        1
    } else if u < 0x800 {
        2
    } else if u < 0x10000 {
        3
    } else {
        4
    }
}

/// A document: its chars, and the char index at which each line begins.
pub struct Text {
    chars: Vec<char>,
    starts: Vec<usize>,
}

impl View for Text {
    type V = Seq<char>;

    closed spec fn view(&self) -> Seq<char> {
        self.chars@
    }
}

impl Text {
    #[verifier::type_invariant]
    spec fn wf(self) -> bool {
        &&& self.starts@.len() == line_starts(self.chars@).len()
        &&& forall|i: int|
            0 <= i < self.starts@.len() ==> self.starts@[i] as int == line_starts(self.chars@)[i]
    }

    /// The document made of `chars`.
    pub fn new(chars: Vec<char>) -> (text: Text)
        ensures
            text@ == chars@,
    {
        let n = chars.len();
        let mut starts: Vec<usize> = Vec::new();
        starts.push(0);
        let mut i: usize = 0;
        while i < n
            invariant
                n == chars.len(),
                i <= n,
                starts@.len() == line_starts_upto(chars@, i as int).len(),
                forall|j: int|
                    0 <= j < starts@.len() ==> starts@[j] as int == line_starts_upto(
                        chars@,
                        i as int,
                    )[j],
            decreases n - i,
        {
            let c = chars[i];
            if is_line_break_char(c) && !(c == '\r' && i + 1 < n && chars[i + 1] == '\n') {
                starts.push(i + 1);
            }
            i += 1;
        }
        Text { chars, starts }
    }

    /// The index of the char whose UTF-8 encoding holds the byte `byte_idx`.
    pub fn byte_to_char(&self, byte_idx: usize) -> (c: usize)
        ensures
            c == char_of_byte(self@, byte_idx as int),
            c <= self@.len(),
    {
        proof {
            lemma_char_of_byte_bounds(self@, 0, byte_idx as int);
        }
        let mut i: usize = 0;
        let mut offset: usize = 0;
        while i < self.chars.len() && utf8_len_exec(self.chars[i]) <= byte_idx - offset
            invariant
                i <= self@.len(),
                offset == byte_offset(self@, i as int),
                offset <= byte_idx,
                char_of_byte_from(self@, i as int, byte_idx as int) == char_of_byte(
                    self@,
                    byte_idx as int,
                ),
            decreases self@.len() - i,
        {
            offset = offset + utf8_len_exec(self.chars[i]);
            i += 1;
        }
        i
    }

    /// The number of chars.
    pub fn len_chars(&self) -> (n: usize)
        ensures
            n == self@.len(),
    {
        self.chars.len()
    }

    /// The number of lines.
    pub fn len_lines(&self) -> (n: usize)
        ensures
            n == num_lines(self@),
    {
        proof {
            use_type_invariant(self);
        }
        self.starts.len()
    }

    /// The char at index `i`.
    pub fn char_at(&self, i: usize) -> (c: char)
        requires
            i < self@.len(),
        ensures
            c == self@[i as int],
    {
        self.chars[i]
    }

    /// The char index at which line `line` begins; for `line == len_lines()` the length of
    /// the text.
    pub fn line_to_char(&self, line: usize) -> (c: usize)
        requires
            line <= num_lines(self@),
        ensures
            c == line_start(self@, line as int),
    {
        proof {
            use_type_invariant(self);
        }
        if line < self.starts.len() {
            self.starts[line]
        } else {
            self.chars.len()
        }
    }

    /// The line that holds the char index `char_idx`.
    pub fn char_to_line(&self, char_idx: usize) -> (line: usize)
        requires
            char_idx <= self@.len(),
        ensures
            line == line_of(self@, char_idx as int),
    {
        proof {
            use_type_invariant(self);
            lemma_starts_upto(self@, self@.len() as int);
            lemma_starts_upto(self@, char_idx as int);
            lemma_starts_prefix(self@, char_idx as int, self@.len() as int);
        }
        let ghost starts = line_starts(self@);
        let ghost u = line_starts_upto(self@, char_idx as int);
        // the number of line starts that are not after `char_idx`
        let mut lo: usize = 0;
        let mut hi: usize = self.starts.len();
        while lo < hi
            invariant
                self.wf(),
                self.starts@.len() == starts.len(),
                starts == line_starts(self@),
                0 <= lo <= hi <= starts.len(),
                forall|i: int, j: int| 0 <= i < j < starts.len() ==> starts[i] < starts[j],
                forall|i: int| 0 <= i < lo ==> starts[i] <= char_idx,
                forall|i: int| hi <= i < starts.len() ==> starts[i] > char_idx,
            decreases hi - lo,
        {
            let mid = lo + (hi - lo) / 2;
            if self.starts[mid] <= char_idx {
                lo = mid + 1;
            } else {
                hi = mid;
            }
        }
        proof {
            assert(starts[0] == 0);
            if lo < u.len() {
                assert(starts[u.len() - 1] == u[u.len() - 1]);
                assert(u[u.len() - 1] <= char_idx);
                assert(starts[lo as int] <= starts[u.len() - 1]);
            } else if lo > u.len() {
                assert(starts[lo - 1] <= char_idx);
            }
        }
        lo - 1
    }

    /// The char index of the line break that ends line `line`, or the end of the line when
    /// it has none.
    pub fn line_end_char_index(&self, line: usize) -> (c: usize)
        requires
            line < num_lines(self@),
        ensures
            c == line_end(self@, line as int),
    {
        proof {
            use_type_invariant(self);
            lemma_line_start_mono(self@, line as int, line as int + 1);
        }
        let _ = self.len_lines();
        let start = self.line_to_char(line);
        let end = self.line_to_char(line + 1);
        let ghost ln = line_chars(self@, line as int);
        let len = end - start;
        if len >= 2 && self.chars[end - 2] == '\r' && self.chars[end - 1] == '\n' {
            assert(ln[ln.len() - 2] == self@[end - 2]);
            end - 2
        } else if len >= 1 && is_line_break_char(self.chars[end - 1]) {
            assert(ln[ln.len() - 1] == self@[end - 1]);
            assert(len >= 2 ==> ln[ln.len() - 2] == self@[end - 2]);
            end - 1
        } else {
            assert(len >= 2 ==> ln[ln.len() - 2] == self@[end - 2]);
            assert(len >= 1 ==> ln[ln.len() - 1] == self@[end - 1]);
            end
        }
    }

    /// Whether every char of line `line` is white space.
    pub fn is_blank_line(&self, line: usize) -> (blank: bool)
        requires
            line < num_lines(self@),
        ensures
            blank == line_is_blank(self@, line as int),
    {
        proof {
            use_type_invariant(self);
            lemma_line_start_mono(self@, line as int, line as int + 1);
        }
        let _ = self.len_lines();
        let start = self.line_to_char(line);
        let end = self.line_to_char(line + 1);
        let mut i = start;
        while i < end
            invariant
                start <= i <= end,
                end <= self@.len(),
                start == line_start(self@, line as int),
                end == line_start(self@, line as int + 1),
                forall|j: int| start <= j < i ==> is_white_space(#[trigger] self@[j]),
            decreases end - i,
        {
            if !is_whitespace(self.chars[i]) {
                return false;
            }
            i += 1;
        }
        true
    }

    /// The indentation width of line `line`: a space counts one column, a tab reaches the
    /// next multiple of `tab_width`.
    pub fn line_indent(&self, line: usize, tab_width: usize) -> (width: usize)
        requires
            line < num_lines(self@),
            indent_computable(line_chars(self@, line as int), tab_width as int),
        ensures
            width == indent_width(line_chars(self@, line as int), tab_width as int),
    {
        proof {
            use_type_invariant(self);
            lemma_line_start_mono(self@, line as int, line as int + 1);
        }
        let _ = self.len_lines();
        let start = self.line_to_char(line);
        let end = self.line_to_char(line + 1);
        let ghost ln = line_chars(self@, line as int);
        let mut i = start;
        let mut width: usize = 0;
        while i < end
            invariant
                start <= i <= end,
                end <= self@.len(),
                start == line_start(self@, line as int),
                end == line_start(self@, line as int + 1),
                ln == self@.subrange(start as int, end as int),
                indent_computable(ln, tab_width as int),
                forall|j: int| 0 <= j < i - start ==> (#[trigger] ln[j] == ' ' || ln[j] == '\t'),
                indent_from(ln, i - start, width as int, tab_width as int) == indent_width(
                    ln,
                    tab_width as int,
                ),
            decreases end - i,
        {
            let c = self.chars[i];
            assert(ln[i - start] == c);
            if c == '\t' {
                proof {
                    assert(has_leading_tab(ln));
                    lemma_indent_from_grows(
                        ln,
                        i - start + 1,
                        width + tab_width - width % tab_width,
                        tab_width as int,
                    );
                }
                width = width + (tab_width - width % tab_width);
            } else if c == ' ' {
                proof {
                    lemma_indent_from_grows(ln, i - start + 1, width + 1, tab_width as int);
                }
                width = width + 1;
            } else {
                return width;
            }
            i += 1;
        }
        width
    }
}

} // verus!
