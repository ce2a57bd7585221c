//! Edits of a document, and how char positions move through them.
//!
//! A [`ChangeSet`] walks the old text from its start: it retains, deletes, or inserts text at
//! the current position. An insert that is followed by a delete replaces the deleted text.
use vstd::prelude::*;
use crate::text::Text;

verus! {

/// One step of a change set.
#[derive(Debug)]
pub enum Operation {
    /// Keeps the next chars of the old text.
    Retain(usize),
    /// Removes the next chars of the old text.
    Delete(usize),
    /// Inserts text at the current position.
    Insert(String),
}

/// An operation as plain values.
pub enum Op {
    Retain(nat),
    Delete(nat),
    Insert(Seq<char>),
}

impl View for Operation {
    type V = Op;

    open spec fn view(&self) -> Op {
        match self {
            Operation::Retain(n) => Op::Retain(*n as nat),
            Operation::Delete(n) => Op::Delete(*n as nat),
            Operation::Insert(s) => Op::Insert(s@),
        }
    }
}

/// Which side of text inserted at a position that position moves to.
#[derive(Debug, Clone, Copy, PartialEq, Eq, Structural)]
pub enum Assoc {
    /// Stays before the inserted text.
    Before,
    /// Moves after the inserted text.
    After,
}

/// The number of chars of the old text that `ops` walks over.
pub open spec fn len_before(ops: Seq<Op>) -> nat
    decreases ops.len(),
{
    if ops.len() == 0 {
        0
    } else {
        len_before(ops.drop_last()) + match ops.last() {
            Op::Retain(n) => n,
            Op::Delete(n) => n,
            Op::Insert(_) => 0,
        }
    }
}

/// The number of chars of the new text that `ops` produces.
pub open spec fn len_after(ops: Seq<Op>) -> nat
    decreases ops.len(),
{
    if ops.len() == 0 {
        0
    } else {
        len_after(ops.drop_last()) + match ops.last() {
            Op::Retain(n) => n,
            Op::Delete(_) => 0nat,
            Op::Insert(t) => t.len(),
        }
    }
}

/// The text that `ops` makes of `s`.
pub open spec fn applied(ops: Seq<Op>, s: Seq<char>) -> Seq<char>
    decreases ops.len(),
{
    if ops.len() == 0 {
        s
    } else {
        match ops[0] {
            Op::Retain(n) => s.take(n as int) + applied(ops.drop_first(), s.skip(n as int)),
            Op::Delete(n) => applied(ops.drop_first(), s.skip(n as int)),
            Op::Insert(t) => t + applied(ops.drop_first(), s),
        }
    }
}

/// Where `ops` moves the old position `pos`, its walk being at `ops[i]`, at the old position
/// `old_pos` and the new position `new_pos`.
pub open spec fn map_from(
    ops: Seq<Op>,
    i: int,
    old_pos: int,
    new_pos: int,
    pos: int,
    assoc: Assoc,
) -> int
    decreases ops.len() - i,
{
    if i < 0 || i >= ops.len() {
        new_pos
    } else {
        match ops[i] {
            Op::Retain(n) => if old_pos + n > pos {
                new_pos + (pos - old_pos)
            } else {
                map_from(ops, i + 1, old_pos + n, new_pos + n, pos, assoc)
            },
            Op::Delete(n) => if old_pos + n > pos {
                new_pos
            } else {
                map_from(ops, i + 1, old_pos + n, new_pos, pos, assoc)
            },
            Op::Insert(t) => if i + 1 < ops.len() && ops[i + 1] is Delete {
                // a replacement
                let d = ops[i + 1]->Delete_0;
                if old_pos + d > pos {
                    if pos == old_pos || assoc == Assoc::Before {
                        new_pos
                    } else {
                        new_pos + t.len()
                    }
                } else {
                    map_from(ops, i + 2, old_pos + d, new_pos + t.len(), pos, assoc)
                }
            } else if old_pos == pos {
                if assoc == Assoc::Before {
                    new_pos
                } else {
                    new_pos + t.len()
                }
            } else {
                map_from(ops, i + 1, old_pos, new_pos + t.len(), pos, assoc)
            },
        }
    }
}

/// Where `ops` moves the position `pos` of the old text.
pub open spec fn map_pos_spec(ops: Seq<Op>, pos: int, assoc: Assoc) -> int {
    map_from(ops, 0, 0, 0, pos, assoc)
}

/// The operations of a change set after retaining `n` more chars.
pub open spec fn retained(ops: Seq<Op>, n: nat) -> Seq<Op> {
    if n == 0 {
        ops
    } else if ops.len() > 0 && ops.last() is Retain {
        ops.drop_last().push(Op::Retain(ops.last()->Retain_0 + n))
    } else {
        ops.push(Op::Retain(n))
    }
}

/// The operations of a change set after deleting `n` more chars.
pub open spec fn deleted(ops: Seq<Op>, n: nat) -> Seq<Op> {
    if n == 0 {
        ops
    } else if ops.len() > 0 && ops.last() is Delete {
        ops.drop_last().push(Op::Delete(ops.last()->Delete_0 + n))
    } else {
        ops.push(Op::Delete(n))
    }
}

/// The operations of a change set after inserting `t`: an insert always comes before the
/// delete it replaces.
pub open spec fn inserted(ops: Seq<Op>, t: Seq<char>) -> Seq<Op> {
    if t.len() == 0 {
        ops
    } else if ops.len() > 0 && ops.last() is Insert {
        ops.drop_last().push(Op::Insert(ops.last()->Insert_0 + t))
    } else if ops.len() > 1 && ops.last() is Delete && ops[ops.len() - 2] is Insert {
        ops.drop_last().drop_last().push(Op::Insert(ops[ops.len() - 2]->Insert_0 + t)).push(
            ops.last(),
        )
    } else if ops.len() > 0 && ops.last() is Delete {
        ops.drop_last().push(Op::Insert(t)).push(ops.last())
    } else {
        ops.push(Op::Insert(t))
    }
}

/// The edits `changes`, each replacing `from..to` by its text (or deleting it), as the
/// operations that walk the text up to the end of the last edit.
pub open spec fn edit_ops(changes: Seq<(usize, usize, Option<Seq<char>>)>) -> Seq<Op>
    decreases changes.len(),
{
    if changes.len() == 0 {
        seq![]
    } else {
        let prev = edit_ops(changes.drop_last());
        let (from, to, t) = changes.last();
        let last = if changes.len() > 1 {
            changes[changes.len() - 2].1 as int
        } else {
            0
        };
        let with_retain = retained(prev, (from - last) as nat);
        match t {
            Some(t) => deleted(inserted(with_retain, t), (to - from) as nat),
            None => deleted(with_retain, (to - from) as nat),
        }
    }
}

/// The edits are in order and do not overlap, and end within a text of `len` chars.
pub open spec fn edits_ordered(changes: Seq<(usize, usize, Option<Seq<char>>)>, len: int) -> bool {
    &&& forall|i: int| 0 <= i < changes.len() ==> #[trigger] changes[i].0 <= changes[i].1
    &&& forall|i: int| 0 < i < changes.len() ==> changes[i - 1].1 <= #[trigger] changes[i].0
    &&& changes.len() > 0 ==> changes.last().1 <= len
}

/// A set of edits of a text of `len` chars.
pub struct ChangeSet {
    changes: Vec<Operation>,
    /// The length of the text before the edits.
    len: usize,
    /// The length of the text after the edits.
    len_after: usize,
}

pub open spec fn op_views(ops: Seq<Operation>) -> Seq<Op> {
    ops.map_values(|o: Operation| o@)
}

impl View for ChangeSet {
    type V = Seq<Op>;

    closed spec fn view(&self) -> Seq<Op> {
        op_views(self.changes@)
    }
}

impl ChangeSet {
    #[verifier::type_invariant]
    spec fn inv(self) -> bool {
        &&& self.len == len_before(op_views(self.changes@))
        &&& self.len_after == len_after(op_views(self.changes@))
    }

    /// The change set that leaves an empty text as it is; the builder methods extend it.
    pub fn empty() -> (cs: ChangeSet)
        ensures
            cs@ == Seq::<Op>::empty(),
    {
        let cs = ChangeSet { changes: Vec::new(), len: 0, len_after: 0 };
        assert(op_views(cs.changes@) =~= Seq::<Op>::empty());
        cs
    }

    /// The length of the text the change set applies to.
    pub fn len(&self) -> (n: usize)
        ensures
            n == len_before(self@),
    {
        proof {
            use_type_invariant(self);
        }
        self.len
    }

    /// The length of the text after the change set is applied.
    pub fn len_after(&self) -> (n: usize)
        ensures
            n == len_after(self@),
    {
        proof {
            use_type_invariant(self);
        }
        self.len_after
    }

    /// Moves the operations and lengths out, leaving an empty change set.
    fn take_parts(&mut self) -> (parts: (Vec<Operation>, usize, usize))
        ensures
            op_views(parts.0@) == old(self)@,
            parts.1 == len_before(old(self)@),
            parts.2 == len_after(old(self)@),
            final(self)@ == Seq::<Op>::empty(),
    {
        proof {
            use_type_invariant(&*self);
        }
        let mut me = ChangeSet::empty();
        std::mem::swap(self, &mut me);
        proof {
            use_type_invariant(&me);
        }
        let ChangeSet { changes, len, len_after } = me;
        (changes, len, len_after)
    }

    /// Retains `n` more chars.
    pub fn retain(&mut self, n: usize)
        requires
            len_before(old(self)@) + n <= usize::MAX,
            len_after(old(self)@) + n <= usize::MAX,
        ensures
            final(self)@ == retained(old(self)@, n as nat),
    {
        proof {
            use_type_invariant(&*self);
        }
        if n == 0 {
            return;
        }
        let ghost ov = self@;
        let (mut changes, len, len_after) = self.take_parts();
        let k = changes.len();
        if k > 0 {
            if let Operation::Retain(count) = changes[k - 1] {
                changes.pop();
                changes.push(Operation::Retain(count + n));
                proof {
                    lemma_len_push(ov.drop_last(), Op::Retain((count + n) as nat));
                    lemma_len_push(ov.drop_last(), ov.last());
                    assert(ov.drop_last().push(ov.last()) =~= ov);
                    assert(op_views(changes@) =~= ov.drop_last().push(Op::Retain((count + n) as nat)));
                }
                *self = ChangeSet { changes, len: len + n, len_after: len_after + n };
                return;
            }
        }
        changes.push(Operation::Retain(n));
        proof {
            lemma_len_push(ov, Op::Retain(n as nat));
            assert(op_views(changes@) =~= ov.push(Op::Retain(n as nat)));
        }
        *self = ChangeSet { changes, len: len + n, len_after: len_after + n };
    }

    /// Deletes `n` more chars.
    pub fn delete(&mut self, n: usize)
        requires
            len_before(old(self)@) + n <= usize::MAX,
        ensures
            final(self)@ == deleted(old(self)@, n as nat),
    {
        proof {
            use_type_invariant(&*self);
        }
        if n == 0 {
            return;
        }
        let ghost ov = self@;
        let (mut changes, len, len_after) = self.take_parts();
        let k = changes.len();
        if k > 0 {
            if let Operation::Delete(count) = changes[k - 1] {
                changes.pop();
                changes.push(Operation::Delete(count + n));
                proof {
                    lemma_len_push(ov.drop_last(), Op::Delete((count + n) as nat));
                    lemma_len_push(ov.drop_last(), ov.last());
                    assert(ov.drop_last().push(ov.last()) =~= ov);
                    assert(op_views(changes@) =~= ov.drop_last().push(Op::Delete((count + n) as nat)));
                }
                *self = ChangeSet { changes, len: len + n, len_after };
                return;
            }
        }
        changes.push(Operation::Delete(n));
        proof {
            lemma_len_push(ov, Op::Delete(n as nat));
            assert(op_views(changes@) =~= ov.push(Op::Delete(n as nat)));
        }
        *self = ChangeSet { changes, len: len + n, len_after };
    }

    /// Inserts `fragment` at the current position.
    pub fn insert(&mut self, fragment: String)
        requires
            len_after(old(self)@) + fragment@.len() <= usize::MAX,
        ensures
            final(self)@ == inserted(old(self)@, fragment@),
    {
        proof {
            use_type_invariant(&*self);
        }
        let count = char_count(&fragment);
        if count == 0 {
            return;
        }
        let ghost ov = self@;
        let ghost t = fragment@;
        let (mut changes, len, len_after) = self.take_parts();
        let k = changes.len();
        let len_after = len_after + count;
        if k > 0 && changes[k - 1].is_insert() {
            let last = changes.pop().unwrap();
            if let Operation::Insert(prev) = last {
                let mut joined = prev;
                joined.append(fragment.as_str());
                changes.push(Operation::Insert(joined));
                proof {
                    let p = ov.drop_last();
                    lemma_len_push(p, ov.last());
                    lemma_len_push(p, Op::Insert(ov.last()->Insert_0 + t));
                    assert(p.push(ov.last()) =~= ov);
                    assert(op_views(changes@) =~= p.push(Op::Insert(ov.last()->Insert_0 + t)));
                }
            }
            *self = ChangeSet { changes, len, len_after };
            return;
        }
        if k > 0 && changes[k - 1].is_delete() {
            let del = changes.pop().unwrap();
            let ghost p = ov.drop_last();
            proof {
                lemma_len_push(p, ov.last());
                assert(p.push(ov.last()) =~= ov);
            }
            if k > 1 && changes[k - 2].is_insert() {
                let last = changes.pop().unwrap();
                if let Operation::Insert(prev) = last {
                    let mut joined = prev;
                    joined.append(fragment.as_str());
                    changes.push(Operation::Insert(joined));
                    changes.push(del);
                    proof {
                        let q = p.drop_last();
                        let ins = Op::Insert(p.last()->Insert_0 + t);
                        lemma_len_push(q, p.last());
                        assert(q.push(p.last()) =~= p);
                        lemma_len_push(q, ins);
                        lemma_len_push(q.push(ins), ov.last());
                        assert(op_views(changes@) =~= q.push(ins).push(ov.last()));
                        assert(ov[ov.len() - 2] == p.last());
                    }
                }
            } else {
                changes.push(Operation::Insert(fragment));
                changes.push(del);
                proof {
                    lemma_len_push(p, Op::Insert(t));
                    lemma_len_push(p.push(Op::Insert(t)), ov.last());
                    assert(op_views(changes@) =~= p.push(Op::Insert(t)).push(ov.last()));
                    if k > 1 {
                        assert(ov[ov.len() - 2] == p.last());
                    }
                }
            }
            *self = ChangeSet { changes, len, len_after };
            return;
        }
        changes.push(Operation::Insert(fragment));
        proof {
            lemma_len_push(ov, Op::Insert(t));
            assert(op_views(changes@) =~= ov.push(Op::Insert(t)));
        }
        *self = ChangeSet { changes, len, len_after };
    }

    /// Where the change set moves the position `pos` of the old text.
    pub fn map_pos(&self, pos: usize, assoc: Assoc) -> (mapped: usize)
        requires
            pos <= len_before(self@),
        ensures
            mapped == map_pos_spec(self@, pos as int, assoc),
    {
        proof {
            use_type_invariant(self);
        }
        let ghost ops = self@;
        let n = self.changes.len();
        let mut old_pos: usize = 0;
        let mut new_pos: usize = 0;
        let mut i: usize = 0;
        while i < n
            invariant
                ops == self@,
                ops == op_views(self.changes@),
                n == ops.len(),
                i <= n,
                self.len == len_before(ops),
                self.len_after == len_after(ops),
                pos <= len_before(ops),
                old_pos == len_before(ops.take(i as int)),
                new_pos == len_after(ops.take(i as int)),
                old_pos <= pos,
                map_from(ops, i as int, old_pos as int, new_pos as int, pos as int, assoc)
                    == map_pos_spec(ops, pos as int, assoc),
            decreases n - i,
        {
            proof {
                lemma_len_take(ops, i as int + 1);
                assert(ops.take(i + 1).drop_last() =~= ops.take(i as int));
                assert(ops.take(i + 1).last() == ops[i as int]);
                assert(ops[i as int] == self.changes@[i as int]@);
            }
            match &self.changes[i] {
                Operation::Retain(len) => {
                    let len = *len;
                    if old_pos + len > pos {
                        return new_pos + (pos - old_pos);
                    }
                    old_pos = old_pos + len;
                    new_pos = new_pos + len;
                    i += 1;
                },
                Operation::Delete(len) => {
                    let len = *len;
                    if old_pos + len > pos {
                        return new_pos;
                    }
                    old_pos = old_pos + len;
                    i += 1;
                },
                Operation::Insert(s) => {
                    let ins = char_count(s);
                    if i + 1 < n && self.changes[i + 1].is_delete() {
                        proof {
                            lemma_len_take(ops, i as int + 2);
                            assert(ops.take(i + 2).drop_last() =~= ops.take(i + 1));
                            assert(ops.take(i + 2).last() == ops[i + 1]);
                            assert(ops[i + 1] == self.changes@[i + 1]@);
                        }
                        let d = self.changes[i + 1].deleted_len();
                        if old_pos + d > pos {
                            if pos == old_pos || assoc == Assoc::Before {
                                return new_pos;
                            } else {
                                return new_pos + ins;
                            }
                        }
                        old_pos = old_pos + d;
                        new_pos = new_pos + ins;
                        i += 2;
                    } else {
                        if old_pos == pos {
                            if assoc == Assoc::Before {
                                return new_pos;
                            } else {
                                return new_pos + ins;
                            }
                        }
                        new_pos = new_pos + ins;
                        i += 1;
                    }
                },
            }
        }
        assert(ops.take(n as int) =~= ops);
        new_pos
    }

    /// Applies the change set to `text`; `None` when `text` is not the text it was made for.
    pub fn apply(&self, text: &Text) -> (result: Option<Text>)
        ensures
            result is None <==> text@.len() != len_before(self@),
            result matches Some(t) ==> t@ == applied(self@, text@),
    {
        proof {
            use_type_invariant(self);
        }
        if text.len_chars() != self.len {
            return None;
        }
        let ghost ops = self@;
        let ghost s = text@;
        let n = self.changes.len();
        let mut out: Vec<char> = Vec::new();
        let mut cursor: usize = 0;
        let mut i: usize = 0;
        assert(ops.skip(0) =~= ops);
        assert(s.skip(0) =~= s);
        assert(out@ + applied(ops, s) =~= applied(ops, s));
        assert(ops.take(0) =~= Seq::<Op>::empty());
        while i < n
            invariant
                ops == self@,
                ops == op_views(self.changes@),
                n == ops.len(),
                s == text@,
                s.len() == len_before(ops),
                s.len() == self.len,
                i <= n,
                cursor == len_before(ops.take(i as int)),
                cursor <= s.len(),
                out@ + applied(ops.skip(i as int), s.skip(cursor as int)) == applied(ops, s),
            decreases n - i,
        {
            proof {
                lemma_len_take(ops, i as int + 1);
                lemma_len_take(ops, n as int);
                assert(ops.take(n as int) =~= ops);
                assert(ops.take(i + 1).drop_last() =~= ops.take(i as int));
                assert(ops.take(i + 1).last() == ops[i as int]);
                assert(ops[i as int] == self.changes@[i as int]@);
                assert(ops.skip(i as int).drop_first() =~= ops.skip(i + 1));
                assert(ops.skip(i as int)[0] == ops[i as int]);
            }
            let ghost before = out@;
            match &self.changes[i] {
                Operation::Retain(len) => {
                    let len = *len;
                    assert(len_before(ops.take(i + 1)) == cursor + len);
                    let mut k: usize = 0;
                    while k < len
                        invariant
                            cursor + len <= s.len(),
                            s.len() <= usize::MAX,
                            s == text@,
                            k <= len,
                            out@ == before + s.subrange(cursor as int, cursor + k),
                        decreases len - k,
                    {
                        out.push(text.char_at(cursor + k));
                        k += 1;
                        assert(out@ =~= before + s.subrange(cursor as int, cursor + k));
                    }
                    assert(s.skip(cursor as int).take(len as int) =~= s.subrange(
                        cursor as int,
                        cursor + len,
                    ));
                    assert(s.skip(cursor as int).skip(len as int) =~= s.skip(cursor + len));
                    cursor = cursor + len;
                },
                Operation::Delete(len) => {
                    assert(len_before(ops.take(i + 1)) == cursor + *len);
                    assert(s.skip(cursor as int).skip(*len as int) =~= s.skip(cursor + *len));
                    cursor = cursor + *len;
                },
                Operation::Insert(t) => {
                    push_chars(&mut out, t);
                },
            }
            i += 1;
        }
        proof {
            assert(ops.take(n as int) =~= ops);
            assert(ops.skip(n as int) =~= Seq::<Op>::empty());
            assert(s.skip(cursor as int) =~= Seq::<char>::empty());
            assert(out@ =~= applied(ops, s));
        }
        Some(Text::new(out))
    }
}

impl Operation {
    fn is_insert(&self) -> (r: bool)
        ensures
            r == self@ is Insert,
    {
        match self {
            Operation::Insert(_) => true,
            _ => false,
        }
    }

    fn is_delete(&self) -> (r: bool)
        ensures
            r == self@ is Delete,
    {
        match self {
            Operation::Delete(_) => true,
            _ => false,
        }
    }

    fn deleted_len(&self) -> (n: usize)
        requires
            self@ is Delete,
        ensures
            n == self@->Delete_0,
    {
        match self {
            Operation::Delete(n) => *n,
            _ => 0,
        }
    }
}

proof fn lemma_len_push(ops: Seq<Op>, o: Op)
    ensures
        len_before(ops.push(o)) == len_before(ops) + match o {
            Op::Retain(n) => n,
            Op::Delete(n) => n,
            Op::Insert(_) => 0,
        },
        len_after(ops.push(o)) == len_after(ops) + match o {
            Op::Retain(n) => n,
            Op::Delete(_) => 0nat,
            Op::Insert(t) => t.len(),
        },
{
    assert(ops.push(o).drop_last() =~= ops);
}

/// The lengths walked by a prefix of the operations are at most those of all of them.
proof fn lemma_len_take(ops: Seq<Op>, k: int)
    requires
        0 <= k <= ops.len(),
    ensures
        len_before(ops.take(k)) <= len_before(ops),
        len_after(ops.take(k)) <= len_after(ops),
    decreases ops.len() - k,
{
    if k < ops.len() {
        lemma_len_take(ops, k + 1);
        assert(ops.take(k + 1).drop_last() =~= ops.take(k));
    } else {
        assert(ops.take(k) =~= ops);
    }
}


/// The number of chars of `s`.
fn char_count(s: &String) -> (n: usize)
    ensures
        n == s@.len(),
{
    s.as_str().unicode_len()
}

/// Appends the chars of `t` to `out`.
fn push_chars(out: &mut Vec<char>, t: &String)
    ensures
        final(out)@ == old(out)@ + t@,
{
    let n = t.as_str().unicode_len();
    let mut i: usize = 0;
    while i < n
        invariant
            n == t@.len(),
            i <= n,
            out@ == old(out)@ + t@.take(i as int),
        decreases n - i,
    {
        out.push(t.as_str().get_char(i));
        i += 1;
        assert(out@ =~= old(out)@ + t@.take(i as int));
    }
    assert(t@.take(n as int) =~= t@);
}

/// The edits as plain values.
pub open spec fn edit_views(changes: Seq<(usize, usize, Option<String>)>) -> Seq<
    (usize, usize, Option<Seq<char>>),
> {
    changes.map_values(
        |c: (usize, usize, Option<String>)|
            (c.0, c.1, match c.2 {
                Some(t) => Some(t@),
                None => None,
            }),
    )
}

/// The end of the last of the edits, 0 when there are none.
pub open spec fn edits_end(changes: Seq<(usize, usize, Option<Seq<char>>)>) -> int {
    if changes.len() > 0 {
        changes.last().1 as int
    } else {
        0
    }
}

/// The edits are in order within a text of `len` chars, and the edited text has at most
/// `usize::MAX` chars.
pub open spec fn edits_fit(changes: Seq<(usize, usize, Option<Seq<char>>)>, len: int) -> bool {
    &&& edits_ordered(changes, len)
    &&& len_after(edit_ops(changes)) + len - edits_end(changes) <= usize::MAX
}


proof fn lemma_retained_len(ops: Seq<Op>, n: nat)
    ensures
        len_before(retained(ops, n)) == len_before(ops) + n,
        len_after(retained(ops, n)) == len_after(ops) + n,
{
    if n > 0 {
        if ops.len() > 0 && ops.last() is Retain {
            lemma_len_push(ops.drop_last(), ops.last());
            lemma_len_push(ops.drop_last(), Op::Retain(ops.last()->Retain_0 + n));
            assert(ops.drop_last().push(ops.last()) =~= ops);
        } else {
            lemma_len_push(ops, Op::Retain(n));
        }
    }
}

proof fn lemma_deleted_len(ops: Seq<Op>, n: nat)
    ensures
        len_before(deleted(ops, n)) == len_before(ops) + n,
        len_after(deleted(ops, n)) == len_after(ops),
{
    if n > 0 {
        if ops.len() > 0 && ops.last() is Delete {
            lemma_len_push(ops.drop_last(), ops.last());
            lemma_len_push(ops.drop_last(), Op::Delete(ops.last()->Delete_0 + n));
            assert(ops.drop_last().push(ops.last()) =~= ops);
        } else {
            lemma_len_push(ops, Op::Delete(n));
        }
    }
}

proof fn lemma_inserted_len(ops: Seq<Op>, t: Seq<char>)
    ensures
        len_before(inserted(ops, t)) == len_before(ops),
        len_after(inserted(ops, t)) == len_after(ops) + t.len(),
{
    if t.len() > 0 {
        let p = ops.drop_last();
        if ops.len() > 0 {
            lemma_len_push(p, ops.last());
            assert(p.push(ops.last()) =~= ops);
        }
        if ops.len() > 0 && ops.last() is Insert {
            lemma_len_push(p, Op::Insert(ops.last()->Insert_0 + t));
        } else if ops.len() > 1 && ops.last() is Delete && ops[ops.len() - 2] is Insert {
            let q = p.drop_last();
            let ins = Op::Insert(ops[ops.len() - 2]->Insert_0 + t);
            lemma_len_push(q, p.last());
            assert(q.push(p.last()) =~= p);
            assert(p.last() == ops[ops.len() - 2]);
            lemma_len_push(q, ins);
            lemma_len_push(q.push(ins), ops.last());
        } else if ops.len() > 0 && ops.last() is Delete {
            lemma_len_push(p, Op::Insert(t));
            lemma_len_push(p.push(Op::Insert(t)), ops.last());
        } else {
            lemma_len_push(ops, Op::Insert(t));
        }
    }
}

/// The operations of ordered edits walk the old text up to the end of the last edit, and
/// produce no less text as edits are added.
proof fn lemma_edit_ops(changes: Seq<(usize, usize, Option<Seq<char>>)>, len: int)
    requires
        edits_ordered(changes, len),
    ensures
        len_before(edit_ops(changes)) == edits_end(changes),
        forall|k: int|
            0 <= k <= changes.len() ==> len_after(edit_ops(#[trigger] changes.take(k))) <= len_after(
                edit_ops(changes),
            ),
        forall|k: int| 0 <= k <= changes.len() ==> edits_ordered(#[trigger] changes.take(k), len),
    decreases changes.len(),
{
    if changes.len() > 0 {
        let prev = changes.drop_last();
        assert(edits_ordered(prev, len)) by {
            if prev.len() > 0 {
                assert(prev.last().1 <= changes.last().0);
            }
        }
        lemma_edit_ops(prev, len);
        let (from, to, t) = changes.last();
        let last = if changes.len() > 1 {
            changes[changes.len() - 2].1 as int
        } else {
            0
        };
        let ops0 = edit_ops(prev);
        let ops1 = retained(ops0, (from - last) as nat);
        lemma_retained_len(ops0, (from - last) as nat);
        match t {
            Some(t) => {
                lemma_inserted_len(ops1, t);
                lemma_deleted_len(inserted(ops1, t), (to - from) as nat);
            },
            None => {
                lemma_deleted_len(ops1, (to - from) as nat);
            },
        }
        assert forall|k: int| 0 <= k <= changes.len() implies len_after(
            edit_ops(#[trigger] changes.take(k)),
        ) <= len_after(edit_ops(changes)) by {
            if k < changes.len() {
                assert(changes.take(k) =~= prev.take(k));
            } else {
                assert(changes.take(k) =~= changes);
            }
        }
        assert forall|k: int| 0 <= k <= changes.len() implies edits_ordered(
            #[trigger] changes.take(k),
            len,
        ) by {
            if k < changes.len() {
                assert(changes.take(k) =~= prev.take(k));
            } else {
                assert(changes.take(k) =~= changes);
            }
        }
    } else {
        assert(changes.take(0) =~= changes);
    }
}

/// The change set that replaces each `from..to` of `changes` by its text, or deletes it; the
/// edits are in order and do not overlap.
pub fn change(text: &Text, changes: &Vec<(usize, usize, Option<String>)>) -> (cs: ChangeSet)
    requires
        edits_fit(edit_views(changes@), text@.len() as int),
    ensures
        cs@ == retained(
            edit_ops(edit_views(changes@)),
            (text@.len() - edits_end(edit_views(changes@))) as nat,
        ),
{
    let ghost ev = edit_views(changes@);
    let len = text.len_chars();
    let mut cs = ChangeSet::empty();
    let mut last: usize = 0;
    proof {
        lemma_edit_ops(ev, len as int);
    }
    let mut i: usize = 0;
    while i < changes.len()
        invariant
            ev == edit_views(changes@),
            len == text@.len(),
            edits_fit(ev, len as int),
            i <= changes@.len(),
            cs@ == edit_ops(ev.take(i as int)),
            last == edits_end(ev.take(i as int)),
            len_before(cs@) == last,
            forall|k: int|
                0 <= k <= ev.len() ==> len_after(edit_ops(#[trigger] ev.take(k))) <= len_after(
                    edit_ops(ev),
                ),
            forall|k: int| 0 <= k <= ev.len() ==> edits_ordered(#[trigger] ev.take(k), len as int),
        decreases changes@.len() - i,
    {
        let ghost t1 = ev.take(i + 1);
        assert(t1.drop_last() =~= ev.take(i as int));
        assert(t1.last() == ev[i as int]);
        assert(ev[i as int] == (changes@[i as int].0, changes@[i as int].1, match changes@[
            i as int
        ].2 {
            Some(t) => Some(t@),
            None => None,
        }));
        proof {
            assert(edits_ordered(t1, len as int));
            assert(edits_ordered(ev, len as int));
            if i > 0 {
                assert(ev.take(i as int).last() == ev[i - 1]);
                assert(t1[t1.len() - 2] == ev[i - 1]);
            }
            lemma_edit_ops(t1, len as int);
            let ops0 = edit_ops(ev.take(i as int));
            let r = retained(ops0, (ev[i as int].0 - last) as nat);
            lemma_retained_len(ops0, (ev[i as int].0 - last) as nat);
            match ev[i as int].2 {
                Some(tv) => {
                    lemma_inserted_len(r, tv);
                    lemma_deleted_len(inserted(r, tv), (ev[i as int].1 - ev[i as int].0) as nat);
                },
                None => {
                    lemma_deleted_len(r, (ev[i as int].1 - ev[i as int].0) as nat);
                },
            }
            assert(len_after(edit_ops(t1)) <= len_after(edit_ops(ev)));
        }
        let from = changes[i].0;
        let to = changes[i].1;
        cs.retain(from - last);
        match &changes[i].2 {
            Some(t) => {
                proof {
                    lemma_inserted_len(cs@, t@);
                }
                cs.insert(t.clone());
                cs.delete(to - from);
            },
            None => {
                cs.delete(to - from);
            },
        }
        last = to;
        i += 1;
    }
    assert(ev.take(changes@.len() as int) =~= ev);
    proof {
        lemma_retained_len(cs@, (len - last) as nat);
    }
    cs.retain(len - last);
    cs
}

/// Inserting `t` at the position `p` of a text of `len` chars (`change` with one insertion)
/// moves the positions after `p` by the length of `t`; a position at `p` stays before the
/// inserted text with `Assoc::Before` and moves after it with `Assoc::After`.
pub proof fn law_insertion_moves_positions(len: int, p: int, t: Seq<char>, x: int)
    requires
        0 <= p <= len <= usize::MAX,
        0 <= x <= len,
        t.len() > 0,
    ensures
        ({
            let ops = retained(
                edit_ops(seq![(p as usize, p as usize, Some(t))]),
                (len - p) as nat,
            );
            &&& map_pos_spec(ops, x, Assoc::Before) == if x <= p {
                x
            } else {
                x + t.len()
            }
            &&& map_pos_spec(ops, x, Assoc::After) == if x < p {
                x
            } else {
                x + t.len()
            }
        }),
{
    let e = seq![(p as usize, p as usize, Some(t))];
    assert(e.last() == (p as usize, p as usize, Some(t)));
    assert(e.drop_last() =~= Seq::<(usize, usize, Option<Seq<char>>)>::empty());
    assert(edit_ops(e.drop_last()) == Seq::<Op>::empty());
    let r0 = retained(Seq::<Op>::empty(), p as nat);
    let ins = inserted(r0, t);
    assert(edit_ops(e) == deleted(ins, 0));
    let ops = retained(ins, (len - p) as nat);
    if p > 0 {
        assert(r0 == seq![Op::Retain(p as nat)]);
        assert(ins == seq![Op::Retain(p as nat), Op::Insert(t)]);
        if len > p {
            assert(ops == seq![Op::Retain(p as nat), Op::Insert(t), Op::Retain((len - p) as nat)]);
        } else {
            assert(ops == ins);
        }
    } else {
        assert(r0 == Seq::<Op>::empty());
        assert(ins == seq![Op::Insert(t)]);
        if len > p {
            assert(ops == seq![Op::Insert(t), Op::Retain((len - p) as nat)]);
        } else {
            assert(ops == ins);
        }
    }
    reveal_with_fuel(map_from, 4);
}

/// Deleting the chars `a..b` of a text of `len` chars (`change` with one deletion) moves every
/// position in the deleted range to `a`, and the positions after it back by its length.
pub proof fn law_deletion_collapses_positions(len: int, a: int, b: int, x: int, assoc: Assoc)
    requires
        0 <= a < b <= len <= usize::MAX,
        0 <= x <= len,
    ensures
        map_pos_spec(
            retained(edit_ops(seq![(a as usize, b as usize, None)]), (len - b) as nat),
            x,
            assoc,
        ) == if x <= a {
            x
        } else if x <= b {
            a
        } else {
            x - (b - a)
        },
{
    let e = seq![(a as usize, b as usize, None::<Seq<char>>)];
    assert(e.last() == (a as usize, b as usize, None::<Seq<char>>));
    assert(e.drop_last() =~= Seq::<(usize, usize, Option<Seq<char>>)>::empty());
    assert(edit_ops(e.drop_last()) == Seq::<Op>::empty());
    let r0 = retained(Seq::<Op>::empty(), a as nat);
    let del = deleted(r0, (b - a) as nat);
    assert(edit_ops(e) == del);
    let ops = retained(del, (len - b) as nat);
    if a > 0 {
        assert(r0 == seq![Op::Retain(a as nat)]);
        assert(del == seq![Op::Retain(a as nat), Op::Delete((b - a) as nat)]);
        if len > b {
            assert(ops == seq![
                Op::Retain(a as nat),
                Op::Delete((b - a) as nat),
                Op::Retain((len - b) as nat),
            ]);
        } else {
            assert(ops == del);
        }
    } else {
        assert(r0 == Seq::<Op>::empty());
        assert(del == seq![Op::Delete((b - a) as nat)]);
        if len > b {
            assert(ops == seq![Op::Delete((b - a) as nat), Op::Retain((len - b) as nat)]);
        } else {
            assert(ops == del);
        }
    }
    reveal_with_fuel(map_from, 4);
}

} // verus!
