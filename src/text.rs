//! Edits of a document's text, as the protocol sends them: ranges given by line and
//! character, replaced by new text.

use vstd::prelude::*;
use crate::server::Position;

verus! {

/// The number of characters before the first line break of `t` (all of `t` if it has none).
pub open spec fn first_line_len(t: Seq<char>) -> nat
    decreases t.len(),
{
    if t.len() == 0 || t[0] == '\n' {
        0
    } else {
        1 + first_line_len(t.drop_first())
    }
}

/// The index in `t` of character `ch` of line `line`. A character past the end of its line
/// stands for the end of the line; a line past the end of the text for the end of the text.
pub open spec fn offset_of(t: Seq<char>, line: nat, ch: nat) -> nat
    decreases t.len(),
{
    if line == 0 {
        if ch <= first_line_len(t) {
            ch
        } else {
            first_line_len(t)
        }
    } else if t.len() == 0 {
        0
    } else if t[0] == '\n' {
        1 + offset_of(t.drop_first(), (line - 1) as nat, ch)
    } else {
        1 + offset_of(t.drop_first(), line, ch)
    }
}

/// `offset_of` never passes the end of the text.
proof fn lemma_offset_bound(t: Seq<char>, line: nat, ch: nat)
    ensures
        first_line_len(t) <= t.len(),
        offset_of(t, line, ch) <= t.len(),
    decreases t.len(),
{
    if t.len() > 0 {
        lemma_offset_bound(t.drop_first(), if t[0] == '\n' && line > 0 { (line - 1) as nat } else { line }, ch);
    }
}

/// The index in `t` of position `p`.
pub fn offset(t: &Vec<char>, p: Position) -> (r: usize)
    ensures
        r == offset_of(t@, p.line as nat, p.character as nat),
        r <= t@.len(),
{
    let mut i: usize = 0;
    let mut line: u32 = p.line;
    proof {
        assert(t@.subrange(0, t@.len() as int) =~= t@);
    }
    while line > 0 && i < t.len()
        invariant
            i <= t@.len(),
            offset_of(t@, p.line as nat, p.character as nat) == i + offset_of(t@.subrange(i as int, t@.len() as int), line as nat, p.character as nat),
        decreases t@.len() - i,
    {
        let ghost rest = t@.subrange(i as int, t@.len() as int);
        assert(rest.drop_first() =~= t@.subrange(i + 1, t@.len() as int));
        if t[i] == '\n' {
            line = line - 1;
        }
        i += 1;
    }
    if line > 0 {
        assert(t@.subrange(i as int, t@.len() as int).len() == 0);
        proof {
            lemma_offset_bound(t@, p.line as nat, p.character as nat);
        }
        return i;
    }
    let start = i;
    let mut k: u32 = 0;
    while k < p.character && i < t.len() && t[i] != '\n'
        invariant
            start <= i <= t@.len(),
            i - start == k,
            k <= p.character,
            first_line_len(t@.subrange(start as int, t@.len() as int)) == k + first_line_len(t@.subrange(i as int, t@.len() as int)),
        decreases t@.len() - i,
    {
        assert(t@.subrange(i as int, t@.len() as int).drop_first() =~= t@.subrange(i + 1, t@.len() as int));
        i += 1;
        k += 1;
    }
    proof {
        lemma_offset_bound(t@.subrange(i as int, t@.len() as int), 0, 0);
    }
    i
}

/// One edit: replace `range` (the whole text when it is `None`) by `text`.
#[derive(Debug)]
pub struct Change {
    /// The range replaced, from its start to its end.
    pub range: Option<(Position, Position)>,
    /// The new text.
    pub text: Vec<char>,
}

/// The text after one edit.
pub open spec fn changed(t: Seq<char>, c: Change) -> Seq<char> {
    match c.range {
        None => c.text@,
        Some((a, b)) => {
            let s = offset_of(t, a.line as nat, a.character as nat);
            let e = offset_of(t, b.line as nat, b.character as nat);
            let e = if e < s { s } else { e };
            t.subrange(0, s as int) + c.text@ + t.subrange(e as int, t.len() as int)
        },
    }
}

/// The earlier of two positions.
pub open spec fn min_pos(a: Position, b: Position) -> Position {
    if a.line < b.line || (a.line == b.line && a.character <= b.character) {
        a
    } else {
        b
    }
}

/// Where an edit starts: the start of its range, or the start of the text.
pub open spec fn change_start(c: Change) -> Position {
    match c.range {
        None => Position { line: 0, character: 0 },
        Some((a, _)) => a,
    }
}

/// Apply one edit to `t`.
pub fn apply_change(t: &Vec<char>, c: &Change) -> (r: Vec<char>)
    ensures
        r@ == changed(t@, *c),
{
    let mut out: Vec<char> = Vec::new();
    match c.range {
        None => {
            copy_into(&mut out, &c.text, 0, c.text.len());
            assert(c.text@.subrange(0, c.text@.len() as int) =~= c.text@);
        },
        Some((a, b)) => {
            let s = offset(t, a);
            let e0 = offset(t, b);
            let e = if e0 < s { s } else { e0 };
            copy_into(&mut out, t, 0, s);
            copy_into(&mut out, &c.text, 0, c.text.len());
            copy_into(&mut out, t, e, t.len());
            assert(c.text@.subrange(0, c.text@.len() as int) =~= c.text@);
            assert(out@ =~= t@.subrange(0, s as int) + c.text@ + t@.subrange(e as int, t@.len() as int));
        },
    }
    out
}

/// Append `src[from..to]` to `out`.
fn copy_into(out: &mut Vec<char>, src: &Vec<char>, from: usize, to: usize)
    requires
        from <= to <= src@.len(),
    ensures
        final(out)@ == old(out)@ + src@.subrange(from as int, to as int),
{
    let mut i = from;
    while i < to
        invariant
            from <= i <= to,
            to <= src@.len(),
            out@ == old(out)@ + src@.subrange(from as int, i as int),
        decreases to - i,
    {
        out.push(src[i]);
        assert(src@.subrange(from as int, i + 1) =~= src@.subrange(from as int, i as int).push(src@[i as int]));
        i += 1;
    }
}

/// The text after the edits of `cs`, in order.
pub open spec fn changed_all(t: Seq<char>, cs: Seq<Change>) -> Seq<char>
    decreases cs.len(),
{
    if cs.len() == 0 {
        t
    } else {
        changed(changed_all(t, cs.drop_last()), cs.last())
    }
}

/// The earliest start of the edits of `cs` (the start of the text when there are none).
pub open spec fn earliest(cs: Seq<Change>) -> Position
    decreases cs.len(),
{
    if cs.len() == 0 {
        Position { line: 0, character: 0 }
    } else if cs.len() == 1 {
        change_start(cs[0])
    } else {
        min_pos(earliest(cs.drop_last()), change_start(cs.last()))
    }
}

/// Apply the edits of `cs` in order, and return the new text with the earliest position any
/// of them changed.
pub fn apply_changes(t: &Vec<char>, cs: &Vec<Change>) -> (r: (Vec<char>, Position))
    ensures
        r.0@ == changed_all(t@, cs@),
        r.1 == earliest(cs@),
{
    let mut cur: Vec<char> = Vec::new();
    copy_into(&mut cur, t, 0, t.len());
    assert(t@.subrange(0, t@.len() as int) =~= t@);
    let mut first = Position { line: 0, character: 0 };
    let mut k: usize = 0;
    assert(cs@.subrange(0, 0) =~= Seq::<Change>::empty());
    while k < cs.len()
        invariant
            k <= cs@.len(),
            cur@ == changed_all(t@, cs@.subrange(0, k as int)),
            first == earliest(cs@.subrange(0, k as int)),
        decreases cs@.len() - k,
    {
        let c = &cs[k];
        let next = apply_change(&cur, c);
        let st = match c.range {
            None => Position { line: 0, character: 0 },
            Some((a, _)) => a,
        };
        let ghost pre = cs@.subrange(0, k as int);
        assert(cs@.subrange(0, k + 1).drop_last() =~= pre);
        assert(cs@.subrange(0, k + 1).last() == cs@[k as int]);
        if k == 0 {
            first = st;
        } else if st.line < first.line || (st.line == first.line && st.character < first.character) {
            first = st;
        }
        proof {
            if k == 1 {
                assert(pre.len() == 1);
            }
        }
        cur = next;
        k += 1;
    }
    assert(cs@.subrange(0, cs@.len() as int) =~= cs@);
    (cur, first)
}

} // verus!
