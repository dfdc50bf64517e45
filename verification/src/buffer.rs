//! The text buffer and cursor engine: a document is an ordered sequence of
//! lines, each line a sequence of bytes, with a single cursor.  Every
//! keystroke reduces to one of the mutation operations defined here.
//!
//! Indexing unit: cursor columns, insertion offsets and movement all use raw
//! byte offsets into a line, uniformly.  A character inserted by
//! [`insert_char`] occupies as many units as its UTF-8 encoding has bytes.
//!
//! Out-of-range cursors (possible after an external reset of the document)
//! are clamped defensively, never signalled: no operation here panics.

use vstd::prelude::*;

verus! {

/// The byte that separates lines in a flat document text.
pub const LINE_SEPARATOR: u8 = 10;

/// An edit position: a line index into the document and a byte offset into
/// that line.
#[derive(Clone, Copy, Debug, PartialEq, Eq, Structural)]
pub struct Cursor {
    pub line: usize,
    pub col: usize,
}

/// A document under edit, together with its cursor.
///
/// Invariant (see [`EditorState::wf`]): there is always at least one line,
/// the cursor's line index is valid, and its column is at most the addressed
/// line's length.  Every operation in this module reestablishes it.
#[derive(Debug)]
pub struct EditorState {
    pub lines: Vec<Vec<u8>>,
    pub cursor: Cursor,
}

/// The mathematical view of a line list: a sequence of byte sequences.
pub open spec fn line_views(lines: Seq<Vec<u8>>) -> Seq<Seq<u8>> {
    lines.map_values(|l: Vec<u8>| l@)
}

impl EditorState {
    /// The document as a sequence of byte-sequence lines.
    pub open spec fn lines_view(self) -> Seq<Seq<u8>> {
        line_views(self.lines@)
    }

    /// The bytes of line `i`.
    pub open spec fn line_at(self, i: int) -> Seq<u8> {
        self.lines@[i]@
    }

    /// The editing invariant: a document is never empty, the cursor addresses
    /// an existing line, and its column does not pass that line's end.
    pub open spec fn wf(self) -> bool {
        &&& self.lines@.len() >= 1
        &&& (self.cursor.line as int) < self.lines@.len()
        &&& (self.cursor.col as int) <= self.line_at(self.cursor.line as int).len()
    }
}

impl Default for EditorState {
    /// An empty document: one empty line, cursor at its start.
    fn default() -> (s: EditorState)
        ensures
            s.wf(),
            s.lines_view() == seq![Seq::<u8>::empty()],
            s.cursor == (Cursor { line: 0, col: 0 }),
    {
        let mut lines: Vec<Vec<u8>> = Vec::new();
        lines.push(Vec::new());
        let s = EditorState { lines, cursor: Cursor { line: 0, col: 0 } };
        proof {
            assert(s.lines_view() =~= seq![Seq::<u8>::empty()]);
        }
        s
    }
}

/// The UTF-8 encoding of one character, as the bytes that [`insert_char`]
/// splices into a line.
pub fn encode_char(c: char) -> (r: Vec<u8>)
    ensures
        r@ == vstd::utf8::encode_scalar(c as u32),
        1 <= r@.len() <= 4,
{
    broadcast use vstd::utf8::char_is_scalar;

    let u = c as u32;
    let mut r: Vec<u8> = Vec::new();
    if u <= 0x7F {
        r.push((u & 0x7F) as u8);
    } else if u <= 0x7FF {
        r.push(0xC0 | ((u >> 6) & 0x1F) as u8);
        r.push(0x80 | (u & 0x3F) as u8);
    } else if u <= 0xFFFF {
        r.push(0xE0 | ((u >> 12) & 0x0F) as u8);
        r.push(0x80 | ((u >> 6) & 0x3F) as u8);
        r.push(0x80 | (u & 0x3F) as u8);
    } else {
        r.push(0xF0 | ((u >> 18) & 0x7) as u8);
        r.push(0x80 | ((u >> 12) & 0x3F) as u8);
        r.push(0x80 | ((u >> 6) & 0x3F) as u8);
        r.push(0x80 | (u & 0x3F) as u8);
    }
    proof {
        assert(r@ =~= vstd::utf8::encode_scalar(u));
    }
    r
}

/// The line list after the defensive part of an insertion: an empty document
/// becomes one empty line, and a cursor whose line index is out of range gets
/// a fresh empty line appended for it.
pub open spec fn grown_lines(s: EditorState) -> Seq<Seq<u8>> {
    let ls = if s.lines@.len() == 0 {
        seq![Seq::<u8>::empty()]
    } else {
        s.lines_view()
    };
    if s.cursor.line as int >= ls.len() {
        ls.push(Seq::<u8>::empty())
    } else {
        ls
    }
}

/// The line an insertion lands on: the cursor's line when valid, otherwise
/// the freshly appended one.
pub open spec fn grown_line(s: EditorState) -> int {
    let ls = if s.lines@.len() == 0 {
        seq![Seq::<u8>::empty()]
    } else {
        s.lines_view()
    };
    if (s.cursor.line as int) < ls.len() {
        s.cursor.line as int
    } else {
        ls.len() as int
    }
}

/// The column an insertion lands on: the cursor's column, clamped to the
/// target line's length.
pub open spec fn grown_col(s: EditorState) -> int {
    vstd::math::min(s.cursor.col as int, grown_lines(s)[grown_line(s)].len() as int)
}

/// In a well-formed state the defensive pre-pass of an insertion changes
/// nothing.
pub proof fn lemma_grown_wf(s: EditorState)
    requires
        s.wf(),
    ensures
        grown_lines(s) == s.lines_view(),
        grown_line(s) == s.cursor.line as int,
        grown_col(s) == s.cursor.col as int,
{
    assert(grown_lines(s) =~= s.lines_view());
}

/// The defensive pre-pass of an insertion, in place: an empty document
/// becomes one empty line, a cursor on a missing line gets a fresh empty
/// line appended for it, and an overlong column is clamped.
fn grow_for_insert(s: &mut EditorState)
    ensures
        final(s).wf(),
        final(s).lines_view() == grown_lines(*old(s)),
        final(s).cursor.line == grown_line(*old(s)),
        final(s).cursor.col == grown_col(*old(s)),
{
    let ghost pre = *s;
    if s.lines.len() == 0 {
        s.lines.push(Vec::new());
    }
    if s.cursor.line >= s.lines.len() {
        s.lines.push(Vec::new());
        s.cursor.line = s.lines.len() - 1;
    }
    let idx = s.cursor.line;
    let line_len = s.lines[idx].len();
    if s.cursor.col > line_len {
        s.cursor.col = line_len;
    }
    proof {
        assert(line_views(s.lines@) =~= grown_lines(pre));
    }
}

/// Inserts one character at the cursor, as its UTF-8 bytes; the column
/// advances by the inserted unit count.  A cursor on a missing line first
/// gets a new empty line appended (and an overlong column is clamped).
pub fn insert_char(s: &mut EditorState, ch: char)
    ensures
        final(s).wf(),
        ({
            let ls = grown_lines(*old(s));
            let l = grown_line(*old(s));
            let c = grown_col(*old(s));
            let enc = vstd::utf8::encode_scalar(ch as u32);
            &&& final(s).lines_view() == ls.update(l, ls[l].take(c) + enc + ls[l].skip(c))
            &&& final(s).cursor.line == l
            &&& final(s).cursor.col == c + enc.len()
        }),
        old(s).wf() ==> final(s).lines@.len() == old(s).lines@.len(),
{
    let ghost pre = *s;
    grow_for_insert(s);
    let idx = s.cursor.line;
    let col = s.cursor.col;
    let mut enc = encode_char(ch);
    let mut tail = s.lines[idx].split_off(col);
    s.lines[idx].append(&mut enc);
    s.cursor.col = s.lines[idx].len();
    s.lines[idx].append(&mut tail);
    proof {
        let ls = grown_lines(pre);
        let l = grown_line(pre);
        let c = grown_col(pre);
        let e = vstd::utf8::encode_scalar(ch as u32);
        assert(s.line_at(l) =~= ls[l].take(c) + e + ls[l].skip(c));
        assert(s.lines_view() =~= ls.update(l, ls[l].take(c) + e + ls[l].skip(c)));
    }
}

/// The line list after the defensive part of a non-inserting operation: an
/// empty document becomes one empty line; nothing else changes.
pub open spec fn norm_lines(s: EditorState) -> Seq<Seq<u8>> {
    if s.lines@.len() == 0 {
        seq![Seq::<u8>::empty()]
    } else {
        s.lines_view()
    }
}

/// The cursor's line index clamped into the document.
pub open spec fn clamped_line(s: EditorState) -> int {
    vstd::math::min(s.cursor.line as int, norm_lines(s).len() - 1)
}

/// The cursor's column clamped to the clamped line's length.
pub open spec fn clamped_col(s: EditorState) -> int {
    vstd::math::min(s.cursor.col as int, norm_lines(s)[clamped_line(s)].len() as int)
}

/// Reestablishes the invariant in place: an empty document becomes one empty
/// line, and the cursor is clamped into range.  A well-formed state is left
/// untouched.
fn reclamp(s: &mut EditorState)
    ensures
        final(s).wf(),
        final(s).lines_view() == norm_lines(*old(s)),
        final(s).cursor.line == clamped_line(*old(s)),
        final(s).cursor.col == clamped_col(*old(s)),
        old(s).lines@.len() >= 1 ==> final(s).lines == old(s).lines,
        old(s).wf() ==> *final(s) == *old(s),
{
    let ghost pre = *s;
    if s.lines.len() == 0 {
        s.lines.push(Vec::new());
    }
    if s.cursor.line >= s.lines.len() {
        s.cursor.line = s.lines.len() - 1;
    }
    let ll = s.lines[s.cursor.line].len();
    if s.cursor.col > ll {
        s.cursor.col = ll;
    }
    proof {
        assert(s.lines_view() =~= norm_lines(pre));
    }
}

/// Removes the unit before the cursor, or, at a column of zero on a line
/// `L > 0`, merges line `L` into the end of line `L - 1` and leaves the
/// cursor exactly at the former end of line `L - 1`; at the very start of
/// the document it does nothing.
pub fn backspace(s: &mut EditorState)
    ensures
        final(s).wf(),
        ({
            let ls = norm_lines(*old(s));
            let l = clamped_line(*old(s));
            let c = clamped_col(*old(s));
            &&& c > 0 ==> {
                &&& final(s).lines_view() == ls.update(l, ls[l].take(c - 1) + ls[l].skip(c))
                &&& final(s).cursor == (Cursor { line: l as usize, col: (c - 1) as usize })
            }
            &&& c == 0 && l > 0 ==> {
                &&& final(s).lines_view() == ls.update(l - 1, ls[l - 1] + ls[l]).remove(l)
                &&& final(s).lines@.len() == ls.len() - 1
                &&& final(s).line_at(l - 1).len() == ls[l - 1].len() + ls[l].len()
                &&& final(s).cursor == (Cursor { line: (l - 1) as usize, col: ls[l - 1].len() as usize })
            }
            &&& c == 0 && l == 0 ==> {
                &&& final(s).lines_view() == ls
                &&& final(s).cursor == (Cursor { line: 0, col: 0 })
            }
        }),
{
    let ghost pre = *s;
    reclamp(s);
    let idx = s.cursor.line;
    let col = s.cursor.col;
    if col > 0 {
        s.lines[idx].remove(col - 1);
        s.cursor.col = col - 1;
        proof {
            let ls = norm_lines(pre);
            let l = clamped_line(pre);
            let c = clamped_col(pre);
            assert(s.line_at(l) =~= ls[l].take(c - 1) + ls[l].skip(c));
            assert(s.lines_view() =~= ls.update(l, ls[l].take(c - 1) + ls[l].skip(c)));
        }
    } else if idx > 0 {
        let mut tail = s.lines.remove(idx);
        let prev = idx - 1;
        let plen = s.lines[prev].len();
        s.lines[prev].append(&mut tail);
        s.cursor = Cursor { line: prev, col: plen };
        proof {
            let ls = norm_lines(pre);
            let l = clamped_line(pre);
            assert(s.lines_view() =~= ls.update(l - 1, ls[l - 1] + ls[l]).remove(l));
        }
    }
}

/// Splits the current line at the cursor: the tail becomes a new line
/// immediately after, and the cursor moves to the start of that new line.
pub fn newline(s: &mut EditorState)
    ensures
        final(s).wf(),
        ({
            let ls = norm_lines(*old(s));
            let l = clamped_line(*old(s));
            let c = clamped_col(*old(s));
            &&& final(s).lines_view() == ls.update(l, ls[l].take(c)).insert(l + 1, ls[l].skip(c))
            &&& final(s).lines@.len() == ls.len() + 1
            &&& final(s).line_at(l) == ls[l].take(c)
            &&& final(s).line_at(l + 1) == ls[l].skip(c)
            &&& final(s).cursor == (Cursor { line: (l + 1) as usize, col: 0 })
        }),
{
    let ghost pre = *s;
    reclamp(s);
    let idx = s.cursor.line;
    let col = s.cursor.col;
    let tail = s.lines[idx].split_off(col);
    proof {
        assert(idx < s.lines.len());
    }
    s.lines.insert(idx + 1, tail);
    s.cursor = Cursor { line: idx + 1, col: 0 };
    proof {
        let ls = norm_lines(pre);
        let l = clamped_line(pre);
        let c = clamped_col(pre);
        assert(s.lines_view() =~= ls.update(l, ls[l].take(c)).insert(l + 1, ls[l].skip(c)));
    }
}

/// Moves one unit left, wrapping to the end of the previous line at a line
/// start; never wraps past the first line.  Pure cursor motion: the document
/// text is untouched.
pub fn move_left(s: &mut EditorState)
    ensures
        final(s).wf(),
        old(s).lines@.len() >= 1 ==> final(s).lines == old(s).lines,
        final(s).lines_view() == norm_lines(*old(s)),
        ({
            let ls = norm_lines(*old(s));
            let l = clamped_line(*old(s));
            let c = clamped_col(*old(s));
            &&& c > 0 ==> final(s).cursor == (Cursor { line: l as usize, col: (c - 1) as usize })
            &&& c == 0 && l > 0 ==> final(s).cursor == (Cursor {
                line: (l - 1) as usize,
                col: ls[l - 1].len() as usize,
            })
            &&& c == 0 && l == 0 ==> final(s).cursor == (Cursor { line: 0, col: 0 })
        }),
{
    reclamp(s);
    if s.cursor.col > 0 {
        s.cursor.col = s.cursor.col - 1;
    } else if s.cursor.line > 0 {
        s.cursor.line = s.cursor.line - 1;
        s.cursor.col = s.lines[s.cursor.line].len();
    }
}

/// Moves one unit right, wrapping to the start of the next line at a line
/// end; never wraps past the last line.  Pure cursor motion.
pub fn move_right(s: &mut EditorState)
    ensures
        final(s).wf(),
        old(s).lines@.len() >= 1 ==> final(s).lines == old(s).lines,
        final(s).lines_view() == norm_lines(*old(s)),
        ({
            let ls = norm_lines(*old(s));
            let l = clamped_line(*old(s));
            let c = clamped_col(*old(s));
            &&& c < ls[l].len() ==> final(s).cursor == (Cursor { line: l as usize, col: (c + 1) as usize })
            &&& c == ls[l].len() && l + 1 < ls.len() ==> final(s).cursor == (Cursor {
                line: (l + 1) as usize,
                col: 0,
            })
            &&& c == ls[l].len() && l + 1 == ls.len() ==> final(s).cursor == (Cursor {
                line: l as usize,
                col: c as usize,
            })
        }),
{
    reclamp(s);
    let idx = s.cursor.line;
    if s.cursor.col < s.lines[idx].len() {
        s.cursor.col = s.cursor.col + 1;
    } else {
        let nlines = s.lines.len();
        if idx + 1 < nlines {
            s.cursor.line = idx + 1;
            s.cursor.col = 0;
        }
    }
}

/// Moves the cursor one line up when possible, clamping the column to the
/// target line's length; on the first line only the clamping applies.
pub fn move_up(s: &mut EditorState)
    ensures
        final(s).wf(),
        old(s).lines@.len() >= 1 ==> final(s).lines == old(s).lines,
        final(s).lines_view() == norm_lines(*old(s)),
        ({
            let ls = norm_lines(*old(s));
            let l = clamped_line(*old(s));
            let c = clamped_col(*old(s));
            &&& l > 0 ==> final(s).cursor == (Cursor {
                line: (l - 1) as usize,
                col: vstd::math::min(c, ls[l - 1].len() as int) as usize,
            })
            &&& l == 0 ==> final(s).cursor == (Cursor { line: 0, col: c as usize })
        }),
{
    reclamp(s);
    if s.cursor.line > 0 {
        let target = s.cursor.line - 1;
        s.cursor.line = target;
        let ll = s.lines[target].len();
        if s.cursor.col > ll {
            s.cursor.col = ll;
        }
    }
}

/// Moves the cursor one line down when possible, clamping the column to the
/// target line's length; on the last line only the clamping applies.
pub fn move_down(s: &mut EditorState)
    ensures
        final(s).wf(),
        old(s).lines@.len() >= 1 ==> final(s).lines == old(s).lines,
        final(s).lines_view() == norm_lines(*old(s)),
        ({
            let ls = norm_lines(*old(s));
            let l = clamped_line(*old(s));
            let c = clamped_col(*old(s));
            &&& l + 1 < ls.len() ==> final(s).cursor == (Cursor {
                line: (l + 1) as usize,
                col: vstd::math::min(c, ls[l + 1].len() as int) as usize,
            })
            &&& l + 1 == ls.len() ==> final(s).cursor == (Cursor { line: l as usize, col: c as usize })
        }),
{
    reclamp(s);
    let idx = s.cursor.line;
    let nlines = s.lines.len();
    if idx + 1 < nlines {
        let target = idx + 1;
        s.cursor.line = target;
        let ll = s.lines[target].len();
        if s.cursor.col > ll {
            s.cursor.col = ll;
        }
    }
}

/// Appending a character to a sequence appends its scalar encoding to the
/// sequence's UTF-8 encoding.
pub proof fn lemma_encode_utf8_push(p: Seq<char>, x: char)
    ensures
        vstd::utf8::encode_utf8(p.push(x)) == vstd::utf8::encode_utf8(p) + vstd::utf8::encode_scalar(
            x as u32,
        ),
    decreases p.len(),
{
    if p.len() == 0 {
        assert(p.push(x)[0] == x);
        assert(p.push(x).drop_first() =~= p);
        assert(vstd::utf8::encode_utf8(p.push(x)) =~= vstd::utf8::encode_utf8(p)
            + vstd::utf8::encode_scalar(x as u32));
    } else {
        lemma_encode_utf8_push(p.drop_first(), x);
        assert(p.push(x).drop_first() =~= p.drop_first().push(x));
        assert(vstd::utf8::encode_utf8(p.push(x)) =~= vstd::utf8::encode_utf8(p)
            + vstd::utf8::encode_scalar(x as u32));
    }
}

/// Inserts each character of `s` in order at the cursor (so the net effect
/// is splicing the UTF-8 encoding of the whole string in at the insertion
/// point).  Literal separators in `t` are not special-cased: a caller that
/// wants a line break calls [`newline`].
pub fn insert_str(s: &mut EditorState, t: &str)
    ensures
        final(s).wf(),
        ({
            let ls = grown_lines(*old(s));
            let l = grown_line(*old(s));
            let c = grown_col(*old(s));
            let enc = vstd::utf8::encode_utf8(t@);
            &&& final(s).lines_view() == ls.update(l, ls[l].take(c) + enc + ls[l].skip(c))
            &&& final(s).cursor.line == l
            &&& final(s).cursor.col == c + enc.len()
        }),
{
    let ghost ls = grown_lines(*s);
    let ghost l = grown_line(*s);
    let ghost c = grown_col(*s);
    grow_for_insert(s);
    proof {
        assert(vstd::utf8::encode_utf8(t@.take(0)) =~= Seq::<u8>::empty());
        assert(0 <= l < ls.len());
        assert(0 <= c <= ls[l].len());
        assert(ls[l].take(c) + vstd::utf8::encode_utf8(t@.take(0)) + ls[l].skip(c) =~= ls[l]);
        assert(ls.update(l, ls[l].take(c) + vstd::utf8::encode_utf8(t@.take(0)) + ls[l].skip(c))
            =~= ls);
    }
    let n = t.unicode_len();
    let mut i: usize = 0;
    while i < n
        invariant
            n == t@.len(),
            i <= n,
            s.wf(),
            s.lines_view() == ls.update(
                l,
                ls[l].take(c) + vstd::utf8::encode_utf8(t@.take(i as int)) + ls[l].skip(c),
            ),
            s.cursor.line == l,
            s.cursor.col == c + vstd::utf8::encode_utf8(t@.take(i as int)).len(),
            0 <= l < ls.len(),
            0 <= c <= ls[l].len(),
        decreases n - i,
    {
        let ch = t.get_char(i);
        let ghost mid = *s;
        insert_char(s, ch);
        proof {
            lemma_encode_utf8_push(t@.take(i as int), ch);
            assert(t@.take(i + 1) =~= t@.take(i as int).push(t@[i as int]));
            lemma_grown_wf(mid);
            let line = mid.lines_view()[l];
            assert(line.take(mid.cursor.col as int) =~= ls[l].take(c) + vstd::utf8::encode_utf8(
                t@.take(i as int),
            ));
            assert(line.skip(mid.cursor.col as int) =~= ls[l].skip(c));
            assert(line.take(mid.cursor.col as int) + vstd::utf8::encode_scalar(ch as u32)
                + line.skip(mid.cursor.col as int) =~= ls[l].take(c) + vstd::utf8::encode_utf8(
                t@.take(i + 1),
            ) + ls[l].skip(c));
            assert(s.lines_view() =~= ls.update(
                l,
                ls[l].take(c) + vstd::utf8::encode_utf8(t@.take(i + 1)) + ls[l].skip(c),
            ));
        }
        i = i + 1;
    }
    proof {
        assert(t@.take(n as int) =~= t@);
    }
}

/// The flat text that a line list stands for: the lines joined by the line
/// separator.
pub open spec fn spec_join(lines: Seq<Seq<u8>>) -> Seq<u8>
    decreases lines.len(),
{
    if lines.len() == 0 {
        Seq::<u8>::empty()
    } else if lines.len() == 1 {
        lines[0]
    } else {
        lines[0] + seq![LINE_SEPARATOR] + spec_join(lines.drop_first())
    }
}

/// Joining after appending one more line appends a separator and that line.
pub proof fn lemma_spec_join_push(lines: Seq<Seq<u8>>, l: Seq<u8>)
    ensures
        lines.len() == 0 ==> spec_join(lines.push(l)) == l,
        lines.len() > 0 ==> spec_join(lines.push(l)) == spec_join(lines) + seq![LINE_SEPARATOR] + l,
    decreases lines.len(),
{
    if lines.len() == 0 {
        assert(spec_join(lines.push(l)) == lines.push(l)[0]);
        assert(lines.push(l)[0] == l);
    } else if lines.len() == 1 {
        assert(lines.push(l).drop_first() =~= seq![l]);
        assert(spec_join(seq![l]) == l);
        assert(lines.push(l)[0] == lines[0]);
        assert(spec_join(lines.push(l)) == lines.push(l)[0] + seq![LINE_SEPARATOR] + spec_join(
            lines.push(l).drop_first(),
        ));
        assert(spec_join(lines.push(l)) =~= lines[0] + seq![LINE_SEPARATOR] + l);
        assert(spec_join(lines) == lines[0]);
    } else {
        lemma_spec_join_push(lines.drop_first(), l);
        assert(lines.push(l).drop_first() =~= lines.drop_first().push(l));
        assert(spec_join(lines.push(l)) =~= spec_join(lines) + seq![LINE_SEPARATOR] + l);
    }
}

/// Rejoins a line list into one flat text, with one separator between
/// consecutive lines: the inverse of [`split_lines_vec`] for the lists it
/// produces.
pub fn join_lines(lines: &Vec<Vec<u8>>) -> (r: Vec<u8>)
    ensures
        r@ == spec_join(line_views(lines@)),
{
    let mut r: Vec<u8> = Vec::new();
    let mut i: usize = 0;
    proof {
        assert(line_views(lines@).take(0) =~= Seq::<Seq<u8>>::empty());
    }
    while i < lines.len()
        invariant
            i <= lines@.len(),
            r@ == spec_join(line_views(lines@).take(i as int)),
        decreases lines@.len() - i,
    {
        let ghost pre = r@;
        if i > 0 {
            r.push(LINE_SEPARATOR);
        }
        let n = lines[i].len();
        let mut j: usize = 0;
        while j < n
            invariant
                i < lines@.len(),
                n == lines@[i as int]@.len(),
                j <= n,
                r@ == (if i > 0 {
                    pre + seq![LINE_SEPARATOR]
                } else {
                    pre
                }) + lines@[i as int]@.take(j as int),
            decreases n - j,
        {
            let b = lines[i][j];
            r.push(b);
            proof {
                assert(lines@[i as int]@.take(j + 1) =~= lines@[i as int]@.take(j as int).push(
                    lines@[i as int]@[j as int],
                ));
                assert(r@ =~= (if i > 0 {
                    pre + seq![LINE_SEPARATOR]
                } else {
                    pre
                }) + lines@[i as int]@.take(j + 1));
            }
            j = j + 1;
        }
        proof {
            let lv = line_views(lines@);
            assert(lines@[i as int]@.take(n as int) =~= lv[i as int]);
            lemma_spec_join_push(lv.take(i as int), lv[i as int]);
            assert(lv.take(i + 1) =~= lv.take(i as int).push(lv[i as int]));
            if i > 0 {
                assert(r@ =~= spec_join(lv.take(i as int)) + seq![LINE_SEPARATOR] + lv[i as int]);
            } else {
                assert(r@ =~= lv[0]);
            }
        }
        i = i + 1;
    }
    proof {
        assert(line_views(lines@).take(lines@.len() as int) =~= line_views(lines@));
    }
    r
}

/// Splits a flat text into its lines at each separator byte.  The result is
/// never empty (empty text gives one empty line), no line contains a
/// separator, and rejoining the lines reproduces `text` exactly: the
/// split/join round trip is part of this contract.
pub fn split_lines_vec(text: &[u8]) -> (r: Vec<Vec<u8>>)
    ensures
        r@.len() >= 1,
        spec_join(line_views(r@)) == text@,
        forall|i: int| 0 <= i < r@.len() ==> !(#[trigger] r@[i]@).contains(LINE_SEPARATOR),
{
    let mut r: Vec<Vec<u8>> = Vec::new();
    let mut cur: Vec<u8> = Vec::new();
    let mut i: usize = 0;
    proof {
        assert(line_views(r@).push(cur@) =~= seq![cur@]);
        assert(spec_join(seq![cur@]) == cur@);
        assert(cur@ =~= text@.take(0));
    }
    while i < text.len()
        invariant
            i <= text@.len(),
            spec_join(line_views(r@).push(cur@)) == text@.take(i as int),
            !cur@.contains(LINE_SEPARATOR),
            forall|k: int| 0 <= k < r@.len() ==> !(#[trigger] r@[k]@).contains(LINE_SEPARATOR),
        decreases text@.len() - i,
    {
        let ghost pre_r = r@;
        let ghost pre_cur = cur@;
        let b = text[i];
        if b == LINE_SEPARATOR {
            r.push(cur);
            cur = Vec::new();
            proof {
                let lv = line_views(r@);
                assert(lv =~= line_views(pre_r).push(pre_cur));
                lemma_spec_join_push(lv, cur@);
                lemma_spec_join_push(line_views(pre_r), pre_cur);
                assert(spec_join(lv.push(cur@)) =~= text@.take(i + 1));
            }
        } else {
            cur.push(b);
            proof {
                lemma_spec_join_push(line_views(r@), pre_cur);
                lemma_spec_join_push(line_views(r@), cur@);
                assert(cur@ =~= pre_cur.push(b));
                assert(spec_join(line_views(r@).push(cur@)) =~= text@.take(i + 1));
            }
        }
        i = i + 1;
    }
    let ghost pre_r = r@;
    let ghost pre_cur = cur@;
    r.push(cur);
    proof {
        assert(text@.take(text@.len() as int) =~= text@);
        assert(line_views(r@) =~= line_views(pre_r).push(pre_cur));
    }
    r
}

} // verus!
