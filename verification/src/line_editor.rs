//! The kernel shell's line editor: a line buffer with a cursor, a history of 16 lines,
//! completion, and the keys that act on them. What it draws is a list of screen operations
//! for the caller to carry out.
use vstd::prelude::*;
use crate::keyboard::{KEY_LEFT, KEY_RIGHT, KEY_UP, KEY_DOWN, KEY_HOME, KEY_END, KEY_DEL};

verus! {

pub const LINE_MAX: usize = 256;
pub const HIST_SIZE: usize = 16;

/// A drawing step: write a byte at the cursor, move the cursor left, clear the screen, or
/// show the prompt.
#[derive(Clone, Copy, PartialEq, Eq, Structural, Debug)]
pub enum ScreenOp {
    Put(u8),
    Left,
    Clear,
    Prompt,
}

/// `n` copies of `op`.
pub open spec fn rep(op: ScreenOp, n: int) -> Seq<ScreenOp> {
    Seq::new(if n > 0 { n as nat } else { 0 }, |i: int| op)
}

/// The bytes of `s`, each written.
pub open spec fn puts(s: Seq<u8>) -> Seq<ScreenOp> {
    Seq::new(s.len(), |i: int| ScreenOp::Put(s[i]))
}

/// The editor state as plain values.
pub struct EditView {
    pub buf: Seq<u8>,
    pub cursor: int,
    pub history: Seq<Seq<u8>>,
    pub hist_idx: int,
    pub saved: Seq<u8>,
}

/// The line editor.
pub struct LineEditor {
    pub buf: Vec<u8>,
    pub cursor: usize,
    pub history: Vec<Vec<u8>>,
    pub hist_idx: i32,
    pub saved: Vec<u8>,
    pub esc: u8,
}

/// The byte strings of `v`.
pub open spec fn deep(v: Seq<Vec<u8>>) -> Seq<Seq<u8>> {
    Seq::new(v.len(), |i: int| v[i]@)
}

/// What redrawing from the cursor draws: the rest of the line, then the cursor back to
/// where it was (when it is inside a non-empty line).
pub open spec fn redraw_ops(buf: Seq<u8>, cursor: int) -> Seq<ScreenOp> {
    let rest = buf.subrange(cursor, buf.len() as int);
    puts(rest) + (if buf.len() > 0 && cursor < buf.len() { rep(ScreenOp::Put(8), rest.len() as int) } else { Seq::empty() })
}

/// What blanking the line from its start draws after moving home.
pub open spec fn blank_ops(cursor: int, len: int) -> Seq<ScreenOp> {
    rep(ScreenOp::Left, cursor) + rep(ScreenOp::Put(0x20), len) + rep(ScreenOp::Put(8), len)
}

/// Appends `n` copies of `op`.
fn push_rep(out: &mut Vec<ScreenOp>, op: ScreenOp, n: usize)
    ensures
        final(out)@ == old(out)@ + rep(op, n as int),
{
    let mut i: usize = 0;
    while i < n
        invariant
            i <= n,
            out@ == old(out)@ + rep(op, i as int),
        decreases n - i,
    {
        out.push(op);
        assert(out@ =~= old(out)@ + rep(op, i + 1));
        i = i + 1;
    }
}

/// Appends a write of each of `s[from..]`.
fn push_puts(out: &mut Vec<ScreenOp>, s: &Vec<u8>, from: usize)
    requires
        from <= s@.len(),
    ensures
        final(out)@ == old(out)@ + puts(s@.subrange(from as int, s@.len() as int)),
{
    let mut i = from;
    while i < s.len()
        invariant
            from <= i <= s@.len(),
            out@ == old(out)@ + puts(s@.subrange(from as int, i as int)),
        decreases s@.len() - i,
    {
        out.push(ScreenOp::Put(s[i]));
        assert(out@ =~= old(out)@ + puts(s@.subrange(from as int, i + 1)));
        i = i + 1;
    }
}

/// Whether `c` is a space or a tab.
pub open spec fn is_blank(c: u8) -> bool {
    c == 0x20 || c == 9 || c == 10 || c == 11 || c == 12 || c == 13
}

/// The first index of `s` that is not blank, or its length.
pub open spec fn trim_start(s: Seq<u8>, i: int) -> int
    decreases s.len() - i,
{
    if i >= s.len() || i < 0 { s.len() as int } else if !is_blank(s[i]) { i } else { trim_start(s, i + 1) }
}

/// The index after the last byte of `s[..j]` that is not blank, or `lo`.
pub open spec fn trim_end(s: Seq<u8>, lo: int, j: int) -> int
    decreases j - lo,
{
    if j <= lo { lo } else if !is_blank(s[j - 1]) { j } else { trim_end(s, lo, j - 1) }
}

/// `s` without leading and trailing white space.
pub open spec fn trimmed(s: Seq<u8>) -> Seq<u8> {
    let a = trim_start(s, 0);
    s.subrange(a, trim_end(s, a, s.len() as int))
}

/// The bytes of `s` without leading and trailing white space.
pub fn trim_bytes(s: &Vec<u8>) -> (r: Vec<u8>)
    ensures
        r@ == trimmed(s@),
{
    let mut a: usize = 0;
    while a < s.len() && (s[a] == 0x20 || s[a] == 9 || s[a] == 10 || s[a] == 11 || s[a] == 12 || s[a] == 13)
        invariant
            a <= s@.len(),
            trim_start(s@, a as int) == trim_start(s@, 0),
        decreases s@.len() - a,
    {
        a = a + 1;
    }
    let mut b: usize = s.len();
    while b > a && (s[b - 1] == 0x20 || s[b - 1] == 9 || s[b - 1] == 10 || s[b - 1] == 11 || s[b - 1] == 12 || s[b - 1] == 13)
        invariant
            a <= b <= s@.len(),
            a == trim_start(s@, 0),
            trim_end(s@, a as int, b as int) == trim_end(s@, a as int, s@.len() as int),
        decreases b,
    {
        b = b - 1;
    }
    let mut out: Vec<u8> = Vec::new();
    let mut i = a;
    while i < b
        invariant
            a <= i <= b,
            b <= s@.len(),
            out@ == s@.subrange(a as int, i as int),
        decreases b - i,
    {
        out.push(s[i]);
        assert(out@ =~= s@.subrange(a as int, i + 1));
        i = i + 1;
    }
    out
}

/// The line, cursor, history, history index and kept line of `o` and `n` are equal.
pub open spec fn same_line(o: LineEditor, n: LineEditor) -> bool {
    o.buf == n.buf && o.cursor == n.cursor && o.history == n.history && o.hist_idx == n.hist_idx && o.saved == n.saved
}

/// What `insert_char` does, from `o` to `n`, writing `no` after `oo` (the escape state aside).
pub open spec fn insert_char_effect(o: LineEditor, n: LineEditor, c: u8, oo: Seq<ScreenOp>, no: Seq<ScreenOp>) -> bool {
    &&& (n.history == o.history && n.hist_idx == o.hist_idx
        && n.saved == o.saved)
    &&& (o.buf@.len() >= 255 ==> same_line(o, n) && no =~= oo)
    &&& (o.buf@.len() < 255 ==> {
        &&& n.buf@ =~= o.buf@.insert(o.cursor as int, c)
        &&& n.cursor == o.cursor + 1
        &&& no =~= oo + seq![ScreenOp::Put(c)] + redraw_ops(n.buf@, n.cursor as int)
    })
}

/// What `delete_before` does, from `o` to `n`, writing `no` after `oo` (the escape state aside).
pub open spec fn delete_before_effect(o: LineEditor, n: LineEditor, oo: Seq<ScreenOp>, no: Seq<ScreenOp>) -> bool {
    &&& (n.history == o.history && n.hist_idx == o.hist_idx
        && n.saved == o.saved)
    &&& (o.cursor == 0 ==> same_line(o, n) && no =~= oo)
    &&& (o.cursor > 0 ==> {
        let k = o.cursor - 1;
        let b = o.buf@.remove(k);
        &&& n.buf@ =~= b
        &&& n.cursor == k
        &&& no =~= oo + puts(b.subrange(k as int, b.len() as int)) + seq![ScreenOp::Put(0x20)]
            + rep(ScreenOp::Put(8), b.len() - k + 1)
    })
}

/// What `delete_after` does, from `o` to `n`, writing `no` after `oo` (the escape state aside).
pub open spec fn delete_after_effect(o: LineEditor, n: LineEditor, oo: Seq<ScreenOp>, no: Seq<ScreenOp>) -> bool {
    &&& (n.history == o.history && n.hist_idx == o.hist_idx
        && n.saved == o.saved)
    &&& (n.cursor == o.cursor)
    &&& (o.cursor >= o.buf@.len() ==> same_line(o, n) && no =~= oo)
    &&& (o.cursor < o.buf@.len() ==> {
        &&& n.buf@ =~= o.buf@.remove(o.cursor as int)
        &&& no =~= oo + redraw_ops(n.buf@, n.cursor as int)
    })
}

/// What `cursor_left` does, from `o` to `n`, writing `no` after `oo` (the escape state aside).
pub open spec fn cursor_left_effect(o: LineEditor, n: LineEditor, oo: Seq<ScreenOp>, no: Seq<ScreenOp>) -> bool {
    &&& (n.buf == o.buf && n.history == o.history
        && n.hist_idx == o.hist_idx && n.saved == o.saved)
    &&& (o.cursor > 0 ==> n.cursor == o.cursor - 1 && no =~= oo.push(ScreenOp::Left))
    &&& (o.cursor == 0 ==> n.cursor == 0 && no =~= oo)
}

/// What `cursor_right` does, from `o` to `n`, writing `no` after `oo` (the escape state aside).
pub open spec fn cursor_right_effect(o: LineEditor, n: LineEditor, oo: Seq<ScreenOp>, no: Seq<ScreenOp>) -> bool {
    &&& (n.buf == o.buf && n.history == o.history
        && n.hist_idx == o.hist_idx && n.saved == o.saved)
    &&& (o.cursor < o.buf@.len() ==> n.cursor == o.cursor + 1
        && no =~= oo.push(ScreenOp::Put(o.buf@[o.cursor as int])))
    &&& (o.cursor >= o.buf@.len() ==> n.cursor == o.cursor && no =~= oo)
}

/// What `cursor_home` does, from `o` to `n`, writing `no` after `oo` (the escape state aside).
pub open spec fn cursor_home_effect(o: LineEditor, n: LineEditor, oo: Seq<ScreenOp>, no: Seq<ScreenOp>) -> bool {
    &&& (n.buf == o.buf && n.history == o.history
        && n.hist_idx == o.hist_idx && n.saved == o.saved)
    &&& (n.cursor == 0)
    &&& (no =~= oo + rep(ScreenOp::Left, o.cursor as int))
}

/// What `cursor_end` does, from `o` to `n`, writing `no` after `oo` (the escape state aside).
pub open spec fn cursor_end_effect(o: LineEditor, n: LineEditor, oo: Seq<ScreenOp>, no: Seq<ScreenOp>) -> bool {
    &&& (n.buf == o.buf && n.history == o.history
        && n.hist_idx == o.hist_idx && n.saved == o.saved)
    &&& (n.cursor == o.buf@.len())
    &&& (no =~= oo + puts(o.buf@.subrange(o.cursor as int, o.buf@.len() as int)))
}

/// What `clear_line` does, from `o` to `n`, writing `no` after `oo` (the escape state aside).
pub open spec fn clear_line_effect(o: LineEditor, n: LineEditor, oo: Seq<ScreenOp>, no: Seq<ScreenOp>) -> bool {
    &&& (n.history == o.history && n.hist_idx == o.hist_idx
        && n.saved == o.saved)
    &&& (n.buf@.len() == 0 && n.cursor == 0)
    &&& (no =~= oo + blank_ops(o.cursor as int, o.buf@.len() as int))
}

/// What `history_up` does, from `o` to `n`, writing `no` after `oo` (the escape state aside).
pub open spec fn history_up_effect(o: LineEditor, n: LineEditor, oo: Seq<ScreenOp>, no: Seq<ScreenOp>) -> bool {
    let v = o.view();
    &&& n.history == o.history
    &&& if v.history.len() == 0 || v.hist_idx + 1 >= v.history.len() {
        &&& n.buf == o.buf && n.cursor == o.cursor
        &&& n.hist_idx == o.hist_idx
        &&& no =~= oo
        &&& n.saved@ == (if v.history.len() > 0 && v.hist_idx == -1 { v.buf } else { v.saved })
    } else {
        let e = v.history[v.history.len() - 1 - (v.hist_idx + 1)];
        &&& n.hist_idx == v.hist_idx + 1
        &&& n.saved@ == (if v.hist_idx == -1 { v.buf } else { v.saved })
        &&& n.buf@ =~= e
        &&& n.cursor == e.len()
        &&& no =~= oo + blank_ops(v.cursor, v.buf.len() as int) + puts(e)
    }
}

/// What `history_down` does, from `o` to `n`, writing `no` after `oo` (the escape state aside).
pub open spec fn history_down_effect(o: LineEditor, n: LineEditor, oo: Seq<ScreenOp>, no: Seq<ScreenOp>) -> bool {
    let v = o.view();
    &&& n.history == o.history
    &&& if v.hist_idx == -1 {
        same_line(o, n) && no =~= oo
    } else if v.hist_idx == 0 {
        &&& n.hist_idx == -1
        &&& n.saved@.len() == 0
        &&& n.buf@ =~= v.saved
        &&& n.cursor == v.saved.len()
        &&& no =~= oo + blank_ops(v.cursor, v.buf.len() as int) + puts(v.saved)
    } else {
        let e = v.history[v.history.len() - 1 - (v.hist_idx - 1)];
        &&& n.hist_idx == v.hist_idx - 1
        &&& n.saved == o.saved
        &&& n.buf@ =~= e
        &&& n.cursor == e.len()
        &&& no =~= oo + blank_ops(v.cursor, v.buf.len() as int) + puts(e)
    }
}

/// What `push_history` does, from `o` to `n` (the escape state aside).
pub open spec fn push_history_effect(o: LineEditor, n: LineEditor) -> bool {
    &&& (n.buf == o.buf && n.cursor == o.cursor)
    &&& ({
        let s = trimmed(o.buf@);
        let h = o.view().history;
        if s.len() == 0 || (h.len() > 0 && h.last() == s) {
            same_line(o, n)
        } else {
            &&& n.view().history =~= (if h.len() + 1 > HIST_SIZE { h.push(s).drop_first() } else { h.push(s) })
            &&& n.hist_idx == -1
            &&& n.saved@.len() == 0
        }
    })
}

impl LineEditor {
    pub open spec fn view(&self) -> EditView {
        EditView {
            buf: self.buf@,
            cursor: self.cursor as int,
            history: deep(self.history@),
            hist_idx: self.hist_idx as int,
            saved: self.saved@,
        }
    }

    /// Whether the cursor lies in the line, the history holds at most 16 lines and its
    /// index is -1 or names one of them.
    pub open spec fn wf(&self) -> bool {
        &&& self.cursor <= self.buf@.len()
        &&& self.history@.len() <= HIST_SIZE
        &&& -1 <= self.hist_idx < self.history@.len()
        &&& self.esc <= 5
    }

    /// An empty line and history.
    pub fn new() -> (r: LineEditor)
        ensures
            r.wf(),
            r.buf@.len() == 0 && r.cursor == 0 && r.history@.len() == 0 && r.hist_idx == -1 && r.saved@.len() == 0,
            r.esc == 0,
    {
        LineEditor { buf: Vec::new(), cursor: 0, history: Vec::new(), hist_idx: -1, saved: Vec::new(), esc: 0 }
    }

    /// Redraws the line from the cursor on (see `redraw_ops`).
    pub fn redraw_line(&self, out: &mut Vec<ScreenOp>)
        requires
            self.wf(),
        ensures
            final(out)@ == old(out)@ + redraw_ops(self.buf@, self.cursor as int),
    {
        let tlen = self.buf.len() - self.cursor;
        push_puts(out, &self.buf, self.cursor);
        if self.buf.len() > 0 && self.cursor < self.buf.len() {
            push_rep(out, ScreenOp::Put(8), tlen);
        }
    }

    /// Inserts printable byte `c` at the cursor (nothing when the line has 255 bytes): it is
    /// written, the cursor moves past it and the rest of the line is redrawn.
    pub fn insert_char(&mut self, c: u8, out: &mut Vec<ScreenOp>)
        requires
            old(self).wf(),
        ensures
            final(self).wf(),
            final(self).esc == old(self).esc,
            insert_char_effect(*old(self), *final(self), c, old(out)@, final(out)@),

    {
        if self.buf.len() >= LINE_MAX - 1 {
            return;
        }
        self.buf.insert(self.cursor, c);
        out.push(ScreenOp::Put(c));
        self.cursor = self.cursor + 1;
        self.redraw_line(out);
    }

    /// Deletes the byte before the cursor and redraws the rest of the line over it.
    pub fn delete_before(&mut self, out: &mut Vec<ScreenOp>)
        requires
            old(self).wf(),
        ensures
            final(self).wf(),
            final(self).esc == old(self).esc,
            delete_before_effect(*old(self), *final(self), old(out)@, final(out)@),

    {
        if self.cursor == 0 || self.buf.len() == 0 {
            return;
        }
        self.cursor = self.cursor - 1;
        self.buf.remove(self.cursor);
        let slen = self.buf.len() - self.cursor;
        push_puts(out, &self.buf, self.cursor);
        out.push(ScreenOp::Put(0x20));
        push_rep(out, ScreenOp::Put(8), slen + 1);
    }

    /// Deletes the byte at the cursor and redraws the rest of the line.
    pub fn delete_after(&mut self, out: &mut Vec<ScreenOp>)
        requires
            old(self).wf(),
        ensures
            final(self).wf(),
            final(self).esc == old(self).esc,
            delete_after_effect(*old(self), *final(self), old(out)@, final(out)@),

    {
        if self.cursor >= self.buf.len() {
            return;
        }
        self.buf.remove(self.cursor);
        self.redraw_line(out);
    }

    /// Moves the cursor one byte left.
    pub fn cursor_left(&mut self, out: &mut Vec<ScreenOp>)
        requires
            old(self).wf(),
        ensures
            final(self).wf(),
            final(self).esc == old(self).esc,
            cursor_left_effect(*old(self), *final(self), old(out)@, final(out)@),

    {
        if self.cursor > 0 {
            self.cursor = self.cursor - 1;
            out.push(ScreenOp::Left);
        }
    }

    /// Moves the cursor one byte right by writing the byte under it.
    pub fn cursor_right(&mut self, out: &mut Vec<ScreenOp>)
        requires
            old(self).wf(),
        ensures
            final(self).wf(),
            final(self).esc == old(self).esc,
            cursor_right_effect(*old(self), *final(self), old(out)@, final(out)@),

    {
        if self.cursor < self.buf.len() {
            let c = self.buf[self.cursor];
            out.push(ScreenOp::Put(c));
            self.cursor = self.cursor + 1;
        }
    }

    /// Moves the cursor to the start of the line.
    pub fn cursor_home(&mut self, out: &mut Vec<ScreenOp>)
        requires
            old(self).wf(),
        ensures
            final(self).wf(),
            final(self).esc == old(self).esc,
            cursor_home_effect(*old(self), *final(self), old(out)@, final(out)@),

    {
        while self.cursor > 0
            invariant
                self.wf(),
                self.buf == old(self).buf && self.history == old(self).history
                    && self.hist_idx == old(self).hist_idx && self.saved == old(self).saved && self.esc == old(self).esc,
                self.cursor <= old(self).cursor,
                out@ == old(out)@ + rep(ScreenOp::Left, old(self).cursor - self.cursor),
            decreases self.cursor,
        {
            let ghost o = out@;
            self.cursor_left(out);
            assert(out@ =~= old(out)@ + rep(ScreenOp::Left, old(self).cursor - self.cursor));
        }
    }

    /// Moves the cursor to the end of the line by writing the bytes after it.
    pub fn cursor_end(&mut self, out: &mut Vec<ScreenOp>)
        requires
            old(self).wf(),
        ensures
            final(self).wf(),
            final(self).esc == old(self).esc,
            cursor_end_effect(*old(self), *final(self), old(out)@, final(out)@),

    {
        while self.cursor < self.buf.len()
            invariant
                self.wf(),
                self.buf == old(self).buf && self.history == old(self).history
                    && self.hist_idx == old(self).hist_idx && self.saved == old(self).saved && self.esc == old(self).esc,
                old(self).cursor <= self.cursor,
                out@ == old(out)@ + puts(old(self).buf@.subrange(old(self).cursor as int, self.cursor as int)),
            decreases self.buf@.len() - self.cursor,
        {
            self.cursor_right(out);
            assert(out@ =~= old(out)@ + puts(old(self).buf@.subrange(old(self).cursor as int, self.cursor as int)));
        }
    }

    /// Blanks the line on the screen and empties it.
    pub fn clear_line(&mut self, out: &mut Vec<ScreenOp>)
        requires
            old(self).wf(),
        ensures
            final(self).wf(),
            final(self).esc == old(self).esc,
            clear_line_effect(*old(self), *final(self), old(out)@, final(out)@),

    {
        let len = self.buf.len();
        self.cursor_home(out);
        push_rep(out, ScreenOp::Put(0x20), len);
        push_rep(out, ScreenOp::Put(8), len);
        self.buf.clear();
        self.cursor = 0;
    }

    /// Replaces the line on the screen and in the buffer by `text`, cursor at its end.
    fn replace_line(&mut self, text: Vec<u8>, out: &mut Vec<ScreenOp>)
        requires
            old(self).wf(),
        ensures
            final(self).wf(),
            final(self).history == old(self).history && final(self).hist_idx == old(self).hist_idx
                && final(self).saved == old(self).saved && final(self).esc == old(self).esc,
            final(self).buf@ == text@,
            final(self).cursor == text@.len(),
            final(out)@ == old(out)@ + blank_ops(old(self).cursor as int, old(self).buf@.len() as int) + puts(text@),
    {
        let len = self.buf.len();
        self.cursor_home(out);
        push_rep(out, ScreenOp::Put(0x20), len);
        push_rep(out, ScreenOp::Put(8), len);
        self.buf = text;
        self.cursor = self.buf.len();
        push_puts(out, &self.buf, 0);
        assert(self.buf@.subrange(0, self.buf@.len() as int) =~= self.buf@);
    }

    /// Shows history entry `hist_idx` (0 is the newest) in place of the line.
    pub fn load_history(&mut self, out: &mut Vec<ScreenOp>)
        requires
            old(self).wf(),
            old(self).hist_idx >= 0,
        ensures
            final(self).wf(),
            final(self).history == old(self).history && final(self).hist_idx == old(self).hist_idx
                && final(self).saved == old(self).saved && final(self).esc == old(self).esc,
            ({
                let e = old(self).view().history[old(self).history@.len() - 1 - old(self).hist_idx];
                &&& final(self).buf@ == e
                &&& final(self).cursor == e.len()
                &&& final(out)@ == old(out)@ + blank_ops(old(self).cursor as int, old(self).buf@.len() as int) + puts(e)
            }),
    {
        let idx = self.hist_idx as usize;
        let text = self.history[self.history.len() - 1 - idx].clone();
        self.replace_line(text, out);
    }

    /// Shows the line that was being typed before the history was entered; it is taken out.
    pub fn load_saved(&mut self, out: &mut Vec<ScreenOp>)
        requires
            old(self).wf(),
        ensures
            final(self).wf(),
            final(self).history == old(self).history && final(self).hist_idx == old(self).hist_idx
                && final(self).esc == old(self).esc,
            final(self).saved@.len() == 0,
            final(self).buf@ == old(self).saved@,
            final(self).cursor == old(self).saved@.len(),
            final(out)@ == old(out)@ + blank_ops(old(self).cursor as int, old(self).buf@.len() as int) + puts(old(self).saved@),
    {
        let mut text: Vec<u8> = Vec::new();
        std::mem::swap(&mut text, &mut self.saved);
        self.replace_line(text, out);
    }

    /// Goes one entry back in the history, first keeping the line being typed.
    pub fn history_up(&mut self, out: &mut Vec<ScreenOp>)
        requires
            old(self).wf(),
        ensures
            final(self).wf(),
            final(self).esc == old(self).esc,
            history_up_effect(*old(self), *final(self), old(out)@, final(out)@),

    {
        if self.history.len() == 0 {
            return;
        }
        if self.hist_idx == -1 {
            self.saved = self.buf.clone();
        }
        let next = self.hist_idx + 1;
        if next as usize >= self.history.len() {
            return;
        }
        self.hist_idx = next;
        self.load_history(out);
    }

    /// Goes one entry forward in the history; past the newest, the kept line comes back.
    pub fn history_down(&mut self, out: &mut Vec<ScreenOp>)
        requires
            old(self).wf(),
        ensures
            final(self).wf(),
            final(self).esc == old(self).esc,
            history_down_effect(*old(self), *final(self), old(out)@, final(out)@),

    {
        if self.hist_idx == -1 {
            return;
        }
        if self.hist_idx == 0 {
            self.hist_idx = -1;
            self.load_saved(out);
            return;
        }
        self.hist_idx = self.hist_idx - 1;
        self.load_history(out);
    }

    /// Records the line (trimmed) in the history unless it is empty or repeats the newest
    /// entry; the oldest entry leaves beyond 16; browsing starts over.
    pub fn push_history(&mut self)
        requires
            old(self).wf(),
        ensures
            final(self).wf(),
            final(self).esc == old(self).esc,
            push_history_effect(*old(self), *final(self)),

    {
        let s = trim_bytes(&self.buf);
        if s.len() == 0 {
            return;
        }
        let n = self.history.len();
        if n > 0 && vec_eq(&self.history[n - 1], &s) {
            return;
        }
        let ghost h = deep(self.history@);
        self.history.push(s);
        if self.history.len() > HIST_SIZE {
            self.history.remove(0);
        }
        self.hist_idx = -1;
        self.saved.clear();
        proof {
            if h.len() + 1 > HIST_SIZE {
                assert(deep(self.history@) =~= h.push(trimmed(old(self).buf@)).drop_first());
            } else {
                assert(deep(self.history@) =~= h.push(trimmed(old(self).buf@)));
            }
        }
    }
}

/// A trimmed line is no longer than the line.
proof fn lemma_trimmed_len(s: Seq<u8>)
    ensures
        trimmed(s).len() <= s.len(),
{
    lemma_trim_start_bound(s, 0);
    lemma_trim_end_bound(s, trim_start(s, 0), s.len() as int);
}

proof fn lemma_trim_start_bound(s: Seq<u8>, i: int)
    requires
        0 <= i <= s.len(),
    ensures
        i <= trim_start(s, i) <= s.len(),
    decreases s.len() - i,
{
    if i < s.len() && is_blank(s[i]) {
        lemma_trim_start_bound(s, i + 1);
    }
}

proof fn lemma_trim_end_bound(s: Seq<u8>, lo: int, j: int)
    requires
        0 <= lo <= j <= s.len(),
    ensures
        lo <= trim_end(s, lo, j) <= j,
    decreases j - lo,
{
    if j > lo && is_blank(s[j - 1]) {
        lemma_trim_end_bound(s, lo, j - 1);
    }
}

/// Whether two byte strings are equal.
pub fn vec_eq(a: &Vec<u8>, b: &Vec<u8>) -> (r: bool)
    ensures
        r == (a@ == b@),
{
    if a.len() != b.len() {
        return false;
    }
    let mut i: usize = 0;
    while i < a.len()
        invariant
            a@.len() == b@.len(),
            i <= a@.len(),
            forall|j: int| 0 <= j < i ==> a@[j] == b@[j],
        decreases a@.len() - i,
    {
        if a[i] != b[i] {
            return false;
        }
        i = i + 1;
    }
    assert(a@ =~= b@);
    true
}

/// The order of byte strings from index `i` on: -1, 0 or 1.
pub open spec fn order_from(a: Seq<u8>, b: Seq<u8>, i: int) -> int
    decreases a.len() + b.len() - 2 * i,
{
    if i < 0 { 0 }
    else if i >= a.len() && i >= b.len() { 0 }
    else if i >= a.len() { -1 }
    else if i >= b.len() { 1 }
    else if a[i] < b[i] { -1 }
    else if a[i] > b[i] { 1 }
    else { order_from(a, b, i + 1) }
}

/// Byte-wise (lexicographic) order of `a` and `b`: -1, 0 or 1.
pub open spec fn lex_order(a: Seq<u8>, b: Seq<u8>) -> int {
    order_from(a, b, 0)
}

proof fn lemma_order_eq(a: Seq<u8>, b: Seq<u8>, i: int)
    requires
        0 <= i <= a.len(),
        i <= b.len(),
        a.subrange(0, i) == b.subrange(0, i),
    ensures
        (order_from(a, b, i) == 0) == (a == b),
        order_from(a, b, i) == -order_from(b, a, i),
    decreases a.len() + b.len() - 2 * i,
{
    if i < a.len() && i < b.len() && a[i] == b[i] {
        assert(a.subrange(0, i + 1) =~= b.subrange(0, i + 1)) by {
            assert forall|k: int| 0 <= k < i implies a[k] == b[k] by {
                assert(a.subrange(0, i)[k] == a[k]);
                assert(b.subrange(0, i)[k] == b[k]);
            }
        }
        lemma_order_eq(a, b, i + 1);
    } else if i == a.len() && i == b.len() {
        assert(a =~= a.subrange(0, i));
        assert(b =~= b.subrange(0, i));
    } else if a == b {
        assert(false);
    }
}

pub proof fn lemma_order_range(a: Seq<u8>, b: Seq<u8>, i: int)
    ensures
        order_from(a, b, i) == -1 || order_from(a, b, i) == 0 || order_from(a, b, i) == 1,
    decreases a.len() + b.len() - 2 * i,
{
    if i >= 0 && i < a.len() && i < b.len() && a[i] == b[i] {
        lemma_order_range(a, b, i + 1);
    }
}

pub proof fn lemma_order_eq0(a: Seq<u8>, b: Seq<u8>)
    ensures
        (lex_order(a, b) == 0) == (a == b),
        lex_order(a, b) == -lex_order(b, a),
{
    assert(a.subrange(0, 0) =~= b.subrange(0, 0));
    lemma_order_eq(a, b, 0);
}

proof fn lemma_order_trans(a: Seq<u8>, b: Seq<u8>, c: Seq<u8>, i: int)
    requires
        0 <= i,
        order_from(a, b, i) == -1,
        order_from(b, c, i) == -1,
    ensures
        order_from(a, c, i) == -1,
    decreases a.len() + b.len() + c.len() - 3 * i,
{
    if i < a.len() && i < b.len() && i < c.len() && a[i] == b[i] && b[i] == c[i] {
        lemma_order_trans(a, b, c, i + 1);
    }
}

/// Whether `v` is strictly increasing in byte-wise order.
pub open spec fn strictly_sorted(v: Seq<Seq<u8>>) -> bool {
    forall|i: int, j: int| 0 <= i < j < v.len() ==> lex_order(v[i], v[j]) == -1
}

/// Compares two byte strings byte-wise.
pub fn compare_bytes(a: &Vec<u8>, b: &Vec<u8>) -> (r: i8)
    ensures
        r == lex_order(a@, b@),
{
    let mut i: usize = 0;
    while i < a.len() && i < b.len() && a[i] == b[i]
        invariant
            i <= a@.len(),
            i <= b@.len(),
            order_from(a@, b@, i as int) == lex_order(a@, b@),
        decreases a@.len() - i,
    {
        i = i + 1;
    }
    if i >= a.len() && i >= b.len() { 0 }
    else if i >= a.len() { -1 }
    else if i >= b.len() { 1 }
    else if a[i] < b[i] { -1 }
    else { 1 }
}

/// Adds `x` to the strictly sorted `v` in its place, unless it is there already.
pub fn insert_sorted(v: &mut Vec<Vec<u8>>, x: Vec<u8>)
    requires
        strictly_sorted(deep(old(v)@)),
    ensures
        strictly_sorted(deep(final(v)@)),
        deep(final(v)@).to_set() == deep(old(v)@).to_set().insert(x@),
{
    let mut p: usize = 0;
    while p < v.len() && compare_bytes(&v[p], &x) == -1
        invariant
            p <= v@.len(),
            forall|i: int| 0 <= i < p ==> lex_order(v@[i]@, x@) == -1,
        decreases v@.len() - p,
    {
        p = p + 1;
    }
    let ghost d0 = deep(v@);
    if p < v.len() && compare_bytes(&v[p], &x) == 0 {
        proof {
            lemma_order_eq0(v@[p as int]@, x@);
            assert(d0.to_set().insert(x@) =~= d0.to_set()) by {
                assert(d0[p as int] == x@);
            }
        }
        return;
    }
    proof {
        if p < v@.len() {
            lemma_order_eq0(v@[p as int]@, x@);
            lemma_order_range(v@[p as int]@, x@, 0);
            assert(lex_order(x@, v@[p as int]@) == -1);
        }
    }
    v.insert(p, x);
    proof {
        let d = deep(v@);
        assert(d =~= d0.insert(p as int, x@));
        assert forall|i: int, j: int| 0 <= i < j < d.len() implies lex_order(d[i], d[j]) == -1 by {
            if j < p {
                assert(d[i] == d0[i] && d[j] == d0[j]);
            } else if j == p {
                assert(d[i] == d0[i]);
            } else if i == p {
                assert(d[j] == d0[j - 1]);
                if j - 1 > p {
                    assert(lex_order(d0[p as int], d0[j - 1]) == -1);
                    lemma_order_trans(x@, d0[p as int], d0[j - 1], 0);
                }
            } else if i < p {
                assert(d[i] == d0[i] && d[j] == d0[j - 1]);
                if j - 1 >= p {
                    assert(lex_order(d0[i], x@) == -1);
                    if j - 1 == p {
                        lemma_order_trans(d0[i], x@, d0[j - 1], 0);
                    } else {
                        assert(lex_order(d0[i], d0[j - 1]) == -1);
                    }
                }
            } else {
                assert(d[i] == d0[i - 1] && d[j] == d0[j - 1]);
            }
        }
        assert(d.to_set() =~= d0.to_set().insert(x@)) by {
            assert forall|y: Seq<u8>| d.to_set().contains(y) <==> d0.to_set().insert(x@).contains(y) by {
                if d.to_set().contains(y) {
                    let k = choose|k: int| 0 <= k < d.len() && d[k] == y;
                    if k < p { assert(d0[k] == y); } else if k > p { assert(d0[k - 1] == y); }
                }
                if d0.to_set().contains(y) {
                    let k = choose|k: int| 0 <= k < d0.len() && d0[k] == y;
                    if k < p { assert(d[k] == y); } else { assert(d[k + 1] == y); }
                }
                if y == x@ { assert(d[p as int] == y); }
            }
        }
    }
}


/// Typing a character and then erasing it with backspace gives back the line and the
/// cursor, when the line had room for the character.
pub proof fn law_insert_then_backspace(o: LineEditor, m: LineEditor, n: LineEditor, c: u8,
    oo: Seq<ScreenOp>, mo: Seq<ScreenOp>, no: Seq<ScreenOp>)
    requires
        o.wf(),
        o.buf@.len() < 255,
        insert_char_effect(o, m, c, oo, mo),
        delete_before_effect(m, n, mo, no),
    ensures
        n.buf@ == o.buf@,
        n.cursor == o.cursor,
        n.history == o.history && n.hist_idx == o.hist_idx && n.saved == o.saved,
{
    assert(n.buf@ =~= o.buf@);
}

/// Moving left and then right leaves the cursor where it was, when it was not at the start.
pub proof fn law_left_then_right(o: LineEditor, m: LineEditor, n: LineEditor,
    oo: Seq<ScreenOp>, mo: Seq<ScreenOp>, no: Seq<ScreenOp>)
    requires
        o.wf(),
        o.cursor > 0,
        cursor_left_effect(o, m, oo, mo),
        cursor_right_effect(m, n, mo, no),
    ensures
        same_line(o, n),
{
}

/// Going up into a non-empty history from the line being typed and straight back down
/// gives back that line, with the cursor at its end and browsing over.
pub proof fn law_up_then_down_restores(o: LineEditor, m: LineEditor, n: LineEditor,
    oo: Seq<ScreenOp>, mo: Seq<ScreenOp>, no: Seq<ScreenOp>)
    requires
        o.wf(),
        o.hist_idx == -1,
        o.history@.len() > 0,
        history_up_effect(o, m, oo, mo),
        history_down_effect(m, n, mo, no),
    ensures
        n.buf@ == o.buf@,
        n.cursor == o.buf@.len(),
        n.hist_idx == -1,
        n.history == o.history,
{
    assert(deep(o.history@).len() == o.history@.len());
}

/// Recording the same line twice leaves the history as one recording left it.
pub proof fn law_push_history_twice(o: LineEditor, m: LineEditor, n: LineEditor)
    requires
        o.wf(),
        push_history_effect(o, m),
        push_history_effect(m, n),
    ensures
        n.view().history == m.view().history,
{
    let s = trimmed(o.buf@);
    let h = o.view().history;
    if s.len() == 0 || (h.len() > 0 && h.last() == s) {
    } else {
        let h2 = m.view().history;
        assert(h2.len() > 0 && h2.last() == s);
    }
}

} // verus!
