//! The shell's full-screen text editor (`edit`): lines of bytes, a cursor, a scroll offset,
//! and the keys that act on them. Each key is one step; the screen is drawn from the state as
//! a frame of 25 rows of 80 cells.
use vstd::prelude::*;
use vstd::string::*;
use vstd::utf8::*;
use crate::keyboard::{KEY_LEFT, KEY_RIGHT, KEY_UP, KEY_DOWN, KEY_HOME, KEY_END, KEY_DEL};
use crate::ramfs::{FileSystem, Entry, without, str_from_utf8};
use crate::shell_text::{decimal, print_u128};

verus! {

/// Rows of text between the title bar and the status bar.
pub const EDIT_ROWS: usize = 23;
/// Columns of the screen.
pub const EDIT_COLS: usize = 80;

/// The editor.
pub struct Editor {
    pub name: String,
    pub lines: Vec<Vec<u8>>,
    pub line_idx: usize,
    pub col_idx: usize,
    pub scroll: usize,
    pub modified: bool,
    pub status: Vec<u8>,
    pub quit_pending: bool,
}

/// The editor state as plain values.
pub struct EditorView {
    pub lines: Seq<Seq<u8>>,
    pub line: int,
    pub col: int,
    pub scroll: int,
    pub modified: bool,
    pub status: Seq<u8>,
    pub quit_pending: bool,
}

/// The byte strings of `v`.
pub open spec fn deep_lines(v: Seq<Vec<u8>>) -> Seq<Seq<u8>> {
    Seq::new(v.len(), |i: int| v[i]@)
}

/// Whether a view is coherent: at least one line, the cursor on a line and inside it, and the
/// cursor's line among the rows shown.
pub open spec fn view_ok(v: EditorView) -> bool {
    &&& v.lines.len() >= 1
    &&& 0 <= v.line < v.lines.len()
    &&& 0 <= v.col <= v.lines[v.line].len()
    &&& 0 <= v.scroll <= v.line < v.scroll + EDIT_ROWS
}

/// The scroll offset that keeps line `line` (at or below the screen's top) on the screen.
pub open spec fn follow_down(scroll: int, line: int) -> int {
    if line >= scroll + EDIT_ROWS { line + 1 - EDIT_ROWS } else { scroll }
}

/// The scroll offset that keeps line `line` (at or above the screen's bottom) on the screen.
pub open spec fn follow_up(scroll: int, line: int) -> int {
    if scroll > 0 && line < scroll { line } else { scroll }
}

/// The message shown when quitting with unsaved changes.
pub open spec fn unsaved_msg() -> Seq<u8> {
    seq![0x20u8, 0x73, 0x65, 0x6d, 0x20, 0x73, 0x61, 0x6c, 0x76, 0x61, 0x72, 0x21, 0x20, 0x5e, 0x53, 0x20,
        0x70, 0x61, 0x72, 0x61, 0x20, 0x73, 0x61, 0x6c, 0x76, 0x61, 0x72, 0x2c, 0x20, 0x5e, 0x51, 0x20, 0x64,
        0x65, 0x20, 0x6e, 0x6f, 0x76, 0x6f, 0x20, 0x70, 0x61, 0x72, 0x61, 0x20, 0x73, 0x61, 0x69, 0x72]
}

/// The message shown after saving.
pub open spec fn saved_msg() -> Seq<u8> {
    seq![0x20u8, 0x73, 0x61, 0x6c, 0x76, 0x6f, 0x21]
}

/// The line under the cursor split in two at the cursor; the cursor goes to the start of
/// the second part.
pub open spec fn split_line(v: EditorView) -> EditorView {
    let cur = v.lines[v.line];
    EditorView {
        lines: v.lines.update(v.line, cur.subrange(0, v.col)).insert(v.line + 1, cur.subrange(v.col, cur.len() as int)),
        line: v.line + 1,
        col: 0,
        scroll: follow_down(v.scroll, v.line + 1),
        modified: true,
        status: v.status,
        quit_pending: v.quit_pending,
    }
}

/// The lines joined with newlines: what saving writes.
pub open spec fn joined(lines: Seq<Seq<u8>>) -> Seq<u8>
    decreases lines.len(),
{
    if lines.len() == 0 {
        Seq::empty()
    } else if lines.len() == 1 {
        lines[0]
    } else {
        joined(lines.drop_last()) + seq![10u8] + lines.last()
    }
}

/// `v` with another cursor, scroll offset and status.
pub open spec fn moved(v: EditorView, line: int, col: int, scroll: int) -> EditorView {
    EditorView { lines: v.lines, line, col, scroll, modified: v.modified, status: v.status, quit_pending: v.quit_pending }
}

/// `v` with other lines and cursor, marked modified.
pub open spec fn edited(v: EditorView, lines: Seq<Seq<u8>>, line: int, col: int, scroll: int) -> EditorView {
    EditorView { lines, line, col, scroll, modified: true, status: v.status, quit_pending: v.quit_pending }
}

/// What key `k` does to the editor (see `key_quits` for when it ends the session).
pub open spec fn key_step(v0: EditorView, k: u8) -> EditorView {
    if v0.quit_pending {
        EditorView { quit_pending: false, ..v0 }
    } else {
        let v = EditorView { status: Seq::empty(), ..v0 };
        let cur = v.lines[v.line];
        let n = v.lines.len() as int;
        if k == 10 || k == 13 {
            split_line(v)
        } else if k == 8 || k == 0x7f {
            if v.col > 0 {
                edited(v, v.lines.update(v.line, cur.remove(v.col - 1)), v.line, v.col - 1, v.scroll)
            } else if v.line > 0 {
                let prev = v.lines[v.line - 1];
                edited(v, v.lines.update(v.line - 1, prev + cur).remove(v.line), v.line - 1, prev.len() as int,
                    follow_up(v.scroll, v.line - 1))
            } else {
                v
            }
        } else if k == KEY_DEL {
            if v.col < cur.len() {
                edited(v, v.lines.update(v.line, cur.remove(v.col)), v.line, v.col, v.scroll)
            } else if v.line + 1 < n {
                edited(v, v.lines.update(v.line, cur + v.lines[v.line + 1]).remove(v.line + 1), v.line, v.col, v.scroll)
            } else {
                v
            }
        } else if k == KEY_LEFT {
            if v.col > 0 {
                moved(v, v.line, v.col - 1, v.scroll)
            } else if v.line > 0 {
                moved(v, v.line - 1, v.lines[v.line - 1].len() as int, follow_up(v.scroll, v.line - 1))
            } else {
                v
            }
        } else if k == KEY_RIGHT {
            if v.col < cur.len() {
                moved(v, v.line, v.col + 1, v.scroll)
            } else if v.line + 1 < n {
                moved(v, v.line + 1, 0, follow_down(v.scroll, v.line + 1))
            } else {
                v
            }
        } else if k == KEY_UP {
            if v.line > 0 {
                let l = v.lines[v.line - 1].len() as int;
                moved(v, v.line - 1, if v.col > l { l } else { v.col }, follow_up(v.scroll, v.line - 1))
            } else {
                v
            }
        } else if k == KEY_DOWN {
            if v.line + 1 < n {
                let l = v.lines[v.line + 1].len() as int;
                moved(v, v.line + 1, if v.col > l { l } else { v.col }, follow_down(v.scroll, v.line + 1))
            } else {
                v
            }
        } else if k == KEY_HOME {
            moved(v, v.line, 0, v.scroll)
        } else if k == KEY_END {
            moved(v, v.line, cur.len() as int, v.scroll)
        } else if k == 0x11 || k == 0x18 {
            if v.modified { EditorView { status: unsaved_msg(), quit_pending: true, ..v } } else { v }
        } else if k == 0x13 {
            EditorView { status: saved_msg(), modified: false, ..v }
        } else if 0x20 <= k <= 0x7e {
            let w = edited(v, v.lines.update(v.line, cur.insert(v.col, k)), v.line, v.col + 1, v.scroll);
            if v.col + 1 >= EDIT_COLS { split_line(w) } else { w }
        } else {
            v
        }
    }
}

/// Whether key `k` ends the session: Ctrl+Q or Ctrl+X with nothing unsaved, or right
/// after the warning about unsaved changes.
pub open spec fn key_quits(v: EditorView, k: u8) -> bool {
    (k == 0x11 || k == 0x18) && (v.quit_pending || !v.modified)
}

/// Whether key `k` saves the file.
pub open spec fn key_saves(v: EditorView, k: u8) -> bool {
    !v.quit_pending && k == 0x13
}

/// The lines of `s` as `str::lines` gives them: split at each newline, a carriage return
/// before the newline dropped, no line after a final newline.
pub open spec fn split_text(s: Seq<u8>) -> Seq<Seq<u8>>
    decreases s.len(),
{
    if s.len() == 0 {
        Seq::empty()
    } else {
        let i = newline_from(s, 0);
        proof {
            lemma_newline_bound(s, 0);
        }
        if i >= s.len() {
            seq![s]
        } else {
            let line = if i > 0 && s[i - 1] == 13 { s.subrange(0, i - 1) } else { s.subrange(0, i) };
            seq![line] + split_text(s.subrange(i + 1, s.len() as int))
        }
    }
}

/// The index of the first newline of `s` at or after `i`, or the length.
pub open spec fn newline_from(s: Seq<u8>, i: int) -> int
    decreases s.len() - i,
{
    if i < 0 || i >= s.len() { s.len() as int } else if s[i] == 10 { i } else { newline_from(s, i + 1) }
}

/// A newline search from `i` ends between `i` and the end.
pub proof fn lemma_newline_bound(s: Seq<u8>, i: int)
    requires
        0 <= i <= s.len(),
    ensures
        i <= newline_from(s, i) <= s.len(),
    decreases s.len() - i,
{
    if i < s.len() && s[i] != 10 {
        lemma_newline_bound(s, i + 1);
    }
}

/// The lines an edit session starts with: those of the file when it exists and is UTF-8
/// text, or else one empty line.
pub open spec fn initial_lines(data: Option<Seq<u8>>) -> Seq<Seq<u8>> {
    let ls = match data {
        Some(d) => if valid_utf8(d) { split_text(d) } else { Seq::empty() },
        None => Seq::empty(),
    };
    if ls.len() == 0 { seq![Seq::<u8>::empty()] } else { ls }
}

/// The title: ` edit: `, the name, a space, and `[+]` when there are unsaved changes.
pub open spec fn title_text(name: Seq<u8>, modified: bool) -> Seq<u8> {
    seq![0x20u8, 0x65, 0x64, 0x69, 0x74, 0x3a, 0x20] + name + seq![0x20u8]
        + (if modified { seq![0x5bu8, 0x2b, 0x5d] } else { Seq::empty() })
}

/// The status bar's text: the message, or the keys and the cursor's line and column.
pub open spec fn status_text(v: EditorView) -> Seq<u8> {
    if v.status.len() > 0 {
        v.status
    } else {
        seq![0x20u8, 0x5e, 0x53, 0x20, 0x73, 0x61, 0x76, 0x65, 0x20, 0x20, 0x5e, 0x58, 0x20, 0x71, 0x75, 0x69, 0x74,
            0x20, 0x20, 0x20, 0x6c, 0x69, 0x6e, 0x20] + decimal((v.line + 1) as nat) + seq![0x2fu8]
            + decimal(v.lines.len()) + seq![0x20u8, 0x63, 0x6f, 0x6c, 0x20] + decimal((v.col + 1) as nat)
    }
}

/// Column `c` of a bar: its corners, then `text`, then horizontal lines.
pub open spec fn bar_cell(text: Seq<u8>, c: int, left: u8, right: u8) -> u8 {
    if c == 0 { left } else if c == EDIT_COLS - 1 { right } else if c - 1 < text.len() { text[c - 1] } else { 0xc4 }
}

/// The byte shown at row `r` (1 to 23) and column `c` of the text area.
pub open spec fn text_cell(v: EditorView, r: int, c: int) -> u8 {
    let i = v.scroll + r - 1;
    if i < v.lines.len() && c < v.lines[i].len() { v.lines[i][c] } else { 0x20 }
}

/// The cell (byte and colour) at row `r` and column `c` of the frame: the bars in reverse
/// video (black on light gray), the text in light gray on black.
pub open spec fn frame_cell(v: EditorView, name: Seq<u8>, r: int, c: int) -> (u8, u8) {
    if r == 0 {
        (bar_cell(title_text(name, v.modified), c, 0xda, 0xbf), 0x70u8)
    } else if r == EDIT_ROWS + 1 {
        (bar_cell(status_text(v), c, 0xc0, 0xd9), 0x70u8)
    } else {
        (text_cell(v, r, c), 0x07u8)
    }
}

impl Editor {
    pub open spec fn view(&self) -> EditorView {
        EditorView {
            lines: deep_lines(self.lines@),
            line: self.line_idx as int,
            col: self.col_idx as int,
            scroll: self.scroll as int,
            modified: self.modified,
            status: self.status@,
            quit_pending: self.quit_pending,
        }
    }

    pub open spec fn wf(&self) -> bool {
        view_ok(self.view())
    }

    /// Opens `name` whose contents, when it exists, are `data`.
    pub fn open(name: &str, data: Option<&[u8]>) -> (r: Editor)
        ensures
            r.wf(),
            r.name@ == name@,
            r.view().lines == initial_lines(match data { Some(d) => Some(d@), None => None }),
            r.line_idx == 0 && r.col_idx == 0 && r.scroll == 0,
            !r.modified && r.status@.len() == 0 && !r.quit_pending,
    {
        let mut lines: Vec<Vec<u8>> = Vec::new();
        let ghost ls: Seq<Seq<u8>> = Seq::empty();
        if let Some(d) = data {
            if str_from_utf8(d).is_some() {
                lines = split_lines(d);
                proof { ls = split_text(d@); }
            }
        }
        assert(deep_lines(lines@) == ls);
        if lines.len() == 0 {
            lines.push(Vec::new());
            assert(deep_lines(lines@) =~= seq![Seq::<u8>::empty()]);
        }
        Editor {
            name: String::from_str(name),
            lines,
            line_idx: 0,
            col_idx: 0,
            scroll: 0,
            modified: false,
            status: Vec::new(),
            quit_pending: false,
        }
    }
}

impl Editor {
    /// Splits the cursor's line at the cursor (see `split_line`).
    fn split_here(&mut self)
        requires
            old(self).wf(),
        ensures
            final(self).wf(),
            final(self).name == old(self).name,
            final(self).view() == split_line(old(self).view()),
    {
        let ghost v = self.view();
        let i = self.line_idx;
        let n = self.lines.len();
        assert(i < n);
        let mut cur = self.lines[i].clone();
        let rest = cur.split_off(self.col_idx);
        let ghost before = self.lines@;
        self.lines.set(i, cur);
        self.lines.insert(i + 1, rest);
        self.line_idx = i + 1;
        self.col_idx = 0;
        if self.line_idx - self.scroll >= EDIT_ROWS {
            self.scroll = self.line_idx - (EDIT_ROWS - 1);
        }
        self.modified = true;
        assert(deep_lines(self.lines@) =~= split_line(v).lines);
    }

    /// Replaces the cursor's line by `l`.
    fn put_line(&mut self, i: usize, l: Vec<u8>)
        requires
            i < old(self).lines@.len(),
        ensures
            final(self).name == old(self).name && final(self).line_idx == old(self).line_idx
                && final(self).col_idx == old(self).col_idx && final(self).scroll == old(self).scroll
                && final(self).modified == old(self).modified && final(self).status == old(self).status
                && final(self).quit_pending == old(self).quit_pending,
            deep_lines(final(self).lines@) == deep_lines(old(self).lines@).update(i as int, l@),
    {
        self.lines.set(i, l);
        assert(deep_lines(self.lines@) =~= deep_lines(old(self).lines@).update(i as int, l@));
    }

    /// Backspace: deletes the byte before the cursor, or joins the line to the one above.
    fn backspace(&mut self)
        requires
            old(self).wf(),
            !old(self).quit_pending,
        ensures
            final(self).wf(),
            final(self).name == old(self).name,
            final(self).view() == key_step(old(self).view(), 8),
    {
        let ghost v = self.view();
        let i = self.line_idx;
        if self.col_idx > 0 {
            let mut cur = self.lines[i].clone();
            cur.remove(self.col_idx - 1);
            self.put_line(i, cur);
            self.col_idx = self.col_idx - 1;
            self.modified = true;
        } else if i > 0 {
            let mut prev = self.lines[i - 1].clone();
            let plen = prev.len();
            let rest = self.lines.remove(i);
            let mut r2 = rest;
            prev.append(&mut r2);
            let ghost mid = deep_lines(self.lines@);
            self.put_line(i - 1, prev);
            self.col_idx = plen;
            self.line_idx = i - 1;
            self.modified = true;
            if self.scroll > 0 && self.line_idx < self.scroll {
                self.scroll = self.line_idx;
            }
            assert(deep_lines(self.lines@) =~= v.lines.update(i - 1, v.lines[i - 1] + v.lines[i as int]).remove(i as int));
        }
        self.status.clear();
        assert(self.view() =~= key_step(v, 8));
    }
}

impl Editor {
    /// Delete: deletes the byte under the cursor, or joins the next line to this one.
    fn delete_here(&mut self)
        requires
            old(self).wf(),
            !old(self).quit_pending,
        ensures
            final(self).wf(),
            final(self).name == old(self).name,
            final(self).view() == key_step(old(self).view(), KEY_DEL),
    {
        let ghost v = self.view();
        let i = self.line_idx;
        let n = self.lines.len();
        if self.col_idx < self.lines[i].len() {
            let mut cur = self.lines[i].clone();
            cur.remove(self.col_idx);
            self.put_line(i, cur);
            self.modified = true;
        } else if i + 1 < n {
            let mut cur = self.lines[i].clone();
            let mut rest = self.lines.remove(i + 1);
            cur.append(&mut rest);
            self.put_line(i, cur);
            self.modified = true;
            assert(deep_lines(self.lines@) =~= v.lines.update(i as int, v.lines[i as int] + v.lines[i + 1]).remove(i + 1));
        }
        self.status.clear();
        assert(self.view() =~= key_step(v, KEY_DEL));
    }

    /// The arrow keys, Home and End.
    fn move_cursor(&mut self, k: u8)
        requires
            old(self).wf(),
            !old(self).quit_pending,
            k == KEY_LEFT || k == KEY_RIGHT || k == KEY_UP || k == KEY_DOWN || k == KEY_HOME || k == KEY_END,
        ensures
            final(self).wf(),
            final(self).name == old(self).name,
            final(self).view() == key_step(old(self).view(), k),
    {
        let ghost v = self.view();
        let i = self.line_idx;
        let n = self.lines.len();
        if k == KEY_LEFT {
            if self.col_idx > 0 {
                self.col_idx = self.col_idx - 1;
            } else if i > 0 {
                self.line_idx = i - 1;
                self.col_idx = self.lines[i - 1].len();
                if self.scroll > 0 && self.line_idx < self.scroll {
                    self.scroll = self.line_idx;
                }
            }
        } else if k == KEY_RIGHT {
            if self.col_idx < self.lines[i].len() {
                self.col_idx = self.col_idx + 1;
            } else if i + 1 < n {
                self.line_idx = i + 1;
                self.col_idx = 0;
                if self.line_idx - self.scroll >= EDIT_ROWS {
                    self.scroll = self.line_idx - (EDIT_ROWS - 1);
                }
            }
        } else if k == KEY_UP {
            if i > 0 {
                self.line_idx = i - 1;
                let l = self.lines[i - 1].len();
                if self.col_idx > l {
                    self.col_idx = l;
                }
                if self.scroll > 0 && self.line_idx < self.scroll {
                    self.scroll = self.line_idx;
                }
            }
        } else if k == KEY_DOWN {
            if i + 1 < n {
                self.line_idx = i + 1;
                let l = self.lines[i + 1].len();
                if self.col_idx > l {
                    self.col_idx = l;
                }
                if self.line_idx - self.scroll >= EDIT_ROWS {
                    self.scroll = self.line_idx - (EDIT_ROWS - 1);
                }
            }
        } else if k == KEY_HOME {
            self.col_idx = 0;
        } else {
            self.col_idx = self.lines[i].len();
        }
        self.status.clear();
        assert(self.view() =~= key_step(v, k));
    }

    /// A printable byte: inserted at the cursor; at the 80th column the line is split.
    fn type_byte(&mut self, k: u8)
        requires
            old(self).wf(),
            !old(self).quit_pending,
            0x20 <= k <= 0x7e,
        ensures
            final(self).wf(),
            final(self).name == old(self).name,
            final(self).view() == key_step(old(self).view(), k),
    {
        let ghost v = self.view();
        let i = self.line_idx;
        self.status.clear();
        let mut cur = self.lines[i].clone();
        cur.insert(self.col_idx, k);
        let nl = cur.len();
        assert(self.col_idx < nl);
        self.put_line(i, cur);
        self.col_idx = self.col_idx + 1;
        self.modified = true;
        let ghost w = self.view();
        assert(w =~= edited(EditorView { status: Seq::empty(), ..v }, v.lines.update(v.line, v.lines[v.line].insert(v.col, k)),
            v.line, v.col + 1, v.scroll));
        if self.col_idx >= EDIT_COLS {
            self.split_here();
        }
    }

    /// Saves the lines, joined with newlines, as the file of the editor's name.
    fn save(&mut self, fs: &mut FileSystem)
        requires
            old(self).wf(),
            !old(self).quit_pending,
        ensures
            final(self).wf(),
            final(self).name == old(self).name,
            final(self).view() == key_step(old(self).view(), 0x13),
            final(fs).files == old(fs).files,
            final(fs).ram() == without(old(fs).ram(), old(self).name@).push((old(self).name@, joined(old(self).view().lines))),
    {
        let ghost v = self.view();
        let data = join_lines(&self.lines);
        let _ok = fs.file_write(self.name.as_str(), data.as_slice());
        self.status = bytes_of(&[0x20u8, 0x73, 0x61, 0x6c, 0x76, 0x6f, 0x21]);
        self.modified = false;
        assert(self.view() =~= key_step(v, 0x13));
    }

    /// One key (see `key_step`, `key_quits` and `key_saves`); says whether the session ends.
    pub fn key(&mut self, k: u8, fs: &mut FileSystem) -> (quit: bool)
        requires
            old(self).wf(),
        ensures
            final(self).wf(),
            final(self).name == old(self).name,
            final(self).view() == key_step(old(self).view(), k),
            quit == key_quits(old(self).view(), k),
            key_saves(old(self).view(), k) ==> final(fs).files == old(fs).files
                && final(fs).ram() == without(old(fs).ram(), old(self).name@).push((old(self).name@, joined(old(self).view().lines))),
            !key_saves(old(self).view(), k) ==> *final(fs) == *old(fs),
    {
        let ghost v = self.view();
        if self.quit_pending {
            self.quit_pending = false;
            assert(self.view() =~= key_step(v, k));
            return k == 0x11 || k == 0x18;
        }
        if k == 10 || k == 13 {
            self.status.clear();
            self.split_here();
            false
        } else if k == 8 || k == 0x7f {
            self.backspace();
            false
        } else if k == KEY_DEL {
            self.delete_here();
            false
        } else if k == KEY_LEFT || k == KEY_RIGHT || k == KEY_UP || k == KEY_DOWN || k == KEY_HOME || k == KEY_END {
            self.move_cursor(k);
            false
        } else if k == 0x11 || k == 0x18 {
            self.status.clear();
            if self.modified {
                self.status = bytes_of(&[0x20u8, 0x73, 0x65, 0x6d, 0x20, 0x73, 0x61, 0x6c, 0x76, 0x61, 0x72, 0x21, 0x20, 0x5e,
                    0x53, 0x20, 0x70, 0x61, 0x72, 0x61, 0x20, 0x73, 0x61, 0x6c, 0x76, 0x61, 0x72, 0x2c, 0x20, 0x5e, 0x51, 0x20,
                    0x64, 0x65, 0x20, 0x6e, 0x6f, 0x76, 0x6f, 0x20, 0x70, 0x61, 0x72, 0x61, 0x20, 0x73, 0x61, 0x69, 0x72]);
                self.quit_pending = true;
                assert(self.view() =~= key_step(v, k));
                false
            } else {
                assert(self.view() =~= key_step(v, k));
                true
            }
        } else if k == 0x13 {
            self.save(fs);
            false
        } else if 0x20 <= k && k <= 0x7e {
            self.type_byte(k);
            false
        } else {
            self.status.clear();
            assert(self.view() =~= key_step(v, k));
            false
        }
    }
}

/// Decoding the editor's keys from bytes: the step from escape state `esc` on byte `c`, as
/// the next state and the key it completes, if any. `ESC [` followed by `A`, `B`, `C`, `D`,
/// `H` or `F` is an arrow, Home or End key, `ESC [ 3 ~` is Delete; other sequences are dropped.
pub open spec fn edit_key_step(esc: u8, c: u8) -> (u8, Option<u8>) {
    if esc == 0 {
        if c == 0x1b { (1u8, None) } else { (0u8, Some(c)) }
    } else if esc == 1 {
        if c == 0x5b { (2u8, None) } else { (0u8, None) }
    } else if esc == 2 {
        if c == 0x41 { (0u8, Some(KEY_UP)) }
        else if c == 0x42 { (0u8, Some(KEY_DOWN)) }
        else if c == 0x43 { (0u8, Some(KEY_RIGHT)) }
        else if c == 0x44 { (0u8, Some(KEY_LEFT)) }
        else if c == 0x48 { (0u8, Some(KEY_HOME)) }
        else if c == 0x46 { (0u8, Some(KEY_END)) }
        else if c == 0x33 { (3u8, None) }
        else { (0u8, None) }
    } else {
        if c == 0x7e { (0u8, Some(KEY_DEL)) } else { (0u8, None) }
    }
}

/// One byte of the editor's input (see `edit_key_step`).
pub fn editor_read_key(esc: u8, c: u8) -> (r: (u8, Option<u8>))
    ensures
        r == edit_key_step(esc, c),
        r.0 <= 3,
{
    if esc == 0 {
        if c == 0x1b { (1, None) } else { (0, Some(c)) }
    } else if esc == 1 {
        if c == 0x5b { (2, None) } else { (0, None) }
    } else if esc == 2 {
        if c == 0x41 { (0, Some(KEY_UP)) }
        else if c == 0x42 { (0, Some(KEY_DOWN)) }
        else if c == 0x43 { (0, Some(KEY_RIGHT)) }
        else if c == 0x44 { (0, Some(KEY_LEFT)) }
        else if c == 0x48 { (0, Some(KEY_HOME)) }
        else if c == 0x46 { (0, Some(KEY_END)) }
        else if c == 0x33 { (3, None) }
        else { (0, None) }
    } else {
        if c == 0x7e { (0, Some(KEY_DEL)) } else { (0, None) }
    }
}

/// A frame: 25 rows of 80 cells (byte, colour) and the cursor's row and column.
pub struct Frame {
    pub rows: Vec<Vec<(u8, u8)>>,
    pub cursor: (usize, usize),
}

/// A bar: its corners, `text`, then horizontal lines, in reverse video.
fn bar_row(text: &Vec<u8>, left: u8, right: u8) -> (r: Vec<(u8, u8)>)
    ensures
        r@.len() == EDIT_COLS,
        forall|c: int| 0 <= c < EDIT_COLS ==> #[trigger] r@[c] == (bar_cell(text@, c, left, right), 0x70u8),
{
    let mut row: Vec<(u8, u8)> = Vec::new();
    let mut c: usize = 0;
    while c < EDIT_COLS
        invariant
            c <= EDIT_COLS,
            row@.len() == c,
            forall|j: int| 0 <= j < c ==> #[trigger] row@[j] == (bar_cell(text@, j, left, right), 0x70u8),
        decreases EDIT_COLS - c,
    {
        let ch = if c == 0 { left } else if c == EDIT_COLS - 1 { right } else if c - 1 < text.len() { text[c - 1] } else { 0xc4 };
        row.push((ch, 0x70));
        c = c + 1;
    }
    row
}

impl Editor {
    /// The status bar's text (see `status_text`).
    pub fn status_line(&self) -> (r: Vec<u8>)
        requires
            self.wf(),
        ensures
            r@ == status_text(self.view()),
    {
        if self.status.len() > 0 {
            return self.status.clone();
        }
        let mut t = bytes_of(&[0x20u8, 0x5e, 0x53, 0x20, 0x73, 0x61, 0x76, 0x65, 0x20, 0x20, 0x5e, 0x58, 0x20, 0x71, 0x75,
            0x69, 0x74, 0x20, 0x20, 0x20, 0x6c, 0x69, 0x6e, 0x20]);
        let mut a = print_u128(self.line_idx as u128 + 1);
        t.append(&mut a);
        t.push(0x2f);
        let mut b = print_u128(self.lines.len() as u128);
        t.append(&mut b);
        let mut c = bytes_of(&[0x20u8, 0x63, 0x6f, 0x6c, 0x20]);
        t.append(&mut c);
        let mut d = print_u128(self.col_idx as u128 + 1);
        t.append(&mut d);
        assert(t@ =~= status_text(self.view()));
        t
    }

    /// Row `r` (1 to 23) of the text area.
    fn text_row(&self, r: usize) -> (row: Vec<(u8, u8)>)
        requires
            self.wf(),
            1 <= r <= EDIT_ROWS,
        ensures
            row@.len() == EDIT_COLS,
            forall|c: int| 0 <= c < EDIT_COLS ==> #[trigger] row@[c] == (text_cell(self.view(), r as int, c), 0x07u8),
    {
        let mut row: Vec<(u8, u8)> = Vec::new();
        let off = r - 1;
        let shown = off < self.lines.len() - self.scroll;
        let i = if shown { self.scroll + off } else { 0 };
        let mut c: usize = 0;
        while c < EDIT_COLS
            invariant
                self.wf(),
                1 <= r <= EDIT_ROWS,
                shown == (self.scroll + r - 1 < self.lines@.len()),
                shown ==> i == self.scroll + r - 1,
                c <= EDIT_COLS,
                row@.len() == c,
                forall|j: int| 0 <= j < c ==> #[trigger] row@[j] == (text_cell(self.view(), r as int, j), 0x07u8),
            decreases EDIT_COLS - c,
        {
            let ch = if shown && c < self.lines[i].len() { self.lines[i][c] } else { 0x20 };
            row.push((ch, 0x07));
            c = c + 1;
        }
        row
    }

    /// The frame that shows the editor (see `frame_cell`); the cursor is at its line's row
    /// and its column, or the last column when it is further right.
    pub fn render(&self) -> (f: Frame)
        requires
            self.wf(),
        ensures
            f.rows@.len() == EDIT_ROWS + 2,
            forall|r: int| 0 <= r < EDIT_ROWS + 2 ==> (#[trigger] f.rows@[r])@.len() == EDIT_COLS,
            forall|r: int, c: int| 0 <= r < EDIT_ROWS + 2 && 0 <= c < EDIT_COLS
                ==> #[trigger] f.rows@[r]@[c] == frame_cell(self.view(), encode_utf8(self.name@), r, c),
            f.cursor.0 == 1 + self.line_idx - self.scroll,
            f.cursor.1 == (if self.col_idx < EDIT_COLS - 1 { self.col_idx as int } else { EDIT_COLS - 1 }),
    {
        let ghost v = self.view();
        let ghost name = encode_utf8(self.name@);
        let mut title = bytes_of(&[0x20u8, 0x65, 0x64, 0x69, 0x74, 0x3a, 0x20]);
        let mut nb = self.name.as_str().as_bytes_vec();
        title.append(&mut nb);
        title.push(0x20);
        if self.modified {
            title.push(0x5b);
            title.push(0x2b);
            title.push(0x5d);
        }
        assert(title@ =~= title_text(name, self.modified));
        let mut rows: Vec<Vec<(u8, u8)>> = Vec::new();
        rows.push(bar_row(&title, 0xda, 0xbf));
        let mut r: usize = 1;
        while r <= EDIT_ROWS
            invariant
                self.wf(),
                v == self.view(),
                name == encode_utf8(self.name@),
                title@ == title_text(name, self.modified),
                1 <= r <= EDIT_ROWS + 1,
                rows@.len() == r,
                forall|q: int| 0 <= q < r ==> (#[trigger] rows@[q])@.len() == EDIT_COLS,
                forall|q: int, c: int| 0 <= q < r && 0 <= c < EDIT_COLS
                    ==> #[trigger] rows@[q]@[c] == frame_cell(v, name, q, c),
            decreases EDIT_ROWS + 1 - r,
        {
            let row = self.text_row(r);
            rows.push(row);
            r = r + 1;
        }
        let st = self.status_line();
        rows.push(bar_row(&st, 0xc0, 0xd9));
        let col = if self.col_idx < EDIT_COLS - 1 { self.col_idx } else { EDIT_COLS - 1 };
        Frame { rows, cursor: (1 + (self.line_idx - self.scroll), col) }
    }
}

/// The bytes of `s` as a vector.
fn bytes_of(s: &[u8]) -> (r: Vec<u8>)
    ensures
        r@ == s@,
{
    let mut r: Vec<u8> = Vec::new();
    let mut i: usize = 0;
    while i < s.len()
        invariant
            i <= s@.len(),
            r@ == s@.subrange(0, i as int),
        decreases s@.len() - i,
    {
        r.push(s[i]);
        assert(r@ =~= s@.subrange(0, i + 1));
        i = i + 1;
    }
    assert(s@.subrange(0, s@.len() as int) =~= s@);
    r
}

/// The lines joined with newlines (see `joined`).
pub fn join_lines(lines: &Vec<Vec<u8>>) -> (r: Vec<u8>)
    ensures
        r@ == joined(deep_lines(lines@)),
{
    let mut data: Vec<u8> = Vec::new();
    let mut i: usize = 0;
    while i < lines.len()
        invariant
            i <= lines@.len(),
            data@ == joined(deep_lines(lines@).subrange(0, i as int)),
        decreases lines@.len() - i,
    {
        let ghost before = data@;
        if i > 0 {
            data.push(10);
        }
        let mut k: usize = 0;
        let ghost mid = data@;
        while k < lines[i].len()
            invariant
                i < lines@.len(),
                k <= lines@[i as int]@.len(),
                data@ == mid + lines@[i as int]@.subrange(0, k as int),
            decreases lines@[i as int]@.len() - k,
        {
            data.push(lines[i][k]);
            assert(data@ =~= mid + lines@[i as int]@.subrange(0, k + 1));
            k = k + 1;
        }
        proof {
            let d = deep_lines(lines@);
            let s1 = d.subrange(0, i + 1);
            assert(s1.drop_last() =~= d.subrange(0, i as int));
            assert(s1.last() == lines@[i as int]@);
            assert(lines@[i as int]@.subrange(0, lines@[i as int]@.len() as int) =~= lines@[i as int]@);
            if i == 0 {
                assert(data@ =~= joined(s1));
            } else {
                assert(data@ =~= joined(s1));
            }
        }
        i = i + 1;
    }
    assert(deep_lines(lines@).subrange(0, lines@.len() as int) =~= deep_lines(lines@));
    data
}

/// The lines of `d` (see `split_text`).
pub fn split_lines(d: &[u8]) -> (r: Vec<Vec<u8>>)
    ensures
        deep_lines(r@) == split_text(d@),
{
    let mut out: Vec<Vec<u8>> = Vec::new();
    let mut start: usize = 0;
    assert(d@.subrange(0, d@.len() as int) =~= d@);
    assert(deep_lines(out@) =~= Seq::<Seq<u8>>::empty());
    while start < d.len()
        invariant
            start <= d@.len(),
            deep_lines(out@) + split_text(d@.subrange(start as int, d@.len() as int)) == split_text(d@),
        decreases d@.len() - start,
    {
        let ghost rest = d@.subrange(start as int, d@.len() as int);
        let mut i = start;
        while i < d.len() && d[i] != 10
            invariant
                start <= i <= d@.len(),
                rest == d@.subrange(start as int, d@.len() as int),
                newline_from(rest, (i - start) as int) == newline_from(rest, 0),
            decreases d@.len() - i,
        {
            assert(rest[(i - start) as int] == d@[i as int]);
            i = i + 1;
        }
        proof {
            if i < d@.len() {
                assert(rest[(i - start) as int] == d@[i as int]);
            }
            assert(newline_from(rest, (i - start) as int) == (i - start) as int);
        }
        let end = if i < d.len() && i > start && d[i - 1] == 13 { i - 1 } else { i };
        let mut line: Vec<u8> = Vec::new();
        let mut k = start;
        while k < end
            invariant
                start <= k <= end <= d@.len(),
                line@ == d@.subrange(start as int, k as int),
            decreases end - k,
        {
            line.push(d[k]);
            assert(line@ =~= d@.subrange(start as int, k + 1));
            k = k + 1;
        }
        let ghost before = deep_lines(out@);
        out.push(line);
        proof {
            assert(deep_lines(out@) =~= before.push(line@));
            let j = (i - start) as int;
            if i < d@.len() {
                let nl = if j > 0 && rest[j - 1] == 13 { rest.subrange(0, j - 1) } else { rest.subrange(0, j) };
                if j > 0 { assert(rest[j - 1] == d@[i - 1]); }
                assert(line@ =~= nl);
                assert(rest.subrange(j + 1, rest.len() as int) =~= d@.subrange(i + 1, d@.len() as int));
                assert(split_text(rest) == seq![nl] + split_text(rest.subrange(j + 1, rest.len() as int)));
                assert(before + split_text(rest) =~= deep_lines(out@) + split_text(d@.subrange(i + 1, d@.len() as int)));
            } else {
                assert(line@ =~= rest);
                assert(split_text(rest) == seq![rest]);
                assert(d@.subrange(d@.len() as int, d@.len() as int) =~= Seq::<u8>::empty());
                assert(before + split_text(rest) =~= deep_lines(out@) + split_text(d@.subrange(i as int, d@.len() as int)));
            }
        }
        start = if i < d.len() { i + 1 } else { i };
    }
    assert(d@.subrange(d@.len() as int, d@.len() as int) =~= Seq::<u8>::empty());
    assert(d@.subrange(0, d@.len() as int) =~= d@);
    assert(deep_lines(out@) + Seq::<Seq<u8>>::empty() =~= deep_lines(out@));
    out
}

} // verus!
