//! Reading a line: each byte from the keyboard or the serial line is one step of the line
//! editor, including the escape sequences `ESC [ A` and the like that a terminal sends for
//! its arrow keys.
use vstd::prelude::*;
use crate::keyboard::{KEY_LEFT, KEY_RIGHT, KEY_UP, KEY_DOWN, KEY_HOME, KEY_END, KEY_DEL};
use crate::line_editor::{LineEditor, ScreenOp, puts, rep, trimmed, trim_bytes, same_line, blank_ops};
use crate::line_editor::{push_history_effect, clear_line_effect, delete_before_effect, delete_after_effect};
use crate::line_editor::{history_down_effect, history_up_effect, insert_char_effect};
use crate::line_editor::{cursor_left_effect, cursor_right_effect, cursor_home_effect, cursor_end_effect};
use crate::completion::tab_complete_effect;

verus! {

/// What a byte does to the line.
#[derive(Clone, Copy, PartialEq, Eq, Structural, Debug)]
pub enum KeyAction {
    Enter,
    Interrupt,
    EndOfInput,
    Backspace,
    Complete,
    Refresh,
    Down,
    Up,
    Kill,
    Left,
    Right,
    Home,
    End,
    Delete,
    Insert,
    Ignore,
}

/// What a step of line reading gives: keep reading, a line, or no line.
#[derive(Debug)]
pub enum Feed {
    More,
    Line(Vec<u8>),
    Nothing,
}

/// The action of byte `c` in escape state `esc` on a line of `len` bytes.
pub open spec fn key_action(esc: u8, c: u8, len: int) -> KeyAction {
    if esc == 0 {
        if c == 10 || c == 13 { KeyAction::Enter }
        else if c == 3 { KeyAction::Interrupt }
        else if c == 4 { if len == 0 { KeyAction::EndOfInput } else { KeyAction::Ignore } }
        else if c == 8 || c == 0x7f { KeyAction::Backspace }
        else if c == 9 { KeyAction::Complete }
        else if c == 0x0c { KeyAction::Refresh }
        else if c == 0x0e { KeyAction::Down }
        else if c == 0x10 { KeyAction::Up }
        else if c == 0x15 { KeyAction::Kill }
        else if c == KEY_LEFT { KeyAction::Left }
        else if c == KEY_RIGHT { KeyAction::Right }
        else if c == KEY_UP { KeyAction::Up }
        else if c == KEY_DOWN { KeyAction::Down }
        else if c == KEY_HOME { KeyAction::Home }
        else if c == KEY_END { KeyAction::End }
        else if c == KEY_DEL { KeyAction::Delete }
        else if c != 0x1b && len < 255 && 0x20 <= c <= 0x7e { KeyAction::Insert }
        else { KeyAction::Ignore }
    } else if esc == 2 {
        if c == 0x41 { KeyAction::Up }
        else if c == 0x42 { KeyAction::Down }
        else if c == 0x43 { KeyAction::Right }
        else if c == 0x44 { KeyAction::Left }
        else if c == 0x48 { KeyAction::Home }
        else if c == 0x46 { KeyAction::End }
        else { KeyAction::Ignore }
    } else if esc == 3 {
        if c == 0x7e { KeyAction::Delete } else { KeyAction::Ignore }
    } else if esc == 4 {
        if c == 0x7e { KeyAction::Home } else { KeyAction::Ignore }
    } else if esc == 5 {
        if c == 0x7e { KeyAction::End } else { KeyAction::Ignore }
    } else {
        KeyAction::Ignore
    }
}

/// The escape state after byte `c`: 1 after ESC, 2 after `ESC [`, 3, 4 or 5 after
/// `ESC [ 3`, `ESC [ 1` or `ESC [ 4` (which wait for a `~`), else 0.
pub open spec fn next_esc(esc: u8, c: u8) -> u8 {
    if esc == 0 {
        if c == 0x1b { 1 } else { 0 }
    } else if esc == 1 {
        if c == 0x5b { 2 } else { 0 }
    } else if esc == 2 {
        if c == 0x33 { 3 } else if c == 0x31 { 4 } else if c == 0x34 { 5 } else { 0 }
    } else {
        0
    }
}

/// The line that a finished line `t` (trimmed) gives: none when it is empty, `exit` or `quit`.
pub open spec fn line_result(t: Seq<u8>) -> Option<Seq<u8>> {
    if t.len() == 0 || t == seq![0x65u8, 0x78, 0x69, 0x74] || t == seq![0x71u8, 0x75, 0x69, 0x74] {
        None
    } else {
        Some(t)
    }
}

/// The action of a byte (see `key_action`).
pub fn decode_key(esc: u8, c: u8, len: usize) -> (r: KeyAction)
    ensures
        r == key_action(esc, c, len as int),
{
    if esc == 0 {
        if c == 10 || c == 13 { KeyAction::Enter }
        else if c == 3 { KeyAction::Interrupt }
        else if c == 4 { if len == 0 { KeyAction::EndOfInput } else { KeyAction::Ignore } }
        else if c == 8 || c == 0x7f { KeyAction::Backspace }
        else if c == 9 { KeyAction::Complete }
        else if c == 0x0c { KeyAction::Refresh }
        else if c == 0x0e { KeyAction::Down }
        else if c == 0x10 { KeyAction::Up }
        else if c == 0x15 { KeyAction::Kill }
        else if c == KEY_LEFT { KeyAction::Left }
        else if c == KEY_RIGHT { KeyAction::Right }
        else if c == KEY_UP { KeyAction::Up }
        else if c == KEY_DOWN { KeyAction::Down }
        else if c == KEY_HOME { KeyAction::Home }
        else if c == KEY_END { KeyAction::End }
        else if c == KEY_DEL { KeyAction::Delete }
        else if c != 0x1b && len < 255 && 0x20 <= c && c <= 0x7e { KeyAction::Insert }
        else { KeyAction::Ignore }
    } else if esc == 2 {
        if c == 0x41 { KeyAction::Up }
        else if c == 0x42 { KeyAction::Down }
        else if c == 0x43 { KeyAction::Right }
        else if c == 0x44 { KeyAction::Left }
        else if c == 0x48 { KeyAction::Home }
        else if c == 0x46 { KeyAction::End }
        else { KeyAction::Ignore }
    } else if esc == 3 {
        if c == 0x7e { KeyAction::Delete } else { KeyAction::Ignore }
    } else if esc == 4 {
        if c == 0x7e { KeyAction::Home } else { KeyAction::Ignore }
    } else if esc == 5 {
        if c == 0x7e { KeyAction::End } else { KeyAction::Ignore }
    } else {
        KeyAction::Ignore
    }
}

/// The escape state after a byte (see `next_esc`).
pub fn escape_state(esc: u8, c: u8) -> (r: u8)
    ensures
        r == next_esc(esc, c),
        r <= 5,
{
    if esc == 0 {
        if c == 0x1b { 1 } else { 0 }
    } else if esc == 1 {
        if c == 0x5b { 2 } else { 0 }
    } else if esc == 2 {
        if c == 0x33 { 3 } else if c == 0x31 { 4 } else if c == 0x34 { 5 } else { 0 }
    } else {
        0
    }
}

impl LineEditor {
    /// Starts a new line: the prompt is shown and the line is emptied.
    pub fn start_line(&mut self, out: &mut Vec<ScreenOp>)
        requires
            old(self).wf(),
        ensures
            final(self).wf(),
            final(self).buf@.len() == 0 && final(self).cursor == 0 && final(self).esc == 0,
            final(self).history == old(self).history && final(self).hist_idx == old(self).hist_idx
                && final(self).saved == old(self).saved,
            final(out)@ == old(out)@.push(ScreenOp::Prompt),
    {
        out.push(ScreenOp::Prompt);
        self.buf.clear();
        self.cursor = 0;
        self.esc = 0;
    }

    /// One byte of input: the editor acts on it (see `key_action`) and says whether the line
    /// is done. Enter gives the trimmed line, recorded in the history, unless it is empty,
    /// `exit` or `quit`; Ctrl+C blanks the line and gives none, as does Ctrl+D on an empty line.
    pub fn feed_key(&mut self, c: u8, files: &Vec<Vec<u8>>, out: &mut Vec<ScreenOp>) -> (r: Feed)
        requires
            old(self).wf(),
        ensures
            final(self).wf(),
            final(self).esc == next_esc(old(self).esc, c),
            ({
                let o = *old(self);
                let n = *final(self);
                let oo = old(out)@;
                let no = final(out)@;
                match key_action(o.esc, c, o.buf@.len() as int) {
                    KeyAction::Enter => push_history_effect(o, n) && no == oo.push(ScreenOp::Put(10)),
                    KeyAction::Interrupt => {
                        let blank = oo + blank_ops(o.cursor as int, o.buf@.len() as int);
                        clear_line_effect(o, n, oo, blank) && no == blank + puts(seq![0x5eu8, 0x43, 0x0a])
                    },
                    KeyAction::EndOfInput => same_line(o, n) && no == oo.push(ScreenOp::Put(10)),
                    KeyAction::Backspace => delete_before_effect(o, n, oo, no),
                    KeyAction::Complete => tab_complete_effect(o, n, files@, oo, no),
                    KeyAction::Refresh => same_line(o, n) && no == oo + seq![ScreenOp::Clear, ScreenOp::Prompt]
                        + puts(o.buf@) + rep(ScreenOp::Put(8), o.buf@.len() - o.cursor),
                    KeyAction::Down => history_down_effect(o, n, oo, no),
                    KeyAction::Up => history_up_effect(o, n, oo, no),
                    KeyAction::Kill => clear_line_effect(o, n, oo, no),
                    KeyAction::Left => cursor_left_effect(o, n, oo, no),
                    KeyAction::Right => cursor_right_effect(o, n, oo, no),
                    KeyAction::Home => cursor_home_effect(o, n, oo, no),
                    KeyAction::End => cursor_end_effect(o, n, oo, no),
                    KeyAction::Delete => delete_after_effect(o, n, oo, no),
                    KeyAction::Insert => insert_char_effect(o, n, c, oo, no),
                    KeyAction::Ignore => same_line(o, n) && no == oo,
                }
            }),
            ({
                let a = key_action(old(self).esc, c, old(self).buf@.len() as int);
                match r {
                    Feed::More => !(a is Enter || a is Interrupt || a is EndOfInput),
                    Feed::Nothing => a is Interrupt || a is EndOfInput
                        || (a is Enter && line_result(trimmed(old(self).buf@)) is None),
                    Feed::Line(v) => a is Enter && line_result(trimmed(old(self).buf@)) == Some(v@),
                }
            }),
    {
        let a = decode_key(self.esc, c, self.buf.len());
        let ne = escape_state(self.esc, c);
        let r = match a {
            KeyAction::Enter => {
                out.push(ScreenOp::Put(10));
                let line = trim_bytes(&self.buf);
                self.push_history();
                if line.len() == 0 || is_word(&line, 0x65, 0x78, 0x69, 0x74) || is_word(&line, 0x71, 0x75, 0x69, 0x74) {
                    Feed::Nothing
                } else {
                    Feed::Line(line)
                }
            },
            KeyAction::Interrupt => {
                self.clear_line(out);
                out.push(ScreenOp::Put(0x5e));
                out.push(ScreenOp::Put(0x43));
                out.push(ScreenOp::Put(0x0a));
                Feed::Nothing
            },
            KeyAction::EndOfInput => {
                out.push(ScreenOp::Put(10));
                Feed::Nothing
            },
            KeyAction::Backspace => { self.delete_before(out); Feed::More },
            KeyAction::Complete => { self.tab_complete(files, out); Feed::More },
            KeyAction::Refresh => {
                out.push(ScreenOp::Clear);
                out.push(ScreenOp::Prompt);
                let ghost o1 = out@;
                let mut i: usize = 0;
                while i < self.buf.len()
                    invariant
                        i <= self.buf@.len(),
                        out@ == o1 + puts(self.buf@.subrange(0, i as int)),
                    decreases self.buf@.len() - i,
                {
                    out.push(ScreenOp::Put(self.buf[i]));
                    assert(out@ =~= o1 + puts(self.buf@.subrange(0, i + 1)));
                    i = i + 1;
                }
                assert(self.buf@.subrange(0, self.buf@.len() as int) =~= self.buf@);
                let remaining = self.buf.len() - self.cursor;
                let ghost o2 = out@;
                let mut k: usize = 0;
                while k < remaining
                    invariant
                        k <= remaining,
                        out@ == o2 + rep(ScreenOp::Put(8), k as int),
                    decreases remaining - k,
                {
                    out.push(ScreenOp::Put(8));
                    assert(out@ =~= o2 + rep(ScreenOp::Put(8), k + 1));
                    k = k + 1;
                }
                Feed::More
            },
            KeyAction::Down => { self.history_down(out); Feed::More },
            KeyAction::Up => { self.history_up(out); Feed::More },
            KeyAction::Kill => { self.clear_line(out); Feed::More },
            KeyAction::Left => { self.cursor_left(out); Feed::More },
            KeyAction::Right => { self.cursor_right(out); Feed::More },
            KeyAction::Home => { self.cursor_home(out); Feed::More },
            KeyAction::End => { self.cursor_end(out); Feed::More },
            KeyAction::Delete => { self.delete_after(out); Feed::More },
            KeyAction::Insert => { self.insert_char(c, out); Feed::More },
            KeyAction::Ignore => Feed::More,
        };
        self.esc = ne;
        r
    }
}

/// Whether `s` is the four bytes `a b c d`.
fn is_word(s: &Vec<u8>, a: u8, b: u8, c: u8, d: u8) -> (r: bool)
    ensures
        r == (s@ == seq![a, b, c, d]),
{
    let r = s.len() == 4 && s[0] == a && s[1] == b && s[2] == c && s[3] == d;
    if r {
        assert(s@ =~= seq![a, b, c, d]);
    }
    r
}

} // verus!
