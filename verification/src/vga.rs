//! The 80x25 text screen: a grid of character and attribute bytes, a cursor and a current
//! colour. Writing a character also echoes it to the serial line; the bytes to send are
//! returned.
use vstd::prelude::*;
use vstd::string::*;

verus! {

pub const WIDTH: usize = 80;
pub const HEIGHT: usize = 25;
pub const TAB: usize = 4;
pub const CELLS: usize = 4000;

/// The sixteen text colours.
#[derive(Clone, Copy, PartialEq, Eq, Structural, Debug)]
pub enum Color {
    Black,
    Blue,
    Green,
    Cyan,
    Red,
    Magenta,
    Brown,
    LightGray,
    DarkGray,
    LightBlue,
    LightGreen,
    LightCyan,
    LightRed,
    Pink,
    Yellow,
    White,
}

/// The number of each colour.
pub open spec fn color_index(c: Color) -> u8 {
    match c {
        Color::Black => 0,
        Color::Blue => 1,
        Color::Green => 2,
        Color::Cyan => 3,
        Color::Red => 4,
        Color::Magenta => 5,
        Color::Brown => 6,
        Color::LightGray => 7,
        Color::DarkGray => 8,
        Color::LightBlue => 9,
        Color::LightGreen => 10,
        Color::LightCyan => 11,
        Color::LightRed => 12,
        Color::Pink => 13,
        Color::Yellow => 14,
        Color::White => 15,
    }
}

impl Color {
    /// The number of the colour.
    pub fn index(self) -> (r: u8)
        ensures
            r == color_index(self),
    {
        match self {
            Color::Black => 0,
            Color::Blue => 1,
            Color::Green => 2,
            Color::Cyan => 3,
            Color::Red => 4,
            Color::Magenta => 5,
            Color::Brown => 6,
            Color::LightGray => 7,
            Color::DarkGray => 8,
            Color::LightBlue => 9,
            Color::LightGreen => 10,
            Color::LightCyan => 11,
            Color::LightRed => 12,
            Color::Pink => 13,
            Color::Yellow => 14,
            Color::White => 15,
        }
    }
}

/// The attribute byte for foreground `fg` on background `bg`.
pub open spec fn spec_attr(fg: Color, bg: Color) -> u8 {
    (color_index(bg) * 16 + color_index(fg)) as u8
}

/// The attribute byte for foreground `fg` on background `bg`.
pub fn attr(fg: Color, bg: Color) -> (r: u8)
    ensures
        r == spec_attr(fg, bg),
{
    bg.index() * 16 + fg.index()
}

/// Light grey on black.
pub fn default_attr() -> (r: u8)
    ensures
        r == 7,
{
    7
}

/// The width of the screen in characters.
pub fn vga_width() -> (r: usize)
    ensures
        r == 80,
{
    WIDTH
}

/// The height of the screen in characters.
pub fn vga_height() -> (r: usize)
    ensures
        r == 25,
{
    HEIGHT
}

/// The screen: for each cell a character byte then an attribute byte, row by row; the
/// cursor; the colour of new text.
pub struct Screen {
    pub cells: Vec<u8>,
    pub row: usize,
    pub col: usize,
    pub color: u8,
}

/// A screen state as plain values.
pub struct ScreenView {
    pub cells: Seq<u8>,
    pub row: int,
    pub col: int,
    pub color: u8,
}

/// The cells after scrolling up one line: the top line leaves, a blank line in `color`
/// comes in at the bottom.
pub open spec fn scrolled(cells: Seq<u8>, color: u8) -> Seq<u8> {
    cells.subrange(160, 4000) + Seq::new(160, |i: int| if i % 2 == 0 { 0x20u8 } else { color })
}

/// Cell `(row, col)` set to character `ch` in colour `color`.
pub open spec fn put_cell(cells: Seq<u8>, row: int, col: int, ch: u8, color: u8) -> Seq<u8> {
    let o = (row * 80 + col) * 2;
    cells.update(o, ch).update(o + 1, color)
}

/// The screen after a new line: first column, next row, or a scroll on the last row.
pub open spec fn newline(s: ScreenView) -> ScreenView {
    if s.row + 1 < 25 {
        ScreenView { row: s.row + 1, col: 0, ..s }
    } else {
        ScreenView { cells: scrolled(s.cells, s.color), col: 0, ..s }
    }
}

/// The screen after writing character byte `c` other than a tab: new line, carriage
/// return, backspace (erasing the cell before the cursor), or a printable character that
/// advances the cursor and wraps; anything else leaves it alone.
pub open spec fn put_plain(s: ScreenView, c: u8) -> ScreenView {
    if c == 10 {
        newline(s)
    } else if c == 13 {
        ScreenView { col: 0, ..s }
    } else if c == 8 {
        if s.col > 0 {
            ScreenView { cells: put_cell(s.cells, s.row, s.col - 1, 0x20, s.color), col: s.col - 1, ..s }
        } else {
            s
        }
    } else if 0x20 <= c <= 0x7e {
        let t = ScreenView { cells: put_cell(s.cells, s.row, s.col, c, s.color), col: s.col + 1, ..s };
        if t.col >= 80 { newline(t) } else { t }
    } else {
        s
    }
}

/// The screen after `n` spaces.
pub open spec fn spaces(s: ScreenView, n: int) -> ScreenView
    decreases n,
{
    if n <= 0 { s } else { spaces(put_plain(s, 0x20), n - 1) }
}

/// The screen after writing character byte `c`: a tab moves to the next multiple of 4 by
/// writing spaces; any other byte as `put_plain`.
pub open spec fn put(s: ScreenView, c: u8) -> ScreenView {
    if c == 9 { spaces(s, 4 - s.col % 4) } else { put_plain(s, c) }
}

/// The bytes the serial line gets for character `c`: a carriage return before a new line,
/// then `c`, then for a tab the spaces it is written as.
pub open spec fn serial_echo(s: ScreenView, c: u8) -> Seq<u8> {
    let base = if c == 10 { seq![13u8, 10u8] } else { seq![c] };
    if c == 9 { base + Seq::new((4 - s.col % 4) as nat, |i: int| 0x20u8) } else { base }
}

impl Screen {
    pub open spec fn view(&self) -> ScreenView {
        ScreenView { cells: self.cells@, row: self.row as int, col: self.col as int, color: self.color }
    }

    /// Whether the grid has its size and the cursor lies on it.
    pub open spec fn wf(&self) -> bool {
        self.cells@.len() == CELLS && self.row < HEIGHT && self.col < WIDTH
    }

    /// A blank-less screen (all bytes zero), cursor at the top left, light grey on black.
    pub fn new() -> (r: Screen)
        ensures
            r.wf(),
            r.row == 0 && r.col == 0 && r.color == 7,
            forall|i: int| 0 <= i < CELLS ==> r.cells@[i] == 0u8,
    {
        let mut cells: Vec<u8> = Vec::new();
        let mut i: usize = 0;
        while i < CELLS
            invariant
                i <= CELLS,
                cells@.len() == i,
                forall|k: int| 0 <= k < i ==> cells@[k] == 0u8,
            decreases CELLS - i,
        {
            cells.push(0u8);
            i = i + 1;
        }
        Screen { cells, row: 0, col: 0, color: 7 }
    }

    /// Sets the colour of new text.
    pub fn set_color(&mut self, fg: Color, bg: Color)
        ensures
            final(self).color == spec_attr(fg, bg),
            final(self).cells == old(self).cells,
            final(self).row == old(self).row,
            final(self).col == old(self).col,
    {
        self.color = attr(fg, bg);
    }

    /// Fills the screen with spaces in the current colour and puts the cursor at the top
    /// left.
    pub fn clear(&mut self)
        requires
            old(self).wf(),
        ensures
            final(self).wf(),
            final(self).row == 0 && final(self).col == 0,
            final(self).color == old(self).color,
            final(self).cells@ == Seq::new(4000, |i: int| if i % 2 == 0 { 0x20u8 } else { old(self).color }),
    {
        let mut i: usize = 0;
        while i < CELLS
            invariant
                self.cells@.len() == CELLS,
                self.color == old(self).color,
                self.row == old(self).row,
                self.col == old(self).col,
                i <= CELLS,
                i % 2 == 0,
                forall|k: int| 0 <= k < i ==> self.cells@[k] == (if k % 2 == 0 { 0x20u8 } else { self.color }),
            decreases CELLS - i,
        {
            self.cells.set(i, 0x20);
            self.cells.set(i + 1, self.color);
            i = i + 2;
        }
        self.row = 0;
        self.col = 0;
        assert(self.cells@ =~= Seq::new(4000, |i: int| if i % 2 == 0 { 0x20u8 } else { old(self).color }));
    }

    fn scroll(&mut self)
        requires
            old(self).cells@.len() == CELLS,
        ensures
            final(self).cells@.len() == CELLS,
            final(self).cells@ == scrolled(old(self).cells@, old(self).color),
            final(self).row == old(self).row,
            final(self).col == old(self).col,
            final(self).color == old(self).color,
    {
        let mut i: usize = 0;
        while i < 3840
            invariant
                self.cells@.len() == CELLS,
                self.row == old(self).row,
                self.col == old(self).col,
                self.color == old(self).color,
                i <= 3840,
                forall|k: int| 0 <= k < i ==> self.cells@[k] == old(self).cells@[k + 160],
                forall|k: int| i <= k < 4000 ==> self.cells@[k] == old(self).cells@[k],
            decreases 3840 - i,
        {
            let b = self.cells[i + 160];
            self.cells.set(i, b);
            i = i + 1;
        }
        let mut x: usize = 3840;
        while x < 4000
            invariant
                self.cells@.len() == CELLS,
                self.row == old(self).row,
                self.col == old(self).col,
                self.color == old(self).color,
                3840 <= x <= 4000,
                x % 2 == 0,
                forall|k: int| 0 <= k < 3840 ==> self.cells@[k] == old(self).cells@[k + 160],
                forall|k: int| 3840 <= k < x ==> self.cells@[k] == (if k % 2 == 0 { 0x20u8 } else { self.color }),
            decreases 4000 - x,
        {
            self.cells.set(x, 0x20);
            self.cells.set(x + 1, self.color);
            x = x + 2;
        }
        assert(self.cells@ =~= scrolled(old(self).cells@, old(self).color));
    }

    fn new_line(&mut self)
        requires
            old(self).cells@.len() == CELLS,
            old(self).row < HEIGHT,
        ensures
            final(self).wf(),
            final(self).view() == newline(old(self).view()),
    {
        self.col = 0;
        if self.row + 1 < HEIGHT {
            self.row = self.row + 1;
        } else {
            self.scroll();
        }
    }

    fn put_plain_char(&mut self, c: u8)
        requires
            old(self).wf(),
            c != 9,
        ensures
            final(self).wf(),
            final(self).view() == put_plain(old(self).view(), c),
    {
        if c == 10 {
            self.new_line();
        } else if c == 13 {
            self.col = 0;
        } else if c == 8 {
            if self.col > 0 {
                self.col = self.col - 1;
                let o = (self.row * WIDTH + self.col) * 2;
                self.cells.set(o, 0x20);
                self.cells.set(o + 1, self.color);
            }
        } else if c >= 0x20 && c <= 0x7e {
            let o = (self.row * WIDTH + self.col) * 2;
            self.cells.set(o, c);
            self.cells.set(o + 1, self.color);
            self.col = self.col + 1;
            if self.col >= WIDTH {
                self.new_line();
            }
        }
    }

    /// Writes character byte `c` at the cursor (see `put`) and returns the bytes echoed to
    /// the serial line (see `serial_echo`).
    pub fn put_char(&mut self, c: u8) -> (r: Vec<u8>)
        requires
            old(self).wf(),
        ensures
            final(self).wf(),
            final(self).view() == put(old(self).view(), c),
            r@ == serial_echo(old(self).view(), c),
    {
        let mut out: Vec<u8> = Vec::new();
        if c == 10 {
            out.push(13);
        }
        out.push(c);
        if c == 9 {
            let n = TAB - (self.col % TAB);
            let ghost s0 = self.view();
            let mut k: usize = 0;
            while k < n
                invariant
                    self.wf(),
                    n == 4 - s0.col % 4,
                    k <= n,
                    spaces(s0, n as int) == spaces(self.view(), n - k),
                    out@ == seq![9u8] + Seq::new(k as nat, |i: int| 0x20u8),
                decreases n - k,
            {
                self.put_plain_char(0x20);
                out.push(0x20);
                assert(out@ =~= seq![9u8] + Seq::new((k + 1) as nat, |i: int| 0x20u8));
                k = k + 1;
            }
        } else {
            self.put_plain_char(c);
        }
        out
    }

    /// Moves the cursor one column left, not past the first.
    pub fn move_cursor_left(&mut self)
        ensures
            final(self).col == (if old(self).col > 0 { (old(self).col - 1) as usize } else { 0 }),
            final(self).row == old(self).row,
            final(self).cells == old(self).cells,
            final(self).color == old(self).color,
    {
        if self.col > 0 {
            self.col = self.col - 1;
        }
    }

    /// Moves the cursor one column right, not past the last.
    pub fn move_cursor_right(&mut self)
        ensures
            final(self).col == (if old(self).col < 79 { (old(self).col + 1) as usize } else { old(self).col }),
            final(self).row == old(self).row,
            final(self).cells == old(self).cells,
            final(self).color == old(self).color,
    {
        if self.col < WIDTH - 1 {
            self.col = self.col + 1;
        }
    }

    /// The hardware cursor position of the cursor: `row * 80 + col`.
    pub fn cursor_pos(&self) -> (r: u16)
        requires
            self.wf(),
        ensures
            r == self.row * 80 + self.col,
    {
        (self.row * WIDTH + self.col) as u16
    }

    /// Puts character `c` with attribute `a` at `(row, col)` without moving the cursor;
    /// nothing happens off the screen.
    pub fn write_char_rc(&mut self, row: usize, col: usize, c: u8, a: u8)
        requires
            old(self).wf(),
        ensures
            final(self).wf(),
            final(self).row == old(self).row && final(self).col == old(self).col && final(self).color == old(self).color,
            final(self).cells@ == (if row < 25 && col < 80 { put_cell(old(self).cells@, row as int, col as int, c, a) }
                else { old(self).cells@ }),
    {
        if row >= HEIGHT || col >= WIDTH {
            return;
        }
        let o = (row * WIDTH + col) * 2;
        self.cells.set(o, c);
        self.cells.set(o + 1, a);
    }

    /// Puts the bytes of `s` with attribute `a` from `(row, col)` on, stopping at the right
    /// edge.
    pub fn write_str_rc(&mut self, row: usize, col: usize, s: &str, a: u8)
        requires
            old(self).wf(),
        ensures
            final(self).wf(),
            final(self).row == old(self).row && final(self).col == old(self).col && final(self).color == old(self).color,
            final(self).cells@ == put_run(old(self).cells@, row as int, col as int, s.spec_bytes(), a, 0),
    {
        let b = s.as_bytes();
        let mut i: usize = 0;
        while i < b.len()
            invariant
                self.wf(),
                self.row == old(self).row && self.col == old(self).col && self.color == old(self).color,
                b@ == s.spec_bytes(),
                i <= b@.len(),
                put_run(old(self).cells@, row as int, col as int, b@, a, 0) == put_run(self.cells@, row as int, col as int, b@, a, i as int),
            decreases b@.len() - i,
        {
            if col >= WIDTH || i >= WIDTH - col {
                return;
            }
            self.write_char_rc(row, col + i, b[i], a);
            i = i + 1;
        }
    }

    /// Writes each byte of `s` as by `put_char`; returns the serial echo of all of them.
    pub fn write_str(&mut self, s: &str) -> (r: Vec<u8>)
        requires
            old(self).wf(),
        ensures
            final(self).wf(),
            final(self).view() == put_all(old(self).view(), s.spec_bytes()),
            r@ == echo_all(old(self).view(), s.spec_bytes()),
    {
        let b = s.as_bytes();
        let mut out: Vec<u8> = Vec::new();
        assert(b@.subrange(0, b@.len() as int) =~= b@);
        let mut i: usize = 0;
        while i < b.len()
            invariant
                self.wf(),
                b@ == s.spec_bytes(),
                i <= b@.len(),
                put_all(old(self).view(), b@) == put_all(self.view(), b@.subrange(i as int, b@.len() as int)),
                echo_all(old(self).view(), b@) == out@ + echo_all(self.view(), b@.subrange(i as int, b@.len() as int)),
            decreases b@.len() - i,
        {
            let ghost s0 = self.view();
            let ghost o0 = out@;
            let e = self.put_char(b[i]);
            let mut k: usize = 0;
            while k < e.len()
                invariant
                    k <= e@.len(),
                    out@ == o0 + e@.subrange(0, k as int),
                decreases e@.len() - k,
            {
                out.push(e[k]);
                assert(out@ =~= o0 + e@.subrange(0, k + 1));
                k = k + 1;
            }
            proof {
                assert(e@.subrange(0, e@.len() as int) =~= e@);
                let rest = b@.subrange(i as int, b@.len() as int);
                assert(rest[0] == b@[i as int]);
                assert(echo_all(s0, rest) == serial_echo(s0, rest[0]) + echo_all(put(s0, rest[0]), rest.drop_first()));
                assert(rest.drop_first() =~= b@.subrange(i + 1, b@.len() as int));
                assert(o0 + (e@ + echo_all(self.view(), b@.subrange(i + 1, b@.len() as int)))
                    =~= out@ + echo_all(self.view(), b@.subrange(i + 1, b@.len() as int)));
            }
            assert(b@.subrange(i as int, b@.len() as int).drop_first() =~= b@.subrange(i + 1, b@.len() as int));
            i = i + 1;
        }
        out
    }
}

/// The cells after `put_cell` for each byte of `b` from index `i` on, at columns
/// `col + i, ...`, while they stay on the screen.
pub open spec fn put_run(cells: Seq<u8>, row: int, col: int, b: Seq<u8>, a: u8, i: int) -> Seq<u8>
    decreases b.len() - i,
{
    if i < 0 || i >= b.len() || col + i >= 80 {
        cells
    } else {
        put_run(if row < 25 && col + i < 80 { put_cell(cells, row, col + i, b[i], a) } else { cells }, row, col, b, a, i + 1)
    }
}

/// The screen after writing each byte of `b` in turn.
pub open spec fn put_all(s: ScreenView, b: Seq<u8>) -> ScreenView
    decreases b.len(),
{
    if b.len() == 0 { s } else { put_all(put(s, b[0]), b.drop_first()) }
}

/// The serial echo of writing each byte of `b` in turn.
pub open spec fn echo_all(s: ScreenView, b: Seq<u8>) -> Seq<u8>
    decreases b.len(),
{
    if b.len() == 0 { Seq::empty() } else { serial_echo(s, b[0]) + echo_all(put(s, b[0]), b.drop_first()) }
}

/// Writing `a` then `b` leaves the screen as writing `a + b` does, and the serial line gets
/// the echo of `a` followed by that of `b`.
pub proof fn law_write_concat(s: ScreenView, a: Seq<u8>, b: Seq<u8>)
    ensures
        put_all(s, a + b) == put_all(put_all(s, a), b),
        echo_all(s, a + b) == echo_all(s, a) + echo_all(put_all(s, a), b),
    decreases a.len(),
{
    if a.len() == 0 {
        assert(a + b =~= b);
    } else {
        assert((a + b).drop_first() =~= a.drop_first() + b);
        assert((a + b)[0] == a[0]);
        law_write_concat(put(s, a[0]), a.drop_first(), b);
        assert(echo_all(s, a + b) =~= echo_all(s, a) + echo_all(put_all(s, a), b));
    }
}

/// The hardware cursor position of `(row, col)`, as 16 bits.
pub fn cursor_position(row: usize, col: usize) -> (r: u16)
    requires
        row * 80 + col <= usize::MAX,
    ensures
        r == (row * 80 + col) as u16,
{
    (row * WIDTH + col) as u16
}

/// A backspace after the first column moves the cursor one column left and blanks the cell
/// it moves to, in the current colour, leaving every other cell as it was; at the first
/// column it changes nothing.
pub proof fn law_backspace_erases(s: ScreenView)
    requires
        s.cells.len() == 4000,
        0 <= s.row < 25,
        0 <= s.col < 80,
    ensures
        s.col > 0 ==> {
            let t = put(s, 8);
            let o = (s.row * 80 + s.col - 1) * 2;
            &&& t.row == s.row
            &&& t.col == s.col - 1
            &&& t.color == s.color
            &&& t.cells.len() == 4000
            &&& t.cells[o] == 0x20u8
            &&& t.cells[o + 1] == s.color
            &&& forall|i: int| 0 <= i < 4000 && i != o && i != o + 1 ==> #[trigger] t.cells[i] == s.cells[i]
        },
        s.col == 0 ==> put(s, 8) == s,
{
    if s.col > 0 {
        let o = (s.row * 80 + s.col - 1) * 2;
        assert(0 <= o && o + 1 < 4000) by (nonlinear_arith)
            requires 0 <= s.row < 25, 1 <= s.col < 80, o == (s.row * 80 + s.col - 1) * 2;
    }
}

} // verus!
