use vstd::prelude::*;
use vstd::string::StringSliceAdditionalSpecFns;

verus! {

/// The sixteen text-mode colours.
#[derive(Clone, Copy, PartialEq, Eq, Structural, Debug)]
pub enum Color {
    Black,
    Blue,
    Green,
    Cyan,
    Red,
    Magenta,
    Brown,
    LightGray,
    DarkGray,
    LightBlue,
    LightGreen,
    LightCyan,
    LightRed,
    Pink,
    Yellow,
    White,
}

/// The hardware code of a colour, from 0 (black) to 15 (white).
pub open spec fn color_code(c: Color) -> u8 {
    match c {
        Color::Black => 0,
        Color::Blue => 1,
        Color::Green => 2,
        Color::Cyan => 3,
        Color::Red => 4,
        Color::Magenta => 5,
        Color::Brown => 6,
        Color::LightGray => 7,
        Color::DarkGray => 8,
        Color::LightBlue => 9,
        Color::LightGreen => 10,
        Color::LightCyan => 11,
        Color::LightRed => 12,
        Color::Pink => 13,
        Color::Yellow => 14,
        Color::White => 15,
    }
}

impl Color {
    /// The colour's hardware code.
    pub fn code(&self) -> (r: u8)
        ensures
            r == color_code(*self),
            r < 16,
    {
        match self {
            Color::Black => 0,
            Color::Blue => 1,
            Color::Green => 2,
            Color::Cyan => 3,
            Color::Red => 4,
            Color::Magenta => 5,
            Color::Brown => 6,
            Color::LightGray => 7,
            Color::DarkGray => 8,
            Color::LightBlue => 9,
            Color::LightGreen => 10,
            Color::LightCyan => 11,
            Color::LightRed => 12,
            Color::Pink => 13,
            Color::Yellow => 14,
            Color::White => 15,
        }
    }
}

/// A colour attribute: the background in the high four bits, the foreground in the low four.
#[derive(Clone, Copy, PartialEq, Eq, Structural, Debug)]
pub struct VGAColor(pub u8);

impl VGAColor {
    /// The attribute for foreground `fg` on background `bg`.
    pub fn new(fg: Color, bg: Color) -> (r: VGAColor)
        ensures
            r.0 == color_code(bg) * 16 + color_code(fg),
    {
        VGAColor(bg.code() * 16 + fg.code())
    }
}

/// One character cell of the screen.
#[derive(Clone, Copy, PartialEq, Eq, Structural, Debug)]
pub struct VGABufferEntry {
    pub ascii_char: u8,
    pub color: VGAColor,
}

/// The screen's width in cells.
pub const WIDTH: usize = 80;

/// The screen's height in rows.
pub const HEIGHT: usize = 25;

/// A line feed.
pub const NEWLINE: u8 = 10;

/// A carriage return.
pub const CARRIAGE_RETURN: u8 = 13;

/// A horizontal tab.
pub const TAB: u8 = 9;

/// A space.
pub const SPACE: u8 = 32;

/// The byte shown in place of one outside printable ASCII.
pub const REPLACEMENT_BYTE: u8 = 0xfe;

/// What the writer holds: the row and column it writes at, its colour, and the cells row by row.
pub struct Screen {
    pub row: int,
    pub col: int,
    pub color: VGAColor,
    pub cells: Seq<VGABufferEntry>,
}

/// A blank cell in the given colour.
pub open spec fn blank(color: VGAColor) -> VGABufferEntry {
    VGABufferEntry { ascii_char: 32, color }
}

/// The byte that `write_str` writes for `b`: itself when it is printable ASCII or a newline,
/// carriage return or tab; the replacement byte otherwise.
pub open spec fn shown(b: u8) -> u8 {
    if (0x20 <= b <= 0x7e) || b == 10 || b == 13 || b == 9 {
        b
    } else {
        REPLACEMENT_BYTE
    }
}

impl Screen {
    pub open spec fn wf(self) -> bool {
        &&& 0 <= self.row < HEIGHT
        &&& 0 <= self.col <= usize::MAX
        &&& self.cells.len() == WIDTH * HEIGHT
    }

    /// Every row moved up by one, the top row dropped, a blank bottom row, the column back at 0.
    pub open spec fn newline(self) -> Screen {
        Screen {
            col: 0,
            cells: Seq::new(
                (WIDTH * HEIGHT) as nat,
                |k: int|
                    if k < WIDTH * (HEIGHT - 1) {
                        self.cells[k + WIDTH]
                    } else {
                        blank(self.color)
                    },
            ),
            ..self
        }
    }

    /// The screen after one byte: a newline, a carriage return to column 0, a tab of four
    /// columns, or a character in the current cell, after a line break when the row is full.
    pub open spec fn write_byte(self, b: u8) -> Screen {
        if b == 10 {
            self.newline()
        } else if b == 13 {
            Screen { col: 0, ..self }
        } else if b == 9 {
            Screen { col: if self.col + 4 > usize::MAX { usize::MAX as int } else { self.col + 4 }, ..self }
        } else {
            let s = if self.col >= WIDTH {
                self.newline()
            } else {
                self
            };
            Screen {
                col: s.col + 1,
                cells: s.cells.update(
                    s.row * WIDTH + s.col,
                    VGABufferEntry { ascii_char: b, color: s.color },
                ),
                ..s
            }
        }
    }

    /// The screen after the bytes `bs`, each shown as `write_str` shows it.
    pub open spec fn write_bytes(self, bs: Seq<u8>) -> Screen
        decreases bs.len(),
    {
        if bs.len() == 0 {
            self
        } else {
            self.write_bytes(bs.drop_last()).write_byte(shown(bs.last()))
        }
    }
}

/// A text console kept in memory: writes go to its cells, and the bottom row is where text
/// appears.
pub struct VGAWriter {
    row: usize,
    col: usize,
    color: VGAColor,
    buffer: Vec<VGABufferEntry>,
}

impl View for VGAWriter {
    type V = Screen;

    closed spec fn view(&self) -> Screen {
        Screen { row: self.row as int, col: self.col as int, color: self.color, cells: self.buffer@ }
    }
}

impl VGAWriter {
    pub open spec fn wf(&self) -> bool {
        self@.wf()
    }

    /// A blank screen in white on black, writing at the start of the bottom row.
    pub fn new() -> (r: VGAWriter)
        ensures
            r.wf(),
            r@.row == HEIGHT - 1,
            r@.col == 0,
            r@.color == VGAColor(0x0f),
            r@.cells == Seq::new((WIDTH * HEIGHT) as nat, |k: int| blank(r@.color)),
    {
        let color = VGAColor::new(Color::White, Color::Black);
        let mut buffer: Vec<VGABufferEntry> = Vec::new();
        let mut i: usize = 0;
        while i < WIDTH * HEIGHT
            invariant
                i <= WIDTH * HEIGHT,
                buffer@ == Seq::new(i as nat, |k: int| blank(color)),
            decreases WIDTH * HEIGHT - i,
        {
            buffer.push(VGABufferEntry { ascii_char: SPACE, color });
            i = i + 1;
            assert(buffer@ =~= Seq::new(i as nat, |k: int| blank(color)));
        }
        VGAWriter { row: HEIGHT - 1, col: 0, color, buffer }
    }

    /// The character in cell (`row`, `col`).
    pub fn get_char_at(&self, row: usize, col: usize) -> (r: u8)
        requires
            self.wf(),
            row < HEIGHT,
            col < WIDTH,
        ensures
            r == self@.cells[row * WIDTH + col].ascii_char,
    {
        self.buffer[row * WIDTH + col].ascii_char
    }

    /// The colour attribute of cell (`row`, `col`).
    pub fn get_color_at(&self, row: usize, col: usize) -> (r: u8)
        requires
            self.wf(),
            row < HEIGHT,
            col < WIDTH,
        ensures
            r == self@.cells[row * WIDTH + col].color.0,
    {
        self.buffer[row * WIDTH + col].color.0
    }

    /// Writes one byte.
    pub fn write_byte(&mut self, b: u8)
        requires
            old(self).wf(),
        ensures
            final(self).wf(),
            final(self)@ == old(self)@.write_byte(b),
    {
        if b == NEWLINE {
            self.newline();
        } else if b == CARRIAGE_RETURN {
            self.col = 0;
        } else if b == TAB {
            self.col = self.col.saturating_add(4);
        } else {
            if self.col >= WIDTH {
                self.newline();
            }
            let idx = self.row * WIDTH + self.col;
            self.buffer.set(idx, VGABufferEntry { ascii_char: b, color: self.color });
            self.col = self.col + 1;
        }
    }

    /// Writes a string byte by byte, showing each byte outside printable ASCII (and newline,
    /// carriage return, tab) as the replacement byte.
    pub fn write_str(&mut self, s: &str)
        requires
            old(self).wf(),
        ensures
            final(self).wf(),
            final(self)@ == old(self)@.write_bytes(s.spec_bytes()),
    {
        let bytes = s.as_bytes();
        let mut i: usize = 0;
        while i < bytes.len()
            invariant
                self.wf(),
                i <= bytes@.len(),
                bytes@ == s.spec_bytes(),
                self@ == old(self)@.write_bytes(bytes@.take(i as int)),
            decreases bytes@.len() - i,
        {
            let byte = bytes[i];
            let shown_byte = if (0x20 <= byte && byte <= 0x7e) || byte == NEWLINE || byte == CARRIAGE_RETURN
                || byte == TAB {
                byte
            } else {
                REPLACEMENT_BYTE
            };
            self.write_byte(shown_byte);
            proof {
                assert(bytes@.take(i + 1).drop_last() =~= bytes@.take(i as int));
            }
            i = i + 1;
        }
        proof {
            assert(bytes@.take(i as int) =~= bytes@);
        }
    }

    /// Moves every row up by one and blanks the bottom row.
    fn newline(&mut self)
        requires
            old(self).wf(),
        ensures
            final(self).wf(),
            final(self)@ == old(self)@.newline(),
    {
        let mut i: usize = 0;
        while i < WIDTH * (HEIGHT - 1)
            invariant
                i <= WIDTH * (HEIGHT - 1),
                self.wf(),
                self@.row == old(self)@.row,
                self@.col == old(self)@.col,
                self@.color == old(self)@.color,
                forall|k: int| 0 <= k < i ==> self@.cells[k] == old(self)@.cells[k + WIDTH],
                forall|k: int| i <= k < WIDTH * HEIGHT ==> self@.cells[k] == old(self)@.cells[k],
            decreases WIDTH * (HEIGHT - 1) - i,
        {
            let entry = self.buffer[i + WIDTH];
            self.buffer.set(i, entry);
            i = i + 1;
        }
        self.clear_row(HEIGHT - 1);
        self.col = 0;
        assert(self@.cells =~= old(self)@.newline().cells);
    }

    /// Blanks row `row` in the current colour.
    fn clear_row(&mut self, row: usize)
        requires
            old(self).wf(),
            row < HEIGHT,
        ensures
            final(self).wf(),
            final(self)@ == (Screen {
                cells: Seq::new(
                    (WIDTH * HEIGHT) as nat,
                    |k: int|
                        if row * WIDTH <= k < row * WIDTH + WIDTH {
                            blank(old(self)@.color)
                        } else {
                            old(self)@.cells[k]
                        },
                ),
                ..old(self)@
            }),
    {
        let blank_cell = VGABufferEntry { ascii_char: SPACE, color: self.color };
        let mut col: usize = 0;
        while col < WIDTH
            invariant
                col <= WIDTH,
                row < HEIGHT,
                self.wf(),
                self@.row == old(self)@.row,
                self@.col == old(self)@.col,
                self@.color == old(self)@.color,
                blank_cell == blank(old(self)@.color),
                forall|k: int|
                    0 <= k < WIDTH * HEIGHT ==> self@.cells[k] == if row * WIDTH <= k < row * WIDTH
                        + col {
                        blank(old(self)@.color)
                    } else {
                        old(self)@.cells[k]
                    },
            decreases WIDTH - col,
        {
            self.buffer.set(row * WIDTH + col, blank_cell);
            col = col + 1;
        }
        assert(self@.cells =~= Seq::new(
            (WIDTH * HEIGHT) as nat,
            |k: int|
                if row * WIDTH <= k < row * WIDTH + WIDTH {
                    blank(old(self)@.color)
                } else {
                    old(self)@.cells[k]
                },
        ));
    }
}

} // verus!
