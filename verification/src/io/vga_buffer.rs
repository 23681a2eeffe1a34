//! The VGA text-mode screen: a 25x80 grid of coloured characters, written
//! line by line with the cursor always on the bottom row.
use vstd::prelude::*;
use vstd::string::StringSliceAdditionalSpecFns;

verus! {

/// The standard color palette in VGA text mode.
#[derive(Debug, Clone, Copy, PartialEq, Eq)]
pub enum Color {
    Black,
    Blue,
    Green,
    Cyan,
    Red,
    Magenta,
    Brown,
    LightGray,
    DarkGray,
    LightBlue,
    LightGreen,
    LightCyan,
    LightRed,
    Pink,
    Yellow,
    White,
}

/// The 4-bit hardware number of a color.
pub open spec fn color_value(c: Color) -> u8 {
    match c {
        Color::Black => 0,
        Color::Blue => 1,
        Color::Green => 2,
        Color::Cyan => 3,
        Color::Red => 4,
        Color::Magenta => 5,
        Color::Brown => 6,
        Color::LightGray => 7,
        Color::DarkGray => 8,
        Color::LightBlue => 9,
        Color::LightGreen => 10,
        Color::LightCyan => 11,
        Color::LightRed => 12,
        Color::Pink => 13,
        Color::Yellow => 14,
        Color::White => 15,
    }
}

/// The colours carry the numbers of the standard VGA text-mode palette,
/// and an attribute byte holds the foreground's number in its low four bits
/// and the background's in its high four bits.
pub proof fn law_vga_palette(foreground: Color, background: Color)
    ensures
        color_value(Color::Black) == 0x0,
        color_value(Color::Blue) == 0x1,
        color_value(Color::Green) == 0x2,
        color_value(Color::Cyan) == 0x3,
        color_value(Color::Red) == 0x4,
        color_value(Color::Magenta) == 0x5,
        color_value(Color::Brown) == 0x6,
        color_value(Color::LightGray) == 0x7,
        color_value(Color::DarkGray) == 0x8,
        color_value(Color::LightBlue) == 0x9,
        color_value(Color::LightGreen) == 0xa,
        color_value(Color::LightCyan) == 0xb,
        color_value(Color::LightRed) == 0xc,
        color_value(Color::Pink) == 0xd,
        color_value(Color::Yellow) == 0xe,
        color_value(Color::White) == 0xf,
        color_code_spec(foreground, background).0 % 16 == color_value(foreground),
        color_code_spec(foreground, background).0 / 16 == color_value(background),
{
}

impl Color {
    /// The 4-bit hardware number of the color.
    pub fn value(self) -> (r: u8)
        ensures
            r == color_value(self),
            r < 16,
    {
        match self {
            Color::Black => 0,
            Color::Blue => 1,
            Color::Green => 2,
            Color::Cyan => 3,
            Color::Red => 4,
            Color::Magenta => 5,
            Color::Brown => 6,
            Color::LightGray => 7,
            Color::DarkGray => 8,
            Color::LightBlue => 9,
            Color::LightGreen => 10,
            Color::LightCyan => 11,
            Color::LightRed => 12,
            Color::Pink => 13,
            Color::Yellow => 14,
            Color::White => 15,
        }
    }
}

/// A combination of a foreground and a background color: the background in
/// the high four bits, the foreground in the low four bits.
#[derive(Debug, Clone, Copy, PartialEq, Eq)]
pub struct ColorCode(pub u8);

/// The attribute byte for `foreground` on `background`.
pub open spec fn color_code_spec(foreground: Color, background: Color) -> ColorCode {
    ColorCode((color_value(background) * 16 + color_value(foreground)) as u8)
}

impl ColorCode {
    /// The attribute byte for `foreground` on `background`.
    pub fn new(foreground: Color, background: Color) -> (r: ColorCode)
        ensures
            r == color_code_spec(foreground, background),
    {
        ColorCode(background.value() * 16 + foreground.value())
    }
}

/// A character cell: an ASCII byte and its color.
#[derive(Debug, Clone, Copy, PartialEq, Eq)]
pub struct ScreenChar {
    pub ascii_character: u8,
    pub color_code: ColorCode,
}

/// The height of the text buffer in lines.
pub const BUFFER_HEIGHT: usize = 25;

/// The width of the text buffer in columns.
pub const BUFFER_WIDTH: usize = 80;

/// Number of cells on the screen.
pub const BUFFER_CELLS: usize = 2000;

/// A blank cell in the given color.
pub open spec fn blank(color: ColorCode) -> ScreenChar {
    ScreenChar { ascii_character: 32, color_code: color }
}

/// A line of blank cells.
pub open spec fn blank_row(color: ColorCode) -> Seq<ScreenChar> {
    Seq::new(BUFFER_WIDTH as nat, |i: int| blank(color))
}

/// Abstract state of the writer: the cursor column on the bottom row, the
/// current color, and the cells row by row.
pub struct WriterState {
    pub column: nat,
    pub color: ColorCode,
    pub cells: Seq<ScreenChar>,
}

/// The screen scrolled up by one line, with a blank bottom line.
pub open spec fn scroll_spec(cells: Seq<ScreenChar>, color: ColorCode) -> Seq<ScreenChar> {
    cells.subrange(BUFFER_WIDTH as int, BUFFER_CELLS as int) + blank_row(color)
}

/// The color text is written in by default, and again after every newline:
/// yellow on black.
pub open spec fn default_color() -> ColorCode {
    color_code_spec(Color::Yellow, Color::Black)
}

/// Starting a new line: scroll (the new bottom line is blank in the current
/// color), cursor to column 0, color back to the default.
pub open spec fn new_line_spec(s: WriterState) -> WriterState {
    WriterState { column: 0, color: default_color(), cells: scroll_spec(s.cells, s.color) }
}

/// Writing one byte: a newline starts a new line; any other byte goes to
/// the cursor on the bottom row, after a new line when the row is full.
pub open spec fn write_byte_spec(s: WriterState, byte: u8) -> WriterState {
    if byte == 10 {
        new_line_spec(s)
    } else {
        let t = if s.column >= BUFFER_WIDTH { new_line_spec(s) } else { s };
        WriterState {
            column: t.column + 1,
            color: t.color,
            cells: t.cells.update(
                (BUFFER_HEIGHT - 1) * BUFFER_WIDTH + t.column,
                ScreenChar { ascii_character: byte, color_code: t.color },
            ),
        }
    }
}

/// The byte shown for a byte of a string: printable ASCII and newline stand
/// for themselves, anything else is shown as a filled square.
pub open spec fn shown_byte(b: u8) -> u8 {
    if (0x20 <= b && b <= 0x7e) || b == 10 {
        b
    } else {
        0xfe
    }
}

/// Writing a sequence of string bytes, one after the other.
pub open spec fn write_bytes_spec(s: WriterState, bytes: Seq<u8>) -> WriterState
    decreases bytes.len(),
{
    if bytes.len() == 0 {
        s
    } else {
        write_byte_spec(write_bytes_spec(s, bytes.drop_last()), shown_byte(bytes.last()))
    }
}

/// Writing two byte sequences one after the other is writing their
/// concatenation.
pub proof fn lemma_write_bytes_append(s: WriterState, a: Seq<u8>, b: Seq<u8>)
    ensures
        write_bytes_spec(write_bytes_spec(s, a), b) == write_bytes_spec(s, a + b),
    decreases b.len(),
{
    if b.len() == 0 {
        assert(a + b =~= a);
    } else {
        lemma_write_bytes_append(s, a, b.drop_last());
        assert((a + b).drop_last() =~= a + b.drop_last());
        assert((a + b).last() == b.last());
    }
}

/// Writing one more byte.
pub proof fn lemma_write_bytes_push(s: WriterState, a: Seq<u8>, b: u8)
    ensures
        write_bytes_spec(s, a.push(b)) == write_byte_spec(write_bytes_spec(s, a), shown_byte(b)),
{
    assert(a.push(b).drop_last() =~= a);
}

/// Starting a new line moves every line up by one, leaves a blank bottom
/// line in the current color, and resets the color to the default.
pub proof fn law_new_line_scrolls(s: WriterState, row: int, col: int)
    requires
        writer_state_wf(s),
        0 <= row < BUFFER_HEIGHT,
        0 <= col < BUFFER_WIDTH,
    ensures
        writer_state_wf(new_line_spec(s)),
        new_line_spec(s).column == 0,
        new_line_spec(s).color == default_color(),
        row < BUFFER_HEIGHT - 1 ==> new_line_spec(s).cells[row * BUFFER_WIDTH + col] == s.cells[(row
            + 1) * BUFFER_WIDTH + col],
        row == BUFFER_HEIGHT - 1 ==> new_line_spec(s).cells[row * BUFFER_WIDTH + col] == blank(s.color),
{
    assert(row * BUFFER_WIDTH + col < BUFFER_CELLS) by (nonlinear_arith)
        requires
            0 <= row < 25,
            0 <= col < 80,
    ;
    assert((row + 1) * BUFFER_WIDTH + col == row * BUFFER_WIDTH + col + BUFFER_WIDTH) by (nonlinear_arith);
}

/// Writing one byte, cell by cell. A newline moves every line up, blanks
/// the bottom line and puts the cursor at column 0 in the default colour.
/// Another byte goes to the cursor on the bottom line in the current
/// colour and the cursor moves one column right, nothing else changing;
/// on a full line the lines move up first and the byte starts the new
/// bottom line, in the default colour. A string's printable ASCII bytes and
/// newlines are written as they are, any other byte as a filled square.
pub proof fn law_write_byte_cells(s: WriterState, b: u8, row: int, col: int)
    requires
        writer_state_wf(s),
        0 <= row < BUFFER_HEIGHT,
        0 <= col < BUFFER_WIDTH,
    ensures
        ({
            let t = write_byte_spec(s, b);
            let cell = row * BUFFER_WIDTH + col;
            &&& writer_state_wf(t)
            &&& b == 10 ==> {
                &&& t.column == 0
                &&& t.color == default_color()
                &&& t.cells[cell] == if row < BUFFER_HEIGHT - 1 {
                    s.cells[cell + BUFFER_WIDTH]
                } else {
                    blank(s.color)
                }
            }
            &&& b != 10 && s.column < BUFFER_WIDTH ==> {
                &&& t.column == s.column + 1
                &&& t.color == s.color
                &&& t.cells[cell] == if row == BUFFER_HEIGHT - 1 && col == s.column {
                    ScreenChar { ascii_character: b, color_code: s.color }
                } else {
                    s.cells[cell]
                }
            }
            &&& b != 10 && s.column == BUFFER_WIDTH ==> {
                &&& t.column == 1
                &&& t.color == default_color()
                &&& t.cells[cell] == if row < BUFFER_HEIGHT - 1 {
                    s.cells[cell + BUFFER_WIDTH]
                } else if col == 0 {
                    ScreenChar { ascii_character: b, color_code: default_color() }
                } else {
                    blank(s.color)
                }
            }
        }),
        shown_byte(b) == if (0x20 <= b && b <= 0x7e) || b == 10 { b } else { 0xfe },
{
    law_new_line_scrolls(s, row, col);
    assert(row * BUFFER_WIDTH + col < BUFFER_CELLS) by (nonlinear_arith)
        requires
            0 <= row < 25,
            0 <= col < 80,
    ;
    assert((row + 1) * BUFFER_WIDTH + col == row * BUFFER_WIDTH + col + BUFFER_WIDTH) by (nonlinear_arith);
    if row == BUFFER_HEIGHT - 1 {
        assert(row * BUFFER_WIDTH + col == (BUFFER_HEIGHT - 1) * BUFFER_WIDTH + col);
    } else {
        assert(row * BUFFER_WIDTH + col < (BUFFER_HEIGHT - 1) * BUFFER_WIDTH) by (nonlinear_arith)
            requires
                0 <= row < 24,
                0 <= col < 80,
        ;
    }
}

/// Printable text without newlines that fits on a line, written from the
/// start of the bottom line, appears there character by character in the
/// current color, with the cursor just after it.
pub proof fn law_text_on_bottom_line(s: WriterState, bytes: Seq<u8>)
    requires
        writer_state_wf(s),
        s.column == 0,
        bytes.len() <= BUFFER_WIDTH,
        forall|i: int| 0 <= i < bytes.len() ==> 0x20 <= #[trigger] bytes[i] <= 0x7e,
    ensures
        ({
            let t = write_bytes_spec(s, bytes);
            &&& writer_state_wf(t)
            &&& t.column == bytes.len()
            &&& t.color == s.color
            &&& forall|k: int|
                0 <= k < bytes.len() ==> t.cells[(BUFFER_HEIGHT - 1) * BUFFER_WIDTH + k] == (ScreenChar {
                    ascii_character: #[trigger] bytes[k],
                    color_code: s.color,
                })
            &&& forall|c: int|
                0 <= c < BUFFER_CELLS && !((BUFFER_HEIGHT - 1) * BUFFER_WIDTH <= c < (BUFFER_HEIGHT - 1)
                    * BUFFER_WIDTH + bytes.len()) ==> #[trigger] t.cells[c] == s.cells[c]
        }),
    decreases bytes.len(),
{
    if bytes.len() > 0 {
        let init = bytes.drop_last();
        law_text_on_bottom_line(s, init);
        let t0 = write_bytes_spec(s, init);
        assert(shown_byte(bytes.last()) == bytes.last());
        let t = write_bytes_spec(s, bytes);
        assert(t == write_byte_spec(t0, bytes.last()));
        assert forall|k: int| 0 <= k < bytes.len() implies t.cells[(BUFFER_HEIGHT - 1) * BUFFER_WIDTH + k] == (ScreenChar {
            ascii_character: #[trigger] bytes[k],
            color_code: s.color,
        }) by {
            if k < init.len() {
                assert(init[k] == bytes[k]);
            }
        }
    }
}

/// A writer over the VGA text buffer. It writes at a cursor on the bottom
/// line and scrolls the screen up on a newline or when the line is full.
pub struct Writer {
    column_position: usize,
    color_code: ColorCode,
    buffer: Vec<ScreenChar>,
}

impl View for Writer {
    type V = WriterState;

    closed spec fn view(&self) -> WriterState {
        WriterState {
            column: self.column_position as nat,
            color: self.color_code,
            cells: self.buffer@,
        }
    }
}

/// Shape of a writer state: a full screen and a cursor at most one past the
/// last column.
pub open spec fn writer_state_wf(s: WriterState) -> bool {
    &&& s.cells.len() == BUFFER_CELLS
    &&& s.column <= BUFFER_WIDTH
}

impl Writer {
    /// The writer's invariant.
    pub open spec fn wf(&self) -> bool {
        writer_state_wf(self@)
    }

    /// A writer over a blank screen, yellow on black, cursor at column 0.
    pub fn new() -> (r: Writer)
        ensures
            r.wf(),
            r@.column == 0,
            r@.color == color_code_spec(Color::Yellow, Color::Black),
            r@.cells == Seq::new(BUFFER_CELLS as nat, |i: int| blank(r@.color)),
    {
        let color_code = ColorCode::new(Color::Yellow, Color::Black);
        let mut buffer: Vec<ScreenChar> = Vec::new();
        let mut i: usize = 0;
        while i < BUFFER_CELLS
            invariant
                0 <= i <= BUFFER_CELLS,
                buffer@ == Seq::new(i as nat, |k: int| blank(color_code)),
            decreases BUFFER_CELLS - i,
        {
            buffer.push(ScreenChar { ascii_character: 32u8, color_code });
            i = i + 1;
        }
        Writer { column_position: 0, color_code, buffer }
    }

    /// The cell at `row`, `col`.
    pub fn read_char(&self, row: usize, col: usize) -> (r: ScreenChar)
        requires
            self.wf(),
            row < BUFFER_HEIGHT,
            col < BUFFER_WIDTH,
        ensures
            r == self@.cells[row * BUFFER_WIDTH + col],
    {
        self.buffer[row * BUFFER_WIDTH + col]
    }

    /// Writes an ASCII byte to the buffer, wrapping lines at the screen width;
    /// `\n` starts a new line.
    pub fn write_byte(&mut self, byte: u8)
        requires
            old(self).wf(),
        ensures
            final(self).wf(),
            final(self)@ == write_byte_spec(old(self)@, byte),
    {
        if byte == 10u8 {
            self.new_line();
        } else {
            if self.column_position >= BUFFER_WIDTH {
                self.new_line();
            }
            let row = BUFFER_HEIGHT - 1;
            let col = self.column_position;
            let color_code = self.color_code;
            self.buffer.set(row * BUFFER_WIDTH + col, ScreenChar { ascii_character: byte, color_code });
            self.column_position = self.column_position + 1;
        }
    }

    /// Writes the bytes of `s`; bytes that are neither printable ASCII nor a
    /// newline are shown as a filled square.
    pub fn write_string(&mut self, s: &str)
        requires
            old(self).wf(),
        ensures
            final(self).wf(),
            final(self)@ == write_bytes_spec(old(self)@, s.spec_bytes()),
    {
        let bytes = s.as_bytes();
        let mut i: usize = 0;
        while i < bytes.len()
            invariant
                self.wf(),
                bytes@ == s.spec_bytes(),
                0 <= i <= bytes@.len(),
                self@ == write_bytes_spec(old(self)@, bytes@.take(i as int)),
            decreases bytes@.len() - i,
        {
            let byte = bytes[i];
            assert(bytes@.take(i + 1).drop_last() =~= bytes@.take(i as int));
            if (0x20 <= byte && byte <= 0x7e) || byte == 10u8 {
                self.write_byte(byte);
            } else {
                self.write_byte(0xfe);
            }
            i = i + 1;
        }
        assert(bytes@.take(i as int) =~= bytes@);
    }

    /// Writes one byte of a string: printable ASCII and newline as they
    /// are, anything else as a filled square.
    pub fn put_byte(&mut self, byte: u8)
        requires
            old(self).wf(),
        ensures
            final(self).wf(),
            final(self)@ == write_byte_spec(old(self)@, shown_byte(byte)),
    {
        if (0x20 <= byte && byte <= 0x7e) || byte == 10u8 {
            self.write_byte(byte);
        } else {
            self.write_byte(0xfe);
        }
    }

    /// Shifts every line one line up and clears the bottom line; the cursor
    /// goes to column 0 and the color back to the default.
    fn new_line(&mut self)
        requires
            old(self).wf(),
        ensures
            final(self).wf(),
            final(self)@ == new_line_spec(old(self)@),
    {
        let ghost old_cells = self.buffer@;
        let mut i: usize = BUFFER_WIDTH;
        while i < BUFFER_CELLS
            invariant
                BUFFER_WIDTH <= i <= BUFFER_CELLS,
                self.buffer@.len() == BUFFER_CELLS,
                self.column_position == old(self).column_position,
                self.color_code == old(self).color_code,
                forall|k: int| 0 <= k < i - BUFFER_WIDTH ==> self.buffer@[k] == old_cells[k + BUFFER_WIDTH],
                forall|k: int| i - BUFFER_WIDTH <= k < BUFFER_CELLS ==> self.buffer@[k] == old_cells[k],
            decreases BUFFER_CELLS - i,
        {
            let character = self.buffer[i];
            self.buffer.set(i - BUFFER_WIDTH, character);
            i = i + 1;
        }
        self.clear_row(BUFFER_HEIGHT - 1);
        self.column_position = 0;
        assert(self.buffer@ =~= scroll_spec(old_cells, self.color_code));
        self.color_code = ColorCode::new(Color::Yellow, Color::Black);
    }

    /// Overwrites line `row` with blank cells in the current color.
    fn clear_row(&mut self, row: usize)
        requires
            old(self).buffer@.len() == BUFFER_CELLS,
            row < BUFFER_HEIGHT,
        ensures
            final(self).buffer@.len() == BUFFER_CELLS,
            final(self).column_position == old(self).column_position,
            final(self).color_code == old(self).color_code,
            forall|k: int|
                0 <= k < BUFFER_CELLS ==> #[trigger] final(self).buffer@[k] == if row * BUFFER_WIDTH <= k
                    < row * BUFFER_WIDTH + BUFFER_WIDTH {
                    blank(old(self).color_code)
                } else {
                    old(self).buffer@[k]
                },
    {
        let blank_char = ScreenChar { ascii_character: 32u8, color_code: self.color_code };
        let mut col: usize = 0;
        while col < BUFFER_WIDTH
            invariant
                0 <= col <= BUFFER_WIDTH,
                row < BUFFER_HEIGHT,
                blank_char == blank(old(self).color_code),
                self.buffer@.len() == BUFFER_CELLS,
                self.column_position == old(self).column_position,
                self.color_code == old(self).color_code,
                forall|k: int|
                    0 <= k < BUFFER_CELLS ==> #[trigger] self.buffer@[k] == if row * BUFFER_WIDTH <= k
                        < row * BUFFER_WIDTH + col {
                        blank(old(self).color_code)
                    } else {
                        old(self).buffer@[k]
                    },
            decreases BUFFER_WIDTH - col,
        {
            self.buffer.set(row * BUFFER_WIDTH + col, blank_char);
            col = col + 1;
        }
    }

    /// Sets the foreground and background color of the text written next.
    pub fn set_color(&mut self, foreground: Color, background: Color)
        requires
            old(self).wf(),
        ensures
            final(self).wf(),
            final(self)@ == (WriterState {
                color: color_code_spec(foreground, background),
                ..old(self)@
            }),
    {
        self.color_code = ColorCode::new(foreground, background);
    }

    /// The row of the cursor: always the bottom line.
    pub fn get_row(&self) -> (r: usize)
        ensures
            r == BUFFER_HEIGHT - 1,
    {
        BUFFER_HEIGHT - 1
    }

    /// Moves the cursor to `column`, capped at the last column.
    pub fn set_column(&mut self, column: usize)
        requires
            old(self).wf(),
        ensures
            final(self).wf(),
            final(self)@ == (WriterState {
                column: if column < BUFFER_WIDTH - 1 { column as nat } else { (BUFFER_WIDTH - 1) as nat },
                ..old(self)@
            }),
    {
        self.column_position = if column < BUFFER_WIDTH - 1 {
            column
        } else {
            BUFFER_WIDTH - 1
        };
    }

    /// Clears the screen by starting a new line for every line of the
    /// screen, then puts the cursor at column 0. The top line is blank in the
    /// color that was current, every other line in the default color, which
    /// is also the color afterwards.
    pub fn clear_screen(&mut self)
        requires
            old(self).wf(),
        ensures
            final(self).wf(),
            final(self)@ == (WriterState {
                column: 0,
                color: default_color(),
                cells: Seq::new(
                    BUFFER_CELLS as nat,
                    |i: int| if i < BUFFER_WIDTH { blank(old(self)@.color) } else { blank(default_color()) },
                ),
            }),
    {
        let mut n: usize = 0;
        while n < BUFFER_HEIGHT
            invariant
                0 <= n <= BUFFER_HEIGHT,
                self.wf(),
                self@.color == if n == 0 { old(self)@.color } else { default_color() },
                forall|k: int|
                    0 <= k < BUFFER_CELLS ==> #[trigger] self@.cells[k] == if k < BUFFER_CELLS - n
                        * BUFFER_WIDTH {
                        old(self)@.cells[k + n * BUFFER_WIDTH]
                    } else if k < BUFFER_CELLS - (n - 1) * BUFFER_WIDTH {
                        blank(old(self)@.color)
                    } else {
                        blank(default_color())
                    },
            decreases BUFFER_HEIGHT - n,
        {
            self.new_line();
            n = n + 1;
        }
        self.set_column(0);
        assert(self@.cells =~= Seq::new(
            BUFFER_CELLS as nat,
            |i: int| if i < BUFFER_WIDTH { blank(old(self)@.color) } else { blank(default_color()) },
        ));
    }
}

} // verus!
