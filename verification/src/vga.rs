//! Text-mode console model.
//!
//! The hardware console is a grid of 80 by 25 cells, each a 16-bit word:
//! the low byte is the character, the high byte packs the background color
//! into bits 4 to 7 and the foreground color into bits 0 to 3. The writer
//! here owns the grid as plain data; flushing it to the memory-mapped
//! hardware buffer is left to the surrounding program. Writing past the
//! end of a row drops the character; a newline past the last row scrolls
//! the grid up by one row.

use vstd::prelude::*;

verus! {

use vstd::string::StringSliceAdditionalSpecFns;

pub const BUFFER_WIDTH: u32 = 80;
pub const BUFFER_HEIGHT: u32 = 25;
pub const BUFFER_CELLS: usize = 2000;

#[allow(dead_code)]
#[derive(Copy, Clone, Debug, PartialEq, Eq, Structural)]
pub enum Color {
    Black,
    Blue,
    Green,
    Cyan,
    Red,
    Magenta,
    Brown,
    LightGray,
    DarkGray,
    LightBlue,
    LightGreen,
    LightCyan,
    LightRed,
    Pink,
    Yellow,
    White,
}

/// The hardware code of a color: its position in the 16-color palette.
pub open spec fn color_code(c: Color) -> u8 {
    match c {
        Color::Black => 0,
        Color::Blue => 1,
        Color::Green => 2,
        Color::Cyan => 3,
        Color::Red => 4,
        Color::Magenta => 5,
        Color::Brown => 6,
        Color::LightGray => 7,
        Color::DarkGray => 8,
        Color::LightBlue => 9,
        Color::LightGreen => 10,
        Color::LightCyan => 11,
        Color::LightRed => 12,
        Color::Pink => 13,
        Color::Yellow => 14,
        Color::White => 15,
    }
}

impl Color {
    /// The color's palette code.
    pub fn code(self) -> (r: u8)
        ensures
            r == color_code(self),
    {
        match self {
            Color::Black => 0,
            Color::Blue => 1,
            Color::Green => 2,
            Color::Cyan => 3,
            Color::Red => 4,
            Color::Magenta => 5,
            Color::Brown => 6,
            Color::LightGray => 7,
            Color::DarkGray => 8,
            Color::LightBlue => 9,
            Color::LightGreen => 10,
            Color::LightCyan => 11,
            Color::LightRed => 12,
            Color::Pink => 13,
            Color::Yellow => 14,
            Color::White => 15,
        }
    }
}

/// The attribute byte: background in the high four bits, foreground in the
/// low four.
pub open spec fn encode_color_spec(foreground: Color, background: Color) -> u8 {
    (color_code(background) << 4) | color_code(foreground)
}

/// Packs a foreground and background color into one attribute byte.
pub fn encode_color(foreground: Color, background: Color) -> (r: u8)
    ensures
        r == encode_color_spec(foreground, background),
{
    (background.code() << 4) | foreground.code()
}

/// One cell's word: attribute byte above the character byte.
pub open spec fn screen_entry(color: u8, character: u8) -> u16 {
    ((color as u16) << 8) | (character as u16)
}

/// The cell that clearing paints everywhere: a white-on-`clear` blank.
pub open spec fn blank_entry(clear: Color) -> u16 {
    screen_entry(encode_color_spec(Color::White, clear), 32)
}

/// The writer's abstract state: cursor, colors and the grid's cells in
/// row-major order.
pub struct VGAState {
    pub x: int,
    pub y: int,
    pub foreground: Color,
    pub background: Color,
    pub clear: Color,
    pub cells: Seq<u16>,
}

/// A well-formed writer: a full grid, the cursor row on it, and the cursor
/// column at most one past the row's end.
pub open spec fn state_wf(s: VGAState) -> bool {
    &&& s.cells.len() == 2000
    &&& 0 <= s.y < 25
    &&& 0 <= s.x <= 80
}

/// The grid moved up one row, with a fresh blank last row.
pub open spec fn scrolled(cells: Seq<u16>, clear: Color) -> Seq<u16> {
    Seq::new(
        2000nat,
        |i: int|
            if i < 1920 {
                cells[i + 80]
            } else {
                blank_entry(clear)
            },
    )
}

/// What writing one byte does: a newline moves the cursor to the next
/// row's start, scrolling once the rows are used up; any other byte is
/// painted at the cursor in the current colors and moves the cursor right,
/// or is dropped when the row is full.
pub open spec fn write_byte_spec(s: VGAState, b: u8) -> VGAState {
    if b == 10 {
        if s.y + 1 < 25 {
            VGAState { x: 0, y: s.y + 1, ..s }
        } else {
            VGAState { x: 0, y: 24, cells: scrolled(s.cells, s.clear), ..s }
        }
    } else if s.x < 80 {
        VGAState {
            x: s.x + 1,
            cells: s.cells.update(
                s.y * 80 + s.x,
                screen_entry(encode_color_spec(s.foreground, s.background), b),
            ),
            ..s
        }
    } else {
        s
    }
}

/// Writing a byte sequence is writing its bytes in order.
pub open spec fn write_bytes_spec(s: VGAState, bytes: Seq<u8>) -> VGAState
    decreases bytes.len(),
{
    if bytes.len() == 0 {
        s
    } else {
        write_bytes_spec(write_byte_spec(s, bytes[0]), bytes.drop_first())
    }
}

/// Writing one more byte after a sequence is writing the extended
/// sequence.
proof fn lemma_write_bytes_snoc(s: VGAState, bytes: Seq<u8>, b: u8)
    ensures
        write_bytes_spec(s, bytes.push(b)) == write_byte_spec(write_bytes_spec(s, bytes), b),
    decreases bytes.len(),
{
    if bytes.len() == 0 {
        let one = bytes.push(b);
        assert(one[0] == b);
        assert(one.drop_first() =~= Seq::<u8>::empty());
        assert(write_bytes_spec(s, one) == write_bytes_spec(
            write_byte_spec(s, b),
            Seq::<u8>::empty(),
        ));
        assert(write_bytes_spec(write_byte_spec(s, b), Seq::<u8>::empty()) == write_byte_spec(
            s,
            b,
        ));
        assert(write_bytes_spec(s, bytes) == s);
    } else {
        assert(bytes.push(b)[0] == bytes[0]);
        assert(bytes.push(b).drop_first() =~= bytes.drop_first().push(b));
        lemma_write_bytes_snoc(write_byte_spec(s, bytes[0]), bytes.drop_first(), b);
    }
}

/// The text-mode writer: cursor position, current colors, and the owned
/// cell grid that stands for the hardware buffer.
pub struct VGAWriter {
    x: u32,
    y: u32,
    buffer: Vec<u16>,
    foreground_color: Color,
    background_color: Color,
    clear_color: Color,
}

impl View for VGAWriter {
    type V = VGAState;

    closed spec fn view(&self) -> VGAState {
        VGAState {
            x: self.x as int,
            y: self.y as int,
            foreground: self.foreground_color,
            background: self.background_color,
            clear: self.clear_color,
            cells: self.buffer@,
        }
    }
}

impl VGAWriter {
    /// A writer over a cleared black grid, cursor at the top left, white
    /// text on black.
    pub fn new() -> (r: VGAWriter)
        ensures
            state_wf(r@),
            r@.x == 0 && r@.y == 0,
            r@.foreground == Color::White && r@.background == Color::Black && r@.clear
                == Color::Black,
            forall|i: int| 0 <= i < 2000 ==> r@.cells[i] == blank_entry(Color::Black),
    {
        let blank = (encode_color(Color::White, Color::Black) as u16) << 8 | 32u16;
        let mut buffer: Vec<u16> = Vec::new();
        let mut i: usize = 0;
        while i < BUFFER_CELLS
            invariant
                i <= 2000,
                buffer@.len() == i,
                forall|k: int| 0 <= k < i ==> buffer@[k] == blank_entry(Color::Black),
                blank == blank_entry(Color::Black),
            decreases 2000 - i,
        {
            buffer.push(blank);
            i += 1;
        }
        VGAWriter {
            x: 0,
            y: 0,
            buffer,
            foreground_color: Color::White,
            background_color: Color::Black,
            clear_color: Color::Black,
        }
    }

    /// Repaints the whole grid as blanks over `clear_color` and puts the
    /// cursor back at the top left.
    pub fn clear(&mut self, clear_color: Color)
        requires
            state_wf(old(self)@),
        ensures
            state_wf(final(self)@),
            final(self)@.x == 0 && final(self)@.y == 0,
            final(self)@.clear == clear_color,
            final(self)@.foreground == old(self)@.foreground,
            final(self)@.background == old(self)@.background,
            forall|i: int| 0 <= i < 2000 ==> final(self)@.cells[i] == blank_entry(clear_color),
    {
        let blank = (encode_color(Color::White, clear_color) as u16) << 8 | 32u16;
        let mut i: usize = 0;
        while i < BUFFER_CELLS
            invariant
                i <= 2000,
                self.buffer@.len() == 2000,
                self.foreground_color == old(self).foreground_color,
                self.background_color == old(self).background_color,
                self.clear_color == old(self).clear_color,
                self.x == old(self).x && self.y == old(self).y,
                forall|k: int| 0 <= k < i ==> self.buffer@[k] == blank_entry(clear_color),
                blank == blank_entry(clear_color),
            decreases 2000 - i,
        {
            self.buffer[i] = blank;
            i += 1;
        }
        self.x = 0;
        self.y = 0;
        self.clear_color = clear_color;
    }

    /// Picks the colors that later writes paint with.
    pub fn set_color(&mut self, foreground: Color, background: Color)
        ensures
            final(self)@ == (VGAState {
                foreground,
                background,
                ..old(self)@
            }),
    {
        self.foreground_color = foreground;
        self.background_color = background;
    }

    /// Moves every row up by one and blanks the last row.
    fn scroll_up(&mut self)
        requires
            old(self)@.cells.len() == 2000,
        ensures
            final(self)@ == (VGAState { cells: scrolled(old(self)@.cells, old(self)@.clear), ..old(
                self,
            )@ }),
    {
        let mut k: usize = 0;
        while k < 1920
            invariant
                k <= 1920,
                self.buffer@.len() == 2000,
                self.x == old(self).x && self.y == old(self).y,
                self.foreground_color == old(self).foreground_color,
                self.background_color == old(self).background_color,
                self.clear_color == old(self).clear_color,
                forall|i: int| 0 <= i < k ==> self.buffer@[i] == old(self).buffer@[i + 80],
                forall|i: int| k <= i < 2000 ==> self.buffer@[i] == old(self).buffer@[i],
            decreases 1920 - k,
        {
            let moved = self.buffer[k + 80];
            self.buffer[k] = moved;
            k += 1;
        }
        let blank = (encode_color(Color::White, self.clear_color) as u16) << 8 | 32u16;
        while k < BUFFER_CELLS
            invariant
                1920 <= k <= 2000,
                self.buffer@.len() == 2000,
                self.x == old(self).x && self.y == old(self).y,
                self.foreground_color == old(self).foreground_color,
                self.background_color == old(self).background_color,
                self.clear_color == old(self).clear_color,
                blank == blank_entry(old(self).clear_color),
                forall|i: int| 0 <= i < 1920 ==> self.buffer@[i] == old(self).buffer@[i + 80],
                forall|i: int| 1920 <= i < k ==> self.buffer@[i] == blank_entry(
                    old(self).clear_color,
                ),
            decreases 2000 - k,
        {
            self.buffer[k] = blank;
            k += 1;
        }
        proof {
            assert(final(self)@.cells =~= scrolled(old(self)@.cells, old(self)@.clear));
        }
    }

    /// Writes one byte as `write_byte_spec` says.
    fn write_byte(&mut self, character: u8)
        requires
            state_wf(old(self)@),
        ensures
            state_wf(final(self)@),
            final(self)@ == write_byte_spec(old(self)@, character),
    {
        if character == 10 {
            self.y = self.y + 1;
            self.x = 0;
            if self.y >= BUFFER_HEIGHT {
                self.scroll_up();
                self.y = BUFFER_HEIGHT - 1;
            }
        } else {
            if self.x < BUFFER_WIDTH {
                let color = encode_color(self.foreground_color, self.background_color);
                let entry = ((color as u16) << 8) | (character as u16);
                let index = (self.y as usize) * 80 + (self.x as usize);
                self.buffer[index] = entry;
                self.x = self.x + 1;
                proof {
                    assert(final(self)@.cells =~= old(self)@.cells.update(
                        old(self)@.y * 80 + old(self)@.x,
                        screen_entry(
                            encode_color_spec(old(self)@.foreground, old(self)@.background),
                            character,
                        ),
                    ));
                }
            }
        }
    }

    /// Writes a string's bytes in order.
    pub fn write_str(&mut self, text: &str)
        requires
            state_wf(old(self)@),
        ensures
            state_wf(final(self)@),
            final(self)@ == write_bytes_spec(old(self)@, text.spec_bytes()),
    {
        let bytes = text.as_bytes();
        let n = bytes.len();
        let mut i: usize = 0;
        while i < n
            invariant
                i <= n,
                n == bytes@.len(),
                bytes@ == text.spec_bytes(),
                state_wf(self@),
                self@ == write_bytes_spec(old(self)@, bytes@.take(i as int)),
            decreases n - i,
        {
            let b = bytes[i];
            proof {
                assert(bytes@.take(i + 1 as int) =~= bytes@.take(i as int).push(b));
                lemma_write_bytes_snoc(old(self)@, bytes@.take(i as int), b);
            }
            self.write_byte(b);
            i += 1;
        }
        proof {
            assert(bytes@.take(n as int) =~= bytes@);
        }
    }
}

impl VGAWriter {
    /// The cell at column `x` of row `y`.
    pub fn cell(&self, x: usize, y: usize) -> (r: u16)
        requires
            state_wf(self@),
            x < 80,
            y < 25,
        ensures
            r == self@.cells[y * 80 + x],
    {
        self.buffer[y * 80 + x]
    }

    /// The cursor's column and row.
    pub fn cursor(&self) -> (r: (u32, u32))
        ensures
            r.0 == self@.x && r.1 == self@.y,
    {
        (self.x, self.y)
    }
}

/// Prints text through the given writer.
pub fn print(writer: &mut VGAWriter, text: &str)
    requires
        state_wf(old(writer)@),
    ensures
        state_wf(final(writer)@),
        final(writer)@ == write_bytes_spec(old(writer)@, text.spec_bytes()),
{
    writer.write_str(text);
}

} // verus!
