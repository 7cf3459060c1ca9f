//! Whole frames: what a snapshot of one holds, when it is taken, and the reading of
//! the frame rate on its border.

use crate::graphics::GraphicsMode;
use crate::paint::Rgb;
use crate::text::{dec, push_dec};
use vstd::prelude::*;
use vstd::string::*;

verus! {

/// The colours that a terminal knows by name, or one of 8 bits to a channel.
#[derive(Debug, Clone, Copy, PartialEq, Eq, Structural)]
pub enum Tint {
    Black,
    White,
    Red,
    Green,
    Yellow,
    Blue,
    Magenta,
    Cyan,
    Gray,
    DarkGray,
    LightGreen,
    LightMagenta,
    LightYellow,
    LightRed,
    LightBlue,
    LightCyan,
    Exact(Rgb),
    /// Whatever the terminal shows by itself.
    Plain,
}

/// What a colour looks like on a dark terminal.
pub open spec fn look(t: Tint) -> Rgb {
    match t {
        Tint::Exact(c) => c,
        Tint::Black => Rgb(0, 0, 0),
        Tint::White => Rgb(230, 230, 230),
        Tint::Red => Rgb(200, 70, 70),
        Tint::Green => Rgb(70, 190, 90),
        Tint::Yellow => Rgb(220, 200, 60),
        Tint::Blue => Rgb(80, 120, 230),
        Tint::Magenta => Rgb(200, 90, 200),
        Tint::Cyan => Rgb(70, 190, 200),
        Tint::Gray => Rgb(160, 160, 160),
        Tint::DarkGray => Rgb(90, 90, 90),
        Tint::LightGreen => Rgb(130, 230, 130),
        Tint::LightMagenta => Rgb(230, 130, 230),
        Tint::LightYellow => Rgb(240, 230, 140),
        Tint::LightRed => Rgb(230, 120, 120),
        Tint::LightBlue => Rgb(130, 170, 240),
        Tint::LightCyan => Rgb(140, 220, 230),
        Tint::Plain => Rgb(13, 17, 23),
    }
}

pub fn color_rgb(t: Tint) -> (c: Rgb)
    ensures
        c == look(t),
{
    match t {
        Tint::Exact(c) => c,
        Tint::Black => Rgb(0, 0, 0),
        Tint::White => Rgb(230, 230, 230),
        Tint::Red => Rgb(200, 70, 70),
        Tint::Green => Rgb(70, 190, 90),
        Tint::Yellow => Rgb(220, 200, 60),
        Tint::Blue => Rgb(80, 120, 230),
        Tint::Magenta => Rgb(200, 90, 200),
        Tint::Cyan => Rgb(70, 190, 200),
        Tint::Gray => Rgb(160, 160, 160),
        Tint::DarkGray => Rgb(90, 90, 90),
        Tint::LightGreen => Rgb(130, 230, 130),
        Tint::LightMagenta => Rgb(230, 130, 230),
        Tint::LightYellow => Rgb(240, 230, 140),
        Tint::LightRed => Rgb(230, 120, 120),
        Tint::LightBlue => Rgb(130, 170, 240),
        Tint::LightCyan => Rgb(140, 220, 230),
        Tint::Plain => Rgb(13, 17, 23),
    }
}

/// A cell of a frame: its symbol and its two colours.
#[derive(Debug)]
pub struct FrameCell {
    pub symbol: String,
    pub fg: Tint,
    pub bg: Tint,
}

impl FrameCell {
    /// Whether the cell holds two pixels, one above the other.
    pub open spec fn halved(&self) -> bool {
        self.symbol@ == "▀"@
    }

    /// The colour of a half of the cell: the upper half is 0.
    pub open spec fn half(&self, row: int) -> Rgb {
        if row == 1 && self.halved() {
            look(self.bg)
        } else {
            look(self.fg)
        }
    }

    fn is_halved(&self) -> (r: bool)
        ensures
            r == self.halved(),
    {
        proof {
            reveal_strlit("▀");
        }
        let n: usize = self.symbol.as_str().unicode_len();
        if n != 1 {
            return false;
        }
        let r: bool = self.symbol.as_str().get_char(0) == '▀';
        assert(r ==> self.symbol@ == "▀"@);
        r
    }
}

/// One channel of a colour, the fourth opaque.
pub open spec fn channel(c: Rgb, k: int) -> u8 {
    if k == 0 {
        c.0
    } else if k == 1 {
        c.1
    } else if k == 2 {
        c.2
    } else {
        255
    }
}

/// The byte at `i` of the picture of a frame of `width` cells to a row: four bytes to
/// a pixel, and two rows of pixels to a row of cells.
pub open spec fn picture_byte(cells: Seq<FrameCell>, width: int, i: int) -> u8 {
    let pixel = i / 4;
    let row = pixel / width;
    channel(cells[row / 2 * width + pixel % width].half(row % 2), i % 4)
}

proof fn lemma_byte_of(width: int, row: int, col: int, k: int)
    requires
        0 <= col < width,
        0 <= row,
        0 <= k < 4,
    ensures
        ({
            let i = (row * width + col) * 4 + k;
            i / 4 == row * width + col && i % 4 == k && (i / 4) / width == row && (i / 4) % width
                == col
        }),
{
    let p = row * width + col;
    assert(p / width == row && p % width == col) by {
        vstd::arithmetic::div_mod::lemma_fundamental_div_mod_converse(p, width, row, col);
    }
}

/// The picture of a frame, as the bytes of its pixels.
pub fn frame_pixels(cells: &Vec<FrameCell>, width: u16, height: u16) -> (px: Vec<u8>)
    requires
        cells@.len() == width * height,
        width * height * 8 <= usize::MAX,
    ensures
        px@.len() == width * height * 8,
        forall|i: int| 0 <= i < px@.len() ==> px@[i] == picture_byte(cells@, width as int, i),
{
    let mut px: Vec<u8> = Vec::new();
    let w: usize = width as usize;
    let h: usize = height as usize;
    let mut row: usize = 0;
    assert(h * 2 == 2 * h);
    while row < 2 * h
        invariant
            row <= 2 * h,
            w == width,
            h == height,
            cells@.len() == w * h,
            px@.len() == row * w * 4,
            forall|i: int| 0 <= i < px@.len() ==> px@[i] == picture_byte(cells@, w as int, i),
        decreases 2 * h - row,
    {
        let cell_row: usize = row / 2;
        let mut col: usize = 0;
        assert(row * w * 4 == (row * w + 0) * 4) by (nonlinear_arith);
        while col < w
            invariant
                col <= w,
                row < 2 * h,
                h <= 0xffff,
                w <= 0xffff,
                cell_row == row / 2,
                cells@.len() == w * h,
                px@.len() == (row * w + col) * 4,
                forall|i: int| 0 <= i < px@.len() ==> px@[i] == picture_byte(cells@, w as int, i),
            decreases w - col,
        {
            assert(0 <= cell_row * w + col < w * h) by (nonlinear_arith)
                requires
                    0 <= cell_row < h,
                    0 <= col < w,
            ;
            let n: usize = cells.len();
            assert(0 <= cell_row * w <= n) by (nonlinear_arith)
                requires
                    0 <= cell_row < h,
                    0 <= w,
                    n == w * h,
            ;
            let cell = &cells[cell_row * w + col];
            let c: Rgb = if row % 2 == 1 && cell.is_halved() {
                color_rgb(cell.bg)
            } else {
                color_rgb(cell.fg)
            };
            let ghost before = px@;
            px.push(c.0);
            px.push(c.1);
            px.push(c.2);
            px.push(255);
            proof {
                lemma_byte_of(w as int, row as int, col as int, 0);
                lemma_byte_of(w as int, row as int, col as int, 1);
                lemma_byte_of(w as int, row as int, col as int, 2);
                lemma_byte_of(w as int, row as int, col as int, 3);
                assert forall|i: int| 0 <= i < px@.len() implies px@[i] == picture_byte(
                    cells@,
                    w as int,
                    i,
                ) by {
                    if i < before.len() {
                        assert(px@[i] == before[i]);
                    }
                }
            }
            col += 1;
            assert((row * w + col) * 4 == (row * w + (col - 1)) * 4 + 4);
        }
        row += 1;
        assert(row * w * 4 == ((row - 1) * w + w) * 4) by (nonlinear_arith);
    }
    assert(2 * h * w * 4 == w * h * 8) by (nonlinear_arith);
    px
}

/// What a symbol reads as: two pixels read as a space.
pub open spec fn readable(symbol: Seq<char>) -> Seq<char> {
    if symbol == "▀"@ {
        " "@
    } else {
        symbol
    }
}

/// The first `n` symbols from the cell `from` on.
pub open spec fn row_text(cells: Seq<FrameCell>, from: int, n: int) -> Seq<char>
    decreases n,
{
    if n <= 0 {
        Seq::empty()
    } else {
        row_text(cells, from, n - 1) + readable(cells[from + n - 1].symbol@)
    }
}

/// The first `n` rows of a frame as text, after an empty line.
pub open spec fn frame_rows(cells: Seq<FrameCell>, width: int, n: int) -> Seq<char>
    decreases n,
{
    if n <= 0 {
        "\n"@
    } else {
        frame_rows(cells, width, n - 1) + row_text(cells, (n - 1) * width, width) + "\n"@
    }
}

/// A frame as text.
pub fn frame_text(cells: &Vec<FrameCell>, width: u16, height: u16) -> (s: String)
    requires
        cells@.len() == width * height,
    ensures
        s@ == frame_rows(cells@, width as int, height as int),
{
    let mut s = String::new();
    s.append("\n");
    assert(s@ == "\n"@);
    let w: usize = width as usize;
    let h: usize = height as usize;
    let mut row: usize = 0;
    let mut at: usize = 0;
    while row < h
        invariant
            row <= h,
            w == width,
            h == height,
            cells@.len() == w * h,
            at == row * w,
            s@ == frame_rows(cells@, w as int, row as int),
        decreases h - row,
    {
        let ghost from = at as int;
        let mut col: usize = 0;
        assert((row + 1) * w <= w * h) by (nonlinear_arith)
            requires
                0 <= row < h,
                0 <= w,
        ;
        assert((row + 1) * w == row * w + w) by (nonlinear_arith);
        while col < w
            invariant
                col <= w,
                from == row * w,
                from + w <= cells@.len(),
                at == from + col,
                s@ == frame_rows(cells@, w as int, row as int) + row_text(cells@, from, col as int),
            decreases w - col,
        {
            let n: usize = cells.len();
            let cell = &cells[at];
            if cell.is_halved() {
                s.append(" ");
            } else {
                s.append(cell.symbol.as_str());
            }
            at += 1;
            col += 1;
            assert(s@ == frame_rows(cells@, w as int, row as int) + row_text(
                cells@,
                from,
                col as int,
            ));
        }
        s.append("\n");
        row += 1;
    }
    s
}

/// The frames after which a snapshot is taken whatever the dice do.
pub const LAST_FRAME: u32 = 600;

/// The frames that pass before a snapshot of a settled roll.
pub const FIRST_FRAME: u32 = 20;

/// What to do with a frame while a snapshot is wanted.
#[derive(Debug, Clone, Copy, PartialEq, Eq, Structural)]
pub enum SnapStep {
    /// Let it pass.
    Wait,
    /// Keep it.
    Take,
    /// Keep it, though the roll may not have settled.
    TakeLate,
}

/// Whether the frame is the one that is wanted: from the frame asked for on, or once
/// the roll has settled; in either case only where the picture fits the arena.
pub open spec fn wanted(frames: u32, at_frame: Option<u32>, synced: bool, settled: bool) -> bool {
    synced && match at_frame {
        Some(n) => frames >= n,
        None => frames >= FIRST_FRAME && settled,
    }
}

pub fn snap_step(frames: u32, at_frame: Option<u32>, synced: bool, settled: bool) -> (r: SnapStep)
    ensures
        r == (if frames >= LAST_FRAME {
            SnapStep::TakeLate
        } else if wanted(frames, at_frame, synced, settled) {
            SnapStep::Take
        } else {
            SnapStep::Wait
        }),
        r is TakeLate <==> frames >= 600,
{
    let done: bool = match at_frame {
        Some(n) => frames >= n && synced,
        None => frames >= FIRST_FRAME && synced && settled,
    };
    if frames >= LAST_FRAME {
        SnapStep::TakeLate
    } else if done {
        SnapStep::Take
    } else {
        SnapStep::Wait
    }
}

/// The frame rate and the times that a frame takes, each as a whole number in text.
#[derive(Debug)]
pub struct Rates {
    pub fps: String,
    pub rest: String,
    pub pack: String,
    pub zip: String,
    pub b64: String,
    pub wr: String,
}

pub open spec fn size_text(img_w: u32, img_h: u32) -> Seq<char> {
    dec(img_w as nat) + "×"@ + dec(img_h as nat)
}

/// A text moved to the right of `width` columns.
pub open spec fn moved_right(s: Seq<char>, width: int) -> Seq<char> {
    Seq::new(
        if s.len() < width {
            (width - s.len()) as nat
        } else {
            0
        },
        |k: int| ' ',
    ) + s
}

/// The short reading: the rate, how the arena is drawn, and its size.
pub open spec fn short_rates(tag: Seq<char>, r: Rates, img_w: u32, img_h: u32) -> Seq<char> {
    " "@ + moved_right(r.fps@, 4) + " fps · "@ + tag + " "@ + size_text(img_w, img_h) + " "@
}

/// The long reading: where the time of a frame goes.
pub open spec fn full_rates(r: Rates, img_w: u32, img_h: u32) -> Seq<char> {
    " "@ + r.fps@ + "fps "@ + size_text(img_w, img_h) + "  rest "@ + r.rest@ + " pack "@ + r.pack@
        + " zip "@ + r.zip@ + " b64 "@ + r.b64@ + " wr "@ + r.wr@ + " ms "@
}

/// The reading for a border of `width` columns: the long one where an image is sent
/// and it fits.
pub open spec fn rates_text(mode: GraphicsMode, width: u16, r: Rates, img_w: u32, img_h: u32) -> Seq<
    char,
> {
    match mode {
        GraphicsMode::Blocks { .. } => short_rates("blocks"@, r, img_w, img_h),
        GraphicsMode::Kitty { .. } => if full_rates(r, img_w, img_h).len() + 2 <= width {
            full_rates(r, img_w, img_h)
        } else {
            short_rates("kitty"@, r, img_w, img_h)
        },
    }
}

fn push_size(s: &mut String, img_w: u32, img_h: u32)
    ensures
        final(s)@ == old(s)@ + size_text(img_w, img_h),
{
    push_dec(s, img_w as u64);
    s.append("×");
    push_dec(s, img_h as u64);
    assert(s@ == old(s)@ + size_text(img_w, img_h));
}

fn short(tag: &str, r: &Rates, img_w: u32, img_h: u32) -> (s: String)
    ensures
        s@ == short_rates(tag@, *r, img_w, img_h),
{
    let mut s = String::new();
    s.append(" ");
    let mut k: usize = r.fps.as_str().unicode_len();
    assert(s@ == " "@ + Seq::<char>::empty());
    while k < 4
        invariant
            r.fps@.len() <= k,
            k <= 4 || k == r.fps@.len(),
            s@ == " "@ + Seq::new((k - r.fps@.len()) as nat, |j: int| ' '),
        decreases 4 - k,
    {
        s.push(' ');
        k += 1;
        assert(s@ == " "@ + Seq::new((k - r.fps@.len()) as nat, |j: int| ' '));
    }
    s.append(r.fps.as_str());
    s.append(" fps · ");
    s.append(tag);
    s.append(" ");
    push_size(&mut s, img_w, img_h);
    s.append(" ");
    assert(s@ == short_rates(tag@, *r, img_w, img_h));
    s
}

fn full(r: &Rates, img_w: u32, img_h: u32) -> (s: String)
    ensures
        s@ == full_rates(*r, img_w, img_h),
{
    let mut s = String::new();
    s.append(" ");
    s.append(r.fps.as_str());
    s.append("fps ");
    push_size(&mut s, img_w, img_h);
    s.append("  rest ");
    s.append(r.rest.as_str());
    s.append(" pack ");
    s.append(r.pack.as_str());
    s.append(" zip ");
    s.append(r.zip.as_str());
    s.append(" b64 ");
    s.append(r.b64.as_str());
    s.append(" wr ");
    s.append(r.wr.as_str());
    s.append(" ms ");
    assert(s@ == full_rates(*r, img_w, img_h));
    s
}

/// The reading of the frame rate and the column where it starts, one short of the
/// right end; nothing where the border is too narrow.
pub fn rates_overlay(mode: GraphicsMode, width: u16, r: &Rates, img_w: u32, img_h: u32) -> (o: Option<
    (u16, String),
>)
    ensures
        match o {
            Some((column, text)) => {
                &&& text@ == rates_text(mode, width, *r, img_w, img_h)
                &&& width > text@.len() + 2
                &&& column == width - text@.len() - 1
            },
            None => width <= rates_text(mode, width, *r, img_w, img_h).len() + 2,
        },
{
    let text = match mode {
        GraphicsMode::Blocks { .. } => short("blocks", r, img_w, img_h),
        GraphicsMode::Kitty { .. } => {
            let long = full(r, img_w, img_h);
            let n: usize = long.as_str().unicode_len();
            if width >= 2 && n <= width as usize - 2 {
                long
            } else {
                short("kitty", r, img_w, img_h)
            }
        },
    };
    let n: usize = text.as_str().unicode_len();
    if width < 2 || width as usize - 2 <= n {
        None
    } else {
        Some((width - n as u16 - 1, text))
    }
}

/// Each colour with a name looks as it does on a dark terminal, and an exact one as it is.
pub proof fn tints_look_as_named(c: Rgb)
    ensures
        look(Tint::Exact(c)) == c,
        look(Tint::Black) == Rgb(0, 0, 0),
        look(Tint::White) == Rgb(230, 230, 230),
        look(Tint::Red) == Rgb(200, 70, 70),
        look(Tint::Green) == Rgb(70, 190, 90),
        look(Tint::Yellow) == Rgb(220, 200, 60),
        look(Tint::Blue) == Rgb(80, 120, 230),
        look(Tint::Magenta) == Rgb(200, 90, 200),
        look(Tint::Cyan) == Rgb(70, 190, 200),
        look(Tint::Gray) == Rgb(160, 160, 160),
        look(Tint::DarkGray) == Rgb(90, 90, 90),
        look(Tint::LightGreen) == Rgb(130, 230, 130),
        look(Tint::LightMagenta) == Rgb(230, 130, 230),
        look(Tint::LightYellow) == Rgb(240, 230, 140),
        look(Tint::LightRed) == Rgb(230, 120, 120),
        look(Tint::LightBlue) == Rgb(130, 170, 240),
        look(Tint::LightCyan) == Rgb(140, 220, 230),
        look(Tint::Plain) == Rgb(13, 17, 23),
{
}

/// The picture of a frame shows each cell as two pixels, one above the other: in the
/// cell's two colours where it holds two pixels, and else both in the first. A pixel is
/// red, green, blue and opaque.
pub proof fn pictures_show_two_pixels_to_a_cell(
    cells: Seq<FrameCell>,
    width: int,
    row: int,
    col: int,
)
    requires
        0 <= col < width,
        0 <= row,
    ensures
        ({
            let cell = cells[row * width + col];
            let upper = ((2 * row) * width + col) * 4;
            let lower = ((2 * row + 1) * width + col) * 4;
            let below = if cell.symbol@ == "▀"@ {
                look(cell.bg)
            } else {
                look(cell.fg)
            };
            &&& picture_byte(cells, width, upper) == look(cell.fg).0
            &&& picture_byte(cells, width, upper + 1) == look(cell.fg).1
            &&& picture_byte(cells, width, upper + 2) == look(cell.fg).2
            &&& picture_byte(cells, width, upper + 3) == 255
            &&& picture_byte(cells, width, lower) == below.0
            &&& picture_byte(cells, width, lower + 1) == below.1
            &&& picture_byte(cells, width, lower + 2) == below.2
            &&& picture_byte(cells, width, lower + 3) == 255
        }),
{
    lemma_byte_of(width, 2 * row, col, 0);
    lemma_byte_of(width, 2 * row, col, 1);
    lemma_byte_of(width, 2 * row, col, 2);
    lemma_byte_of(width, 2 * row, col, 3);
    lemma_byte_of(width, 2 * row + 1, col, 0);
    lemma_byte_of(width, 2 * row + 1, col, 1);
    lemma_byte_of(width, 2 * row + 1, col, 2);
    lemma_byte_of(width, 2 * row + 1, col, 3);
    assert((2 * row) / 2 == row && (2 * row) % 2 == 0);
    assert((2 * row + 1) / 2 == row && (2 * row + 1) % 2 == 1);
}

/// A frame reads as an empty line and then its rows, each with the symbols of its cells
/// from left to right; a cell of two pixels reads as a blank.
pub proof fn frames_read_row_by_row(cells: Seq<FrameCell>, width: int, row: int, n: int)
    requires
        0 <= row,
        0 <= n,
    ensures
        frame_rows(cells, width, 0) == "\n"@,
        frame_rows(cells, width, row + 1) == frame_rows(cells, width, row) + row_text(
            cells,
            row * width,
            width,
        ) + "\n"@,
        row_text(cells, row * width, 0) == Seq::<char>::empty(),
        cells[row * width + n].symbol@ == "▀"@ ==> row_text(cells, row * width, n + 1) == row_text(
            cells,
            row * width,
            n,
        ) + " "@,
        cells[row * width + n].symbol@ != "▀"@ ==> row_text(cells, row * width, n + 1) == row_text(
            cells,
            row * width,
            n,
        ) + cells[row * width + n].symbol@,
{
}

/// A frame is wanted where the picture fits the arena: from the number asked for on, or,
/// where none is asked for, once twenty have passed and the roll has settled.
pub proof fn snapshots_wait_for_their_frame(frames: u32, n: u32, synced: bool, settled: bool)
    ensures
        wanted(frames, Some(n), synced, settled) <==> synced && frames >= n,
        wanted(frames, None, synced, settled) <==> synced && settled && frames >= 20,
{
}

/// The readings of the frame rate: the short one names the rate, the way of drawing and
/// the size, the long one each time that a frame takes.
pub proof fn readings_name_the_rates(tag: Seq<char>, r: Rates, w: u32, h: u32)
    ensures
        size_text(w, h) == dec(w as nat) + "×"@ + dec(h as nat),
        short_rates(tag, r, w, h) == " "@ + moved_right(r.fps@, 4) + " fps · "@ + tag + " "@
            + size_text(w, h) + " "@,
        full_rates(r, w, h) == " "@ + r.fps@ + "fps "@ + size_text(w, h) + "  rest "@ + r.rest@
            + " pack "@ + r.pack@ + " zip "@ + r.zip@ + " b64 "@ + r.b64@ + " wr "@ + r.wr@
            + " ms "@,
{
}

/// Blanks move a text to the right of its columns; one that fills them stays as it is.
pub proof fn texts_move_to_the_right(s: Seq<char>, width: int, k: int)
    requires
        0 <= k < moved_right(s, width).len(),
    ensures
        s.len() >= width ==> moved_right(s, width) == s,
        s.len() < width ==> moved_right(s, width).len() == width,
        k < moved_right(s, width).len() - s.len() ==> moved_right(s, width)[k] == ' ',
        k >= moved_right(s, width).len() - s.len() ==> moved_right(s, width)[k] == s[k - (
        moved_right(s, width).len() - s.len())],
{
    assert(s.len() >= width ==> moved_right(s, width) =~= s);
}

/// The long reading is given where an image is sent and the border has room for it and two
/// columns more, and else the short one.
pub proof fn long_readings_need_room(mode: GraphicsMode, width: u16, r: Rates, w: u32, h: u32)
    ensures
        mode is Blocks ==> rates_text(mode, width, r, w, h) == short_rates("blocks"@, r, w, h),
        mode is Kitty && full_rates(r, w, h).len() + 2 <= width ==> rates_text(mode, width, r, w, h)
            == full_rates(r, w, h),
        mode is Kitty && full_rates(r, w, h).len() + 2 > width ==> rates_text(mode, width, r, w, h)
            == short_rates("kitty"@, r, w, h),
{
}

} // verus!
