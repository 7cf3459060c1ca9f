//! How the arena reaches the terminal: as block glyphs, or as an image over the
//! kitty graphics protocol.

use crate::paint::Rgb;
use crate::text::{chars_of, dec, lowered, push_dec, push_lower};
use base64::prelude::{Engine, BASE64_STANDARD};
use flate2::write::ZlibEncoder;
use flate2::Compression;
use std::io::Write;
use vstd::prelude::*;
use vstd::string::*;

verus! {

/// How the arena is drawn: as block glyphs (2×2 to a cell, or two halves where the
/// terminal does not tile the quadrants), or as an image with `scale` pixels to
/// each half of a cell's height.
#[derive(Clone, Copy, Debug, PartialEq, Eq, Structural)]
pub enum GraphicsMode {
    Blocks { half_block: bool },
    Kitty { scale: u32 },
}

/// What the user asks for: to look at the terminal, or one way by force.
#[derive(Clone, Copy, Debug, PartialEq, Eq, Structural)]
pub enum GraphicsArg {
    Auto,
    Kitty,
    Blocks,
}

/// The widest image that is sent, in pixels.
pub const MAX_IMG_W: u32 = 1600;

/// The most payload that one escape carries, in bytes.
pub const CHUNK: usize = 4096;

/// The bytes of one row of a frame read back from the GPU: four for each pixel,
/// filled up to a multiple of 256.
pub open spec fn stride_of(img_w: nat) -> nat {
    (img_w * 4 + 255) / 256 * 256
}

pub fn readback_stride(img_w: u32) -> (stride: usize)
    requires
        img_w * 4 + 255 <= usize::MAX,
    ensures
        stride == stride_of(img_w as nat),
        img_w * 4 <= stride < img_w * 4 + 256,
{
    (img_w as usize * 4 + 255) / 256 * 256
}

/// Whether `part` stands in `s` at `i`.
pub open spec fn found_at(s: Seq<char>, part: Seq<char>, i: int) -> bool {
    0 <= i && i + part.len() <= s.len() && s.subrange(i, i + part.len()) == part
}

/// Whether `part` stands somewhere in `s`.
pub open spec fn contains_text(s: Seq<char>, part: Seq<char>) -> bool {
    exists|i: int| found_at(s, part, i)
}

fn stands_at(s: &Vec<char>, part: &Vec<char>, i: usize) -> (r: bool)
    requires
        i <= s@.len(),
    ensures
        r == found_at(s@, part@, i as int),
{
    let n: usize = s.len();
    if part.len() > n - i {
        return false;
    }
    let mut k: usize = 0;
    while k < part.len()
        invariant
            k <= part@.len(),
            i + part@.len() <= s@.len(),
            s@.len() == n,
            forall|j: int| 0 <= j < k ==> s@[i + j] == part@[j],
        decreases part@.len() - k,
    {
        if s[i + k] != part[k] {
            assert(s@.subrange(i as int, i + part@.len())[k as int] != part@[k as int]);
            return false;
        }
        k += 1;
    }
    assert(s@.subrange(i as int, i + part@.len()) == part@);
    true
}

fn starts_with(s: &str, part: &str) -> (r: bool)
    ensures
        r == found_at(s@, part@, 0),
{
    stands_at(&chars_of(s), &chars_of(part), 0)
}

fn contains(s: &str, part: &str) -> (r: bool)
    ensures
        r == contains_text(s@, part@),
{
    let chars = chars_of(s);
    let sought = chars_of(part);
    let mut i: usize = 0;
    while i < chars.len()
        invariant
            chars@ == s@,
            sought@ == part@,
            i <= s@.len(),
            forall|j: int| 0 <= j < i ==> !found_at(s@, part@, j),
        decreases s@.len() - i,
    {
        if stands_at(&chars, &sought, i) {
            assert(found_at(s@, part@, i as int));
            return true;
        }
        i += 1;
    }
    stands_at(&chars, &sought, i)
}

fn same_text(a: &str, b: &str) -> (r: bool)
    ensures
        r == (a@ == b@),
{
    assert(a@.subrange(0, a@.len() as int) == a@);
    a.unicode_len() == b.unicode_len() && starts_with(a, b)
}

/// Whether the terminal speaks the kitty protocol, going by its environment: a
/// multiplexer never does, whatever it inherits.
pub open spec fn speaks_kitty(
    term: Seq<char>,
    term_program: Seq<char>,
    kitty_window_id: bool,
    in_tmux: bool,
) -> bool {
    &&& !in_tmux
    &&& !found_at(term, "screen"@, 0)
    &&& !found_at(term, "tmux"@, 0)
    &&& {
        ||| contains_text(lowered(term), "kitty"@)
        ||| contains_text(lowered(term), "ghostty"@)
        ||| kitty_window_id
        ||| lowered(term_program) == "ghostty"@
        ||| lowered(term_program) == "wezterm"@
    }
}

/// A terminal inside a multiplexer is never taken to show images, whatever it inherits
/// from the one around it.
pub proof fn multiplexers_get_no_images(
    term: Seq<char>,
    term_program: Seq<char>,
    kitty_window_id: bool,
)
    ensures
        !speaks_kitty(term, term_program, kitty_window_id, true),
        !speaks_kitty("screen"@ + term, term_program, kitty_window_id, false),
        !speaks_kitty("tmux"@ + term, term_program, kitty_window_id, false),
{
    assert(("screen"@ + term).subrange(0, "screen"@.len() as int) == "screen"@);
    assert(("tmux"@ + term).subrange(0, "tmux"@.len() as int) == "tmux"@);
}

pub fn kitty_capable(term: &str, term_program: &str, kitty_window_id: bool, in_tmux: bool) -> (r:
    bool)
    ensures
        r == speaks_kitty(term@, term_program@, kitty_window_id, in_tmux),
{
    if in_tmux || starts_with(term, "screen") || starts_with(term, "tmux") {
        return false;
    }
    let mut name = String::new();
    push_lower(&mut name, term);
    let mut program = String::new();
    push_lower(&mut program, term_program);
    assert(name@ == lowered(term@));
    assert(program@ == lowered(term_program@));
    contains(name.as_str(), "kitty") || contains(name.as_str(), "ghostty") || kitty_window_id
        || same_text(program.as_str(), "ghostty") || same_text(program.as_str(), "wezterm")
}

/// Whether the terminal tiles the quadrant glyphs without seams.
pub fn quadrants_tile_cleanly(term_program: &str) -> (r: bool)
    ensures
        r == (term_program@ != "Apple_Terminal"@),
{
    !same_text(term_program, "Apple_Terminal")
}

/// The pixels to each half of a cell that is `cell_px_h` pixels tall: half of them,
/// rounded up, from 2 to 12, and 8 where the height is not known.
pub open spec fn scale_of(cell_px_h: int) -> int {
    let half = (cell_px_h + 1) / 2;
    if cell_px_h == 0 {
        8
    } else if half < 2 {
        2
    } else if half > 12 {
        12
    } else {
        half
    }
}

pub fn scale_for(cell_px_h: u32) -> (scale: u32)
    ensures
        scale == scale_of(cell_px_h as int),
{
    if cell_px_h == 0 {
        return 8;
    }
    let half: u32 = cell_px_h / 2 + cell_px_h % 2;
    if half < 2 {
        2
    } else if half > 12 {
        12
    } else {
        half
    }
}

/// The pixels to each half of a cell, of a window of `rows` rows that is `height`
/// pixels tall; either may be unknown, and is then 0.
pub fn window_scale(height: u16, rows: u16) -> (scale: u32)
    ensures
        scale == scale_of(
            if height > 0 && rows > 0 {
                (height / rows) as int
            } else {
                0
            },
        ),
{
    if height > 0 && rows > 0 {
        scale_for((height / rows) as u32)
    } else {
        scale_for(0)
    }
}

/// What is sent to the terminal after a frame has been drawn.
#[derive(Clone, Copy, Debug, PartialEq, Eq, Structural)]
pub enum KittyAction {
    /// Nothing.
    Rest,
    /// Take the placed image away.
    Remove,
    /// Send the image.
    Place,
}

/// What is sent after a frame: the image, unless a pane lies over the arena, which has
/// the placed image taken away once.
pub fn kitty_action(pane_open: bool, placed: bool) -> (a: KittyAction)
    ensures
        a == (if !pane_open {
            KittyAction::Place
        } else if placed {
            KittyAction::Remove
        } else {
            KittyAction::Rest
        }),
{
    if !pane_open {
        KittyAction::Place
    } else if placed {
        KittyAction::Remove
    } else {
        KittyAction::Rest
    }
}

/// How the arena is drawn, given what the user asks for, the environment and the
/// scale that the terminal's cells call for.
pub fn choose_mode(
    arg: GraphicsArg,
    term: &str,
    term_program: &str,
    kitty_window_id: bool,
    in_tmux: bool,
    scale: u32,
) -> (mode: GraphicsMode)
    ensures
        mode == (if arg == GraphicsArg::Kitty || (arg == GraphicsArg::Auto && speaks_kitty(
            term@,
            term_program@,
            kitty_window_id,
            in_tmux,
        )) {
            GraphicsMode::Kitty { scale }
        } else {
            GraphicsMode::Blocks { half_block: term_program@ == "Apple_Terminal"@ }
        }),
{
    let kitty = match arg {
        GraphicsArg::Kitty => true,
        GraphicsArg::Blocks => false,
        GraphicsArg::Auto => kitty_capable(term, term_program, kitty_window_id, in_tmux),
    };
    if kitty {
        GraphicsMode::Kitty { scale }
    } else {
        GraphicsMode::Blocks { half_block: !quadrants_tile_cleanly(term_program) }
    }
}

/// The scale at which an image of `cols` pixels a row is sent: the one that the terminal
/// shows, but no more than keeps a row within the widest that is sent, and at least 1.
pub fn capped_scale(cols: u32, scale: u32) -> (s: u32)
    requires
        cols >= 1,
    ensures
        1 <= s,
        s <= scale || s == 1,
        s * cols <= MAX_IMG_W || s == 1,
        s * cols <= 1600 || s == 1,
        forall|t: int| s < t <= scale ==> #[trigger] (t * cols) > MAX_IMG_W,
        forall|t: int| s < t <= scale ==> #[trigger] (t * cols) > 1600,
{
    let most: u32 = MAX_IMG_W / cols;
    proof {
        vstd::arithmetic::div_mod::lemma_fundamental_div_mod(MAX_IMG_W as int, cols as int);
        assert(most * cols == cols * most) by (nonlinear_arith);
        assert forall|t: int| most < t implies #[trigger] (t * cols) > MAX_IMG_W by {
            assert(t * cols >= cols * most + cols) by (nonlinear_arith)
                requires
                    t >= most + 1,
                    cols >= 1,
            ;
        }
    }
    let s: u32 = if scale < most {
        scale
    } else {
        most
    };
    proof {
        assert(s * cols <= most * cols) by (nonlinear_arith)
            requires
                0 <= s <= most,
                cols >= 1,
        ;
    }
    if s < 1 {
        1
    } else {
        s
    }
}

/// The pixels of a frame read back from the GPU, row by row and three bytes each:
/// neither the filling of the rows nor the fourth byte of a pixel.
pub open spec fn tight(pixels: Seq<u8>, img_w: nat, img_h: nat) -> Seq<u8> {
    Seq::new(
        img_w * img_h * 3,
        |k: int|
            {
                let pixel = k / 3;
                pixels[(pixel / img_w as int) * stride_of(img_w) + (pixel % img_w as int) * 4 + k
                    % 3]
            },
    )
}

/// The bytes of one row of a frame read back from the GPU, where the frame has pixels
/// and is all there.
fn whole_stride(pixels: &Vec<u8>, img_w: u32, img_h: u32) -> (r: Option<usize>)
    ensures
        match r {
            None => !readback_whole(pixels@, img_w, img_h),
            Some(stride) => {
                &&& readback_whole(pixels@, img_w, img_h)
                &&& stride == stride_of(img_w as nat)
                &&& img_w * 4 <= stride
            },
        },
{
    if img_w == 0 || img_h == 0 {
        return None;
    }
    let stride: u64 = (img_w as u64 * 4 + 255) / 256 * 256;
    assert(0 <= stride * img_h <= 0x1_0000_0000_0000_0000 * 0x1_0000_0000) by (nonlinear_arith)
        requires
            0 <= stride <= 0x1_0000_0000_0000_0000,
            0 <= img_h <= 0x1_0000_0000,
    ;
    let needed: u128 = stride as u128 * img_h as u128;
    let n: usize = pixels.len();
    if (n as u128) < needed {
        return None;
    }
    assert(stride <= stride * img_h) by (nonlinear_arith)
        requires
            0 <= stride,
            1 <= img_h,
    ;
    Some(stride as usize)
}

/// Strips a frame read back from the GPU down to its pixels, three bytes each.
/// Nothing comes of a frame without pixels, or of one that is not all there.
pub fn strip_rows(pixels: &Vec<u8>, img_w: u32, img_h: u32) -> (r: Option<Vec<u8>>)
    ensures
        match r {
            None => !readback_whole(pixels@, img_w, img_h),
            Some(rgb) => {
                &&& readback_whole(pixels@, img_w, img_h)
                &&& rgb@ == tight(pixels@, img_w as nat, img_h as nat)
            },
        },
{
    let stride: usize = match whole_stride(pixels, img_w, img_h) {
        Some(stride) => stride,
        None => {
            return None;
        },
    };
    let ghost want = tight(pixels@, img_w as nat, img_h as nat);
    let w: usize = img_w as usize;
    let h: usize = img_h as usize;
    let mut rgb: Vec<u8> = Vec::new();
    let mut y: usize = 0;
    assert(0 * img_w == 0) by (nonlinear_arith);
    while y < h
        invariant
            y <= h,
            w == img_w,
            h == img_h,
            w > 0,
            stride == stride_of(img_w as nat),
            w * 4 <= stride,
            stride * h <= pixels@.len(),
            want == tight(pixels@, img_w as nat, img_h as nat),
            rgb@.len() == y * w * 3,
            rgb@ == want.take(y * w * 3),
        decreases h - y,
    {
        assert(y * stride + stride <= stride * h) by (nonlinear_arith)
            requires
                y < h,
        ;
        assert(y * w + w <= w * h) by (nonlinear_arith)
            requires
                y < h,
        ;
        let n: usize = pixels.len();
        let row: usize = y * stride;
        let mut x: usize = 0;
        while x < w
            invariant
                x <= w,
                y < h,
                w == img_w,
                h == img_h,
                w > 0,
                stride == stride_of(img_w as nat),
                w * 4 <= stride,
                n == pixels@.len(),
                row == y * stride,
                row + stride <= n,
                y * w + w <= w * h,
                want == tight(pixels@, img_w as nat, img_h as nat),
                rgb@.len() == (y * w + x) * 3,
                rgb@ == want.take((y * w + x) * 3),
            decreases w - x,
        {
            let at: usize = row + x * 4;
            let ghost p = y * w + x;
            proof {
                lemma_pixel(y as int, x as int, w as int);
                assert(w * h * 3 == img_w as nat * img_h as nat * 3);
                assert(p * 3 + 3 <= want.len());
                assert((p * 3) / 3 == p && (p * 3) % 3 == 0);
                assert((p * 3 + 1) / 3 == p && (p * 3 + 1) % 3 == 1);
                assert((p * 3 + 2) / 3 == p && (p * 3 + 2) % 3 == 2);
                assert(want[p * 3] == pixels@[at as int]);
                assert(want[p * 3 + 1] == pixels@[at + 1]);
                assert(want[p * 3 + 2] == pixels@[at + 2]);
            }
            rgb.push(pixels[at]);
            rgb.push(pixels[at + 1]);
            rgb.push(pixels[at + 2]);
            x += 1;
            assert(rgb@ == want.take((y * w + x) * 3));
        }
        assert(y * w + w == (y + 1) * w) by (nonlinear_arith);
        y += 1;
    }
    assert(h * w * 3 == img_w as nat * img_h as nat * 3) by (nonlinear_arith)
        requires
            h == img_h,
            w == img_w,
    ;
    assert(want.take(h * w * 3) == want);
    Some(rgb)
}

/// Two frames whose pixels agree in their first three bytes are stripped to the same:
/// the filling of the rows, the fourth bytes and what follows the frame do not count.
pub proof fn filling_does_not_count(p: Seq<u8>, q: Seq<u8>, img_w: u32, img_h: u32)
    requires
        readback_whole(p, img_w, img_h),
        readback_whole(q, img_w, img_h),
        forall|x: int, y: int|
            0 <= x < img_w && 0 <= y < img_h ==> #[trigger] readback_pixel(p, img_w, img_h, x, y)
                == readback_pixel(q, img_w, img_h, x, y),
    ensures
        tight(p, img_w as nat, img_h as nat) == tight(q, img_w as nat, img_h as nat),
        tight(p, img_w as nat, img_h as nat).len() == 3 * (img_w as nat * img_h as nat),
{
    let w = img_w as int;
    let h = img_h as int;
    let a = tight(p, img_w as nat, img_h as nat);
    let b = tight(q, img_w as nat, img_h as nat);
    assert(img_w as nat * img_h as nat == w * h);
    assert forall|k: int| 0 <= k < a.len() implies a[k] == b[k] by {
        let pixel = k / 3;
        assert(0 <= pixel < w * h);
        let x = pixel % w;
        let y = pixel / w;
        assert(0 <= x < w && 0 <= y < h) by (nonlinear_arith)
            requires
                0 <= pixel < w * h,
                w > 0,
                x == pixel % w,
                y == pixel / w,
        ;
        assert(readback_pixel(p, img_w, img_h, x, y) == readback_pixel(q, img_w, img_h, x, y));
    }
    assert(a =~= b);
}

proof fn lemma_pixel(y: int, x: int, w: int)
    requires
        0 <= y,
        0 <= x < w,
    ensures
        (y * w + x) / w == y,
        (y * w + x) % w == x,
{
    vstd::arithmetic::div_mod::lemma_fundamental_div_mod_converse(y * w + x, w, y, x);
}

/// The pixel of a frame read back from the GPU in column `x` and row `y`; beyond the
/// edge, the last one before it.
pub open spec fn readback_pixel(pixels: Seq<u8>, img_w: u32, img_h: u32, x: int, y: int) -> Rgb {
    let column = if x < img_w {
        x
    } else {
        img_w - 1
    };
    let row = if y < img_h {
        y
    } else {
        img_h - 1
    };
    let at = row * stride_of(img_w as nat) + column * 4;
    Rgb(pixels[at], pixels[at + 1], pixels[at + 2])
}

/// Whether a frame read back from the GPU has pixels, and is all there.
pub open spec fn readback_whole(pixels: Seq<u8>, img_w: u32, img_h: u32) -> bool {
    &&& img_w > 0
    &&& img_h > 0
    &&& stride_of(img_w as nat) * img_h <= pixels.len()
}

fn read_pixel(
    pixels: &Vec<u8>,
    stride: usize,
    img_w: u32,
    img_h: u32,
    x: u32,
    y: u32,
) -> (c: Rgb)
    requires
        stride == stride_of(img_w as nat),
        img_w * 4 <= stride,
        readback_whole(pixels@, img_w, img_h),
    ensures
        c == readback_pixel(pixels@, img_w, img_h, x as int, y as int),
{
    let column: u32 = if x < img_w {
        x
    } else {
        img_w - 1
    };
    let row: u32 = if y < img_h {
        y
    } else {
        img_h - 1
    };
    let n: usize = pixels.len();
    assert(0 <= row * stride && row * stride + stride <= stride * img_h) by (nonlinear_arith)
        requires
            0 <= row < img_h,
            0 <= stride,
    ;
    assert(row <= row * stride) by (nonlinear_arith)
        requires
            0 <= row,
            1 <= stride,
    ;
    let column: usize = column as usize;
    let row: usize = row as usize;
    let at: usize = row * stride + column * 4;
    Rgb(pixels[at], pixels[at + 1], pixels[at + 2])
}

/// The two pixels of the cell in column `col` and row `row`, the upper one and the
/// lower, out of a frame read back from the GPU.
pub fn readback_cell(pixels: &Vec<u8>, img_w: u32, img_h: u32, col: u16, row: u16) -> (r: Option<
    (Rgb, Rgb),
>)
    ensures
        match r {
            None => !readback_whole(pixels@, img_w, img_h),
            Some((upper, lower)) => {
                &&& readback_whole(pixels@, img_w, img_h)
                &&& upper == readback_pixel(pixels@, img_w, img_h, col as int, row * 2)
                &&& lower == readback_pixel(pixels@, img_w, img_h, col as int, row * 2 + 1)
            },
        },
{
    let stride: usize = match whole_stride(pixels, img_w, img_h) {
        Some(stride) => stride,
        None => {
            return None;
        },
    };
    let upper = read_pixel(pixels, stride, img_w, img_h, col as u32, row as u32 * 2);
    let lower = read_pixel(pixels, stride, img_w, img_h, col as u32, row as u32 * 2 + 1);
    Some((upper, lower))
}

/// The digit of base64 for the six bits `n`.
pub open spec fn base64_digit(n: int) -> u8 {
    if n < 26 {
        (n + 'A' as int) as u8
    } else if n < 52 {
        (n - 26 + 'a' as int) as u8
    } else if n < 62 {
        (n - 52 + '0' as int) as u8
    } else if n == 62 {
        '+' as u8
    } else {
        '/' as u8
    }
}

/// The bytes in standard base64: four digits for each three bytes, and a last four
/// filled up with `=` for what is left over.
pub open spec fn base64(bytes: Seq<u8>) -> Seq<u8>
    decreases bytes.len(),
{
    let a = bytes[0] as int;
    let b = bytes[1] as int;
    let c = bytes[2] as int;
    let pad = '=' as u8;
    if bytes.len() == 0 {
        Seq::empty()
    } else if bytes.len() == 1 {
        seq![base64_digit(a / 4), base64_digit(a % 4 * 16), pad, pad]
    } else if bytes.len() == 2 {
        seq![
            base64_digit(a / 4),
            base64_digit(a % 4 * 16 + b / 16),
            base64_digit(b % 16 * 4),
            pad,
        ]
    } else {
        seq![
            base64_digit(a / 4),
            base64_digit(a % 4 * 16 + b / 16),
            base64_digit(b % 16 * 4 + c / 64),
            base64_digit(c % 64),
        ] + base64(bytes.skip(3))
    }
}

/// The six bits that a digit of base64 stands for.
pub open spec fn base64_value(digit: u8) -> int {
    if 'A' as u8 <= digit <= 'Z' as u8 {
        digit - 'A' as int
    } else if 'a' as u8 <= digit <= 'z' as u8 {
        digit - 'a' as int + 26
    } else if '0' as u8 <= digit <= '9' as u8 {
        digit - '0' as int + 52
    } else if digit == '+' as u8 {
        62
    } else {
        63
    }
}

/// The bytes that a text in standard base64 stands for.
pub open spec fn from_base64(text: Seq<u8>) -> Seq<u8>
    decreases text.len(),
{
    let a = base64_value(text[0]);
    let b = base64_value(text[1]);
    let c = base64_value(text[2]);
    let d = base64_value(text[3]);
    let pad = '=' as u8;
    if text.len() < 4 {
        Seq::empty()
    } else if text[2] == pad {
        seq![(a * 4 + b / 16) as u8]
    } else if text[3] == pad {
        seq![(a * 4 + b / 16) as u8, (b % 16 * 16 + c / 4) as u8]
    } else {
        seq![
            (a * 4 + b / 16) as u8,
            (b % 16 * 16 + c / 4) as u8,
            (c % 4 * 64 + d) as u8,
        ] + from_base64(text.skip(4))
    }
}

proof fn lemma_base64_digit(n: int)
    requires
        0 <= n < 64,
    ensures
        base64_value(base64_digit(n)) == n,
        base64_digit(n) != '=' as u8,
{
}

/// What is written in base64 reads back.
pub proof fn base64_reads_back(bytes: Seq<u8>)
    ensures
        from_base64(base64(bytes)) == bytes,
        base64(bytes).len() == (bytes.len() + 2) / 3 * 4,
    decreases bytes.len(),
{
    if bytes.len() > 0 {
        let a = bytes[0] as int;
        lemma_base64_digit(a / 4);
        if bytes.len() == 1 {
            lemma_base64_digit(a % 4 * 16);
            assert(from_base64(base64(bytes)) =~= bytes);
        } else {
            let b = bytes[1] as int;
            lemma_base64_digit(a % 4 * 16 + b / 16);
            if bytes.len() == 2 {
                lemma_base64_digit(b % 16 * 4);
                assert(from_base64(base64(bytes)) =~= bytes);
            } else {
                let c = bytes[2] as int;
                lemma_base64_digit(b % 16 * 4 + c / 64);
                lemma_base64_digit(c % 64);
                base64_reads_back(bytes.skip(3));
                assert(base64(bytes).skip(4) =~= base64(bytes.skip(3)));
                assert(from_base64(base64(bytes)) =~= bytes);
            }
        }
    }
}

/// `BASE64_STANDARD.encode`: the bytes in the standard alphabet of base64, filled up
/// with `=`. It panics where the text is longer than a vector can be.
#[verifier::external_body]
pub(crate) fn encode_base64(bytes: &[u8]) -> (text: Vec<u8>)
    requires
        (bytes@.len() + 2) / 3 * 4 <= isize::MAX,
    ensures
        text@ == base64(bytes@),
{
    BASE64_STANDARD.encode(bytes).into_bytes()
}

/// What `ZlibEncoder` makes of the bytes at its fast level.
pub uninterp spec fn zlib_of(bytes: Seq<u8>) -> Seq<u8>;

/// `ZlibEncoder` at the level `Compression::fast()`: the bytes as a zlib stream,
/// which depends on the input alone. Writing to a vector does not fail.
#[verifier::external_body]
pub fn compress(rgb: &[u8]) -> (packed: Vec<u8>)
    ensures
        packed@ == zlib_of(rgb@),
{
    let mut enc = ZlibEncoder::new(Vec::new(), Compression::fast());
    enc.write_all(rgb).expect("zlib write into a Vec is infallible");
    enc.finish().expect("zlib finish into a Vec is infallible")
}

/// The bytes of a text in ASCII.
pub open spec fn ascii(s: Seq<char>) -> Seq<u8> {
    Seq::new(s.len(), |k: int| s[k] as u8)
}

fn push_ascii(out: &mut Vec<u8>, s: &str)
    ensures
        final(out)@ == old(out)@ + ascii(s@),
{
    let chars = chars_of(s);
    let mut k: usize = 0;
    while k < chars.len()
        invariant
            k <= chars@.len(),
            chars@ == s@,
            out@ == old(out)@ + ascii(s@).take(k as int),
        decreases chars@.len() - k,
    {
        out.push(chars[k] as u8);
        k += 1;
        assert(out@ == old(out)@ + ascii(s@).take(k as int));
    }
    assert(ascii(s@).take(k as int) == ascii(s@));
}

/// One escape of the protocol: a control block and a payload.
pub open spec fn escape(control: Seq<char>, payload: Seq<u8>) -> Seq<u8> {
    ascii("\u{1b}_G"@) + ascii(control) + ascii(";"@) + payload + ascii("\u{1b}\\"@)
}

fn push_escape(out: &mut Vec<u8>, control: &str, payload: &Vec<u8>, from: usize, to: usize)
    requires
        from <= to <= payload@.len(),
    ensures
        final(out)@ == old(out)@ + escape(control@, payload@.subrange(from as int, to as int)),
{
    push_ascii(out, "\u{1b}_G");
    push_ascii(out, control);
    push_ascii(out, ";");
    let ghost head = out@;
    let mut k: usize = from;
    while k < to
        invariant
            from <= k <= to <= payload@.len(),
            out@ == head + payload@.subrange(from as int, k as int),
        decreases to - k,
    {
        out.push(payload[k]);
        k += 1;
        assert(out@ == head + payload@.subrange(from as int, k as int));
    }
    push_ascii(out, "\u{1b}\\");
    assert(out@ == old(out)@ + escape(control@, payload@.subrange(from as int, to as int)));
}

/// The control block that names the image: its size in pixels and in cells.
pub open spec fn image_control(
    kind: Seq<char>,
    img_w: u32,
    img_h: u32,
    cols: u16,
    rows: u16,
) -> Seq<char> {
    "a=T,f=24,"@ + kind + ",i=1,p=1,z=-1073741825,C=1,q=2,s="@ + dec(img_w as nat) + ",v="@ + dec(
        img_h as nat,
    ) + ",c="@ + dec(cols as nat) + ",r="@ + dec(rows as nat)
}

fn format_control(kind: &str, img_w: u32, img_h: u32, cols: u16, rows: u16) -> (s: String)
    ensures
        s@ == image_control(kind@, img_w, img_h, cols, rows),
{
    let mut s = "a=T,f=24,".to_owned();
    s.append(kind);
    s.append(",i=1,p=1,z=-1073741825,C=1,q=2,s=");
    push_dec(&mut s, img_w as u64);
    s.append(",v=");
    push_dec(&mut s, img_h as u64);
    s.append(",c=");
    push_dec(&mut s, cols as u64);
    s.append(",r=");
    push_dec(&mut s, rows as u64);
    s
}

/// How many escapes carry a text of `len` bytes: one even where there are none.
pub open spec fn chunk_count(len: nat) -> nat {
    if len == 0 {
        1
    } else {
        (len + CHUNK as nat - 1) as nat / CHUNK as nat
    }
}

/// The part of the text that the escape number `k` carries.
pub open spec fn chunk(text: Seq<u8>, k: int) -> Seq<u8> {
    let to = (k + 1) * CHUNK;
    text.subrange(
        k * CHUNK,
        if to < text.len() {
            to
        } else {
            text.len() as int
        },
    )
}

/// The control block of the escape number `k`: the first one names the image, and
/// each says whether more follows.
pub open spec fn chunk_control(control: Seq<char>, text: Seq<u8>, k: int) -> Seq<char> {
    (if k == 0 {
        control + ","@
    } else {
        Seq::empty()
    }) + if k == chunk_count(text.len()) - 1 {
        "m=0"@
    } else {
        "m=1"@
    }
}

/// The first `n` escapes that carry the text.
pub open spec fn stream(control: Seq<char>, text: Seq<u8>, n: int) -> Seq<u8>
    decreases n,
{
    if n <= 0 {
        Seq::empty()
    } else {
        stream(control, text, n - 1) + escape(
            chunk_control(control, text, n - 1),
            chunk(text, n - 1),
        )
    }
}

/// The payloads of the first `n` escapes, one after the other.
pub open spec fn payloads(text: Seq<u8>, n: int) -> Seq<u8>
    decreases n,
{
    if n <= 0 {
        Seq::empty()
    } else {
        payloads(text, n - 1) + chunk(text, n - 1)
    }
}

proof fn lemma_payloads(text: Seq<u8>, n: int)
    requires
        0 <= n <= chunk_count(text.len()),
    ensures
        payloads(text, n) == text.take(
            if n * CHUNK < text.len() {
                n * CHUNK
            } else {
                text.len() as int
            },
        ),
    decreases n,
{
    if n > 0 {
        lemma_payloads(text, n - 1);
        assert(payloads(text, n) =~= text.take(
            if n * CHUNK < text.len() {
                n * CHUNK
            } else {
                text.len() as int
            },
        ));
    } else {
        assert(payloads(text, n) =~= text.take(0));
    }
}

/// The escapes carry the whole text, in order and no more than the allowed bytes
/// each; only the first names the image, and only the last says that no more follows.
pub proof fn escapes_carry_the_text(control: Seq<char>, text: Seq<u8>, k: int)
    requires
        0 <= k < chunk_count(text.len()),
    ensures
        payloads(text, chunk_count(text.len()) as int) == text,
        chunk(text, k).len() <= CHUNK,
        k < chunk_count(text.len()) - 1 ==> chunk(text, k).len() == CHUNK,
        chunk_control(control, text, k) == (if k == 0 {
            control + ","@
        } else {
            Seq::empty()
        }) + (if k == chunk_count(text.len()) - 1 {
            "m=0"@
        } else {
            "m=1"@
        }),
{
    lemma_payloads(text, chunk_count(text.len()) as int);
    assert(text.take(text.len() as int) == text);
}

/// What the escapes of an image carry, joined and read as base64, is the image as it
/// was handed over.
pub proof fn escapes_carry_the_image(payload: Seq<u8>)
    ensures
        from_base64(payloads(base64(payload), chunk_count(base64(payload).len()) as int))
            == payload,
{
    let text = base64(payload);
    base64_reads_back(payload);
    lemma_payloads(text, chunk_count(text.len()) as int);
    assert(text.take(text.len() as int) == text);
}

/// The escapes that send a compressed image and place it over `cols` by `rows`
/// cells.
pub fn encode_apc(payload: &[u8], img_w: u32, img_h: u32, cols: u16, rows: u16) -> (out: Vec<u8>)
    requires
        (payload@.len() + 2) / 3 * 4 <= isize::MAX,
    ensures
        out@ == stream(
            image_control("o=z"@, img_w, img_h, cols, rows),
            base64(payload@),
            chunk_count(base64(payload@).len()) as int,
        ),
{
    let text = encode_base64(payload);
    proof {
        base64_reads_back(payload@);
    }
    let control = format_control("o=z", img_w, img_h, cols, rows);
    let len: usize = text.len();
    let count: usize = if len == 0 {
        1
    } else {
        (len + (CHUNK - 1)) / CHUNK
    };
    let mut out: Vec<u8> = Vec::new();
    let mut k: usize = 0;
    while k < count
        invariant
            k <= count,
            len == text@.len(),
            len <= usize::MAX - CHUNK,
            count == chunk_count(len as nat),
            out@ == stream(control@, text@, k as int),
        decreases count - k,
    {
        let mut head = String::new();
        if k == 0 {
            head.append(control.as_str());
            head.append(",");
        }
        if k == count - 1 {
            head.append("m=0");
        } else {
            head.append("m=1");
        }
        assert(head@ == chunk_control(control@, text@, k as int));
        assert(k * CHUNK <= len);
        let from: usize = k * CHUNK;
        let to: usize = if from + CHUNK < len {
            from + CHUNK
        } else {
            len
        };
        push_escape(&mut out, head.as_str(), &text, from, to);
        k += 1;
    }
    out
}

/// The escape that has the terminal read an image from a file and place it over
/// `cols` by `rows` cells.
pub fn encode_apc_path(path: &str, img_w: u32, img_h: u32, cols: u16, rows: u16) -> (out: Vec<u8>)
    requires
        (path.spec_bytes().len() + 2) / 3 * 4 <= isize::MAX,
    ensures
        out@ == escape(
            image_control("t=f"@, img_w, img_h, cols, rows),
            base64(path.spec_bytes()),
        ),
{
    let text = encode_base64(path.as_bytes());
    let control = format_control("t=f", img_w, img_h, cols, rows);
    let mut out: Vec<u8> = Vec::new();
    push_escape(&mut out, control.as_str(), &text, 0, text.len());
    assert(text@.subrange(0, text@.len() as int) == text@);
    assert(out@ == escape(control@, text@));
    out
}

/// The escape that takes the placed image away and keeps its data.
pub fn delete_placement_apc() -> (out: Vec<u8>)
    ensures
        out@ == escape("a=d,d=i,i=1,p=1,q=2"@, Seq::empty()),
{
    let none: Vec<u8> = Vec::new();
    let mut out: Vec<u8> = Vec::new();
    push_escape(&mut out, "a=d,d=i,i=1,p=1,q=2", &none, 0, 0);
    assert(out@ == escape("a=d,d=i,i=1,p=1,q=2"@, Seq::empty()));
    out
}

/// The escape that takes the image away with its data.
pub fn delete_all_apc() -> (out: Vec<u8>)
    ensures
        out@ == escape("a=d,d=I,i=1,q=2"@, Seq::empty()),
{
    let none: Vec<u8> = Vec::new();
    let mut out: Vec<u8> = Vec::new();
    push_escape(&mut out, "a=d,d=I,i=1,q=2", &none, 0, 0);
    assert(out@ == escape("a=d,d=I,i=1,q=2"@, Seq::empty()));
    out
}

/// The rows of a readback are filled up to the next multiple of 256 bytes.
pub proof fn rows_are_filled_to_the_block(img_w: nat)
    ensures
        stride_of(img_w) % 256 == 0,
        4 * img_w <= stride_of(img_w) < 4 * img_w + 256,
{
}

/// A text holds a part where it can be cut into what stands before it, the part, and what
/// follows; it begins with the part where nothing stands before it.
pub proof fn parts_are_found_in_texts(a: Seq<char>, part: Seq<char>, b: Seq<char>, s: Seq<char>)
    ensures
        contains_text(a + part + b, part),
        found_at(part + b, part, 0),
        contains_text(s, part) ==> exists|i: int|
            0 <= i <= i + part.len() <= s.len() && s == s.take(i) + part + #[trigger] s.skip(
                i + part.len(),
            ),
{
    let whole = a + part + b;
    assert(whole.subrange(a.len() as int, (a.len() + part.len()) as int) =~= part);
    assert(found_at(whole, part, a.len() as int));
    assert((part + b).subrange(0, part.len() as int) =~= part);
    if contains_text(s, part) {
        let i = choose|i: int| found_at(s, part, i);
        assert(s =~= s.take(i) + part + s.skip(i + part.len()));
    }
}

/// A terminal is sent images where it names itself or its program after one that shows
/// them, or has a window number, and no multiplexer stands between.
pub proof fn images_go_to_terminals_that_show_them(
    term: Seq<char>,
    program: Seq<char>,
    window: bool,
    tmux: bool,
)
    ensures
        speaks_kitty(term, program, window, tmux) ==> !tmux,
        speaks_kitty(term, program, window, tmux) ==> window || contains_text(
            lowered(term),
            "kitty"@,
        ) || contains_text(lowered(term), "ghostty"@) || lowered(program) == "ghostty"@ || lowered(
            program,
        ) == "wezterm"@,
        !tmux && !found_at(term, "screen"@, 0) && !found_at(term, "tmux"@, 0) ==> {
            &&& window ==> speaks_kitty(term, program, window, tmux)
            &&& contains_text(lowered(term), "kitty"@) ==> speaks_kitty(term, program, window, tmux)
            &&& contains_text(lowered(term), "ghostty"@) ==> speaks_kitty(
                term,
                program,
                window,
                tmux,
            )
            &&& lowered(program) == "ghostty"@ ==> speaks_kitty(term, program, window, tmux)
            &&& lowered(program) == "wezterm"@ ==> speaks_kitty(term, program, window, tmux)
        },
        found_at(term, "screen"@, 0) || found_at(term, "tmux"@, 0) ==> !speaks_kitty(
            term,
            program,
            window,
            tmux,
        ),
{
}

/// The scale is half the height of a cell, rounded up, but at least 2 and at most 12, and 8
/// where the height is not known.
pub proof fn scales_are_half_a_cell(h: int)
    requires
        h >= 0,
    ensures
        scale_of(0) == 8,
        1 <= h <= 4 ==> scale_of(h) == 2,
        3 <= h <= 24 ==> h <= 2 * scale_of(h) <= h + 1,
        h >= 23 ==> scale_of(h) == 12,
{
}

/// An image is packed without its filling and without its fourth channel: the byte for the
/// channel `c` of the pixel in column `x` and row `y` is that of the readback.
pub proof fn packing_keeps_the_colours(
    pixels: Seq<u8>,
    img_w: nat,
    img_h: nat,
    x: int,
    y: int,
    c: int,
)
    requires
        0 <= x < img_w,
        0 <= y < img_h,
        0 <= c < 3,
    ensures
        tight(pixels, img_w, img_h).len() == img_w * img_h * 3,
        tight(pixels, img_w, img_h)[(y * img_w + x) * 3 + c] == pixels[y * stride_of(img_w) + x * 4
            + c],
{
    let w = img_w as int;
    let p = y * w + x;
    let k = p * 3 + c;
    vstd::arithmetic::div_mod::lemma_fundamental_div_mod_converse(p, w, y, x);
    assert(0 <= p < w * img_h) by (nonlinear_arith)
        requires
            p == y * w + x,
            0 <= x < w,
            0 <= y < img_h,
    ;
    assert(k / 3 == p && k % 3 == c);
    assert(0 <= k < w * img_h * 3);
}

/// A pixel beyond the edge of a readback is that at the edge.
pub proof fn readbacks_repeat_at_their_edge(
    pixels: Seq<u8>,
    img_w: u32,
    img_h: u32,
    x: int,
    y: int,
)
    ensures
        x >= img_w ==> readback_pixel(pixels, img_w, img_h, x, y) == readback_pixel(
            pixels,
            img_w,
            img_h,
            img_w - 1,
            y,
        ),
        y >= img_h ==> readback_pixel(pixels, img_w, img_h, x, y) == readback_pixel(
            pixels,
            img_w,
            img_h,
            x,
            img_h - 1,
        ),
        x < img_w && y < img_h ==> {
            let at = y * stride_of(img_w as nat) + x * 4;
            readback_pixel(pixels, img_w, img_h, x, y) == Rgb(
                pixels[at],
                pixels[at + 1],
                pixels[at + 2],
            )
        },
        readback_whole(pixels, img_w, img_h) <==> img_w > 0 && img_h > 0 && stride_of(img_w as nat)
            * img_h <= pixels.len(),
{
}

/// The digits of base64 are the capital letters, the small ones, the ten digits, the plus
/// and the slash, in this order.
pub proof fn base64_has_its_alphabet(n: int)
    ensures
        0 <= n < 26 ==> base64_digit(n) == 65 + n,
        26 <= n < 52 ==> base64_digit(n) == 97 + (n - 26),
        52 <= n < 62 ==> base64_digit(n) == 48 + (n - 52),
        base64_digit(62) == 43,
        base64_digit(63) == 47,
{
}

#[verifier::spinoff_prover]
#[verifier::rlimit(40)]
proof fn lemma_sixths(a: int, b: int, c: int)
    requires
        0 <= a < 256,
        0 <= b < 256,
        0 <= c < 256,
    ensures
        ({
            let n = a * 65536 + b * 256 + c;
            &&& n / 262144 == a / 4
            &&& n / 4096 % 64 == a % 4 * 16 + b / 16
            &&& n / 64 % 64 == b % 16 * 4 + c / 64
            &&& n % 64 == c % 64
        }),
{
    let n = a * 65536 + b * 256 + c;
    let p = a / 4;
    let q = a % 4;
    let r = b / 16;
    let s = b % 16;
    let t = c / 64;
    let u = c % 64;
    assert(a == 4 * p + q && b == 16 * r + s && c == 64 * t + u);
    assert(0 <= q < 4 && 0 <= r < 16 && 0 <= s < 16 && 0 <= t < 4 && 0 <= u < 64);
    let first = 64 * (64 * (64 * p + (16 * q + r)) + (4 * s + t)) + u;
    assert(n == first);
    lemma_parts(64 * (64 * p + (16 * q + r)) + (4 * s + t), 64, u);
    lemma_parts(64 * p + (16 * q + r), 64, 4 * s + t);
    lemma_parts(64 * p + (16 * q + r), 4096, 64 * (4 * s + t) + u);
    lemma_parts(p, 64, 16 * q + r);
    lemma_parts(p, 262144, 4096 * (16 * q + r) + 64 * (4 * s + t) + u);
}

proof fn lemma_parts(q: int, d: int, r: int)
    requires
        0 <= r < d,
    ensures
        (d * q + r) / d == q,
        (d * q + r) % d == r,
{
    assert(q * d == d * q) by (nonlinear_arith);
    vstd::arithmetic::div_mod::lemma_fundamental_div_mod_converse(d * q + r, d, q, r);
}

/// Three bytes make four digits, which hold the same number, the highest first; one byte or
/// two at the end are filled up with zeros, and the digits that are missing are marked.
#[verifier::spinoff_prover]
#[verifier::rlimit(40)]
pub proof fn three_bytes_make_four_digits(a: u8, b: u8, c: u8, rest: Seq<u8>)
    ensures
        ({
            let n = a * 65536 + b * 256 + c;
            let text = base64(seq![a, b, c] + rest);
            &&& text.len() >= 4
            &&& text[0] == base64_digit(n / 262144)
            &&& text[1] == base64_digit(n / 4096 % 64)
            &&& text[2] == base64_digit(n / 64 % 64)
            &&& text[3] == base64_digit(n % 64)
            &&& text.skip(4) == base64(rest)
        }),
        ({
            let n = a * 65536 + b * 256;
            base64(seq![a, b]) == seq![
                base64_digit(n / 262144),
                base64_digit(n / 4096 % 64),
                base64_digit(n / 64 % 64),
                61u8,
            ]
        }),
        ({
            let n = a * 65536;
            base64(seq![a]) == seq![
                base64_digit(n / 262144),
                base64_digit(n / 4096 % 64),
                61u8,
                61u8,
            ]
        }),
        base64(Seq::empty()) == Seq::<u8>::empty(),
{
    let all = seq![a, b, c] + rest;
    let none = Seq::<u8>::empty();
    lemma_sixths(a as int, b as int, c as int);
    lemma_sixths(a as int, b as int, 0);
    lemma_sixths(a as int, 0, 0);
    assert(all.skip(3) =~= rest);
    assert(base64(all).skip(4) =~= base64(rest));
    assert(base64(none) =~= none);
}

/// An escape is opened, holds its control and its payload with a semicolon between them,
/// and is closed.
pub proof fn escapes_are_opened_and_closed(control: Seq<char>, payload: Seq<u8>, k: int)
    ensures
        escape(control, payload) == ascii("\u{1b}_G"@) + ascii(control) + ascii(";"@) + payload
            + ascii("\u{1b}\\"@),
        ascii(control).len() == control.len(),
        0 <= k < control.len() ==> ascii(control)[k] == control[k] as u8,
{
}

/// The control of an image names its kind, its pixels and its cells, each under its own
/// letter, and says that it lies behind the text, leaves the cursor alone and wants no
/// answer.
pub proof fn images_name_their_size(kind: Seq<char>, img_w: u32, img_h: u32, cols: u16, rows: u16)
    ensures
        image_control(kind, img_w, img_h, cols, rows) == "a=T,f=24,"@ + kind
            + ",i=1,p=1,z=-1073741825,C=1,q=2,s="@ + dec(img_w as nat) + ",v="@ + dec(img_h as nat)
            + ",c="@ + dec(cols as nat) + ",r="@ + dec(rows as nat),
{
}

/// A text is sent in parts of 4096 bytes, the last of which may be shorter, and at least in
/// one.
pub proof fn texts_are_sent_in_parts(text: Seq<u8>, k: int)
    requires
        0 <= k < chunk_count(text.len()),
    ensures
        chunk_count(0) == 1,
        text.len() > 0 ==> 4096 * (chunk_count(text.len()) - 1) < text.len() <= 4096 * chunk_count(
            text.len(),
        ),
        chunk(text, k).len() <= 4096,
        forall|j: int|
            0 <= j < chunk(text, k).len() ==> #[trigger] chunk(text, k)[j] == text[4096 * k + j],
        4096 * (k + 1) <= text.len() ==> chunk(text, k).len() == 4096,
{
}

/// The escapes of an image follow each other: the first carries the control, each but the
/// last says that more is to come, and each carries its part.
pub proof fn escapes_follow_each_other(control: Seq<char>, text: Seq<u8>, k: int)
    requires
        0 <= k < chunk_count(text.len()),
    ensures
        ({
            let more = if k == chunk_count(text.len()) - 1 {
                "m=0"@
            } else {
                "m=1"@
            };
            let head = if k == 0 {
                control + ","@ + more
            } else {
                more
            };
            stream(control, text, k + 1) == stream(control, text, k) + escape(head, chunk(text, k))
        }),
        stream(control, text, 0) == Seq::<u8>::empty(),
        payloads(text, k + 1) == payloads(text, k) + chunk(text, k),
        payloads(text, 0) == Seq::<u8>::empty(),
{
    assert(Seq::<char>::empty() + "m=0"@ =~= "m=0"@);
    assert(Seq::<char>::empty() + "m=1"@ =~= "m=1"@);
}

} // verus!
