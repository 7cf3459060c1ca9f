//! Colours and pixels.

use vstd::prelude::*;

verus! {

/// A colour of 8 bits to a channel.
#[derive(Debug, Clone, Copy, PartialEq, Eq, Structural)]
pub struct Rgb(pub u8, pub u8, pub u8);

/// The colours of the dice, one after the other.
pub open spec fn palette(slot: int) -> Rgb {
    if slot == 0 {
        Rgb(60, 200, 210)
    } else if slot == 1 {
        Rgb(220, 200, 60)
    } else if slot == 2 {
        Rgb(70, 200, 90)
    } else if slot == 3 {
        Rgb(210, 90, 210)
    } else if slot == 4 {
        Rgb(220, 70, 70)
    } else if slot == 5 {
        Rgb(80, 130, 240)
    } else if slot == 6 {
        Rgb(130, 230, 130)
    } else {
        Rgb(230, 130, 230)
    }
}

/// The colour of the dice with this index: the palette goes round.
pub fn die_rgb(idx: usize) -> (c: Rgb)
    ensures
        c == palette(idx as int % 8),
{
    match idx % 8 {
        0 => Rgb(60, 200, 210),
        1 => Rgb(220, 200, 60),
        2 => Rgb(70, 200, 90),
        3 => Rgb(210, 90, 210),
        4 => Rgb(220, 70, 70),
        5 => Rgb(80, 130, 240),
        6 => Rgb(130, 230, 130),
        _ => Rgb(230, 130, 230),
    }
}

/// A picture of four bytes to a pixel, row by row.
#[derive(Debug)]
pub struct Texture {
    pub width: u32,
    pub height: u32,
    pub data: Vec<u8>,
}

impl Texture {
    /// The picture with these pixels.
    pub fn from_rgba(width: u32, height: u32, data: Vec<u8>) -> (t: Texture)
        requires
            data@.len() == width * height * 4,
        ensures
            t.width == width,
            t.height == height,
            t.data == data,
    {
        Texture { width, height, data }
    }
}

pub open spec fn mixed(h: u32) -> u32 {
    let a = (h ^ (h >> 16u32)).wrapping_mul(0x7feb_352du32);
    let b = (a ^ (a >> 15u32)).wrapping_mul(0x846c_a68bu32);
    b ^ (b >> 16u32)
}

/// Scatters the bits of a number, for grain that looks like chance.
pub fn hash32(h: u32) -> (r: u32)
    ensures
        r == mixed(h),
{
    let a: u32 = (h ^ (h >> 16u32)).wrapping_mul(0x7feb_352d);
    let b: u32 = (a ^ (a >> 15u32)).wrapping_mul(0x846c_a68b);
    b ^ (b >> 16u32)
}

/// How pixels are packed into cells.
#[derive(Debug, Clone, Copy, PartialEq, Eq, Structural)]
pub enum RenderMode {
    /// Two pixels to a cell, one above the other.
    HalfBlock,
    /// Dots, two by four to a cell.
    Braille,
    /// One letter to a cell.
    Ascii,
}

impl RenderMode {
    /// The pixels that fill `width` by `height` cells.
    pub fn pixel_size(self, width: u16, height: u16) -> (r: (u32, u32))
        ensures
            self == RenderMode::Braille ==> r.0 == width * 2 && r.1 == height * 4,
            self != RenderMode::Braille ==> r.0 == width && r.1 == height * 2,
    {
        match self {
            RenderMode::Braille => (width as u32 * 2, height as u32 * 4),
            _ => (width as u32, height as u32 * 2),
        }
    }
}

impl Default for RenderMode {
    fn default() -> (m: RenderMode)
        ensures
            m == RenderMode::HalfBlock,
    {
        RenderMode::HalfBlock
    }
}

/// A picture with how much of each pixel is covered.
#[derive(Debug)]
pub struct Canvas {
    pub width: u32,
    pub height: u32,
    pub color: Vec<Rgb>,
    pub alpha: Vec<u8>,
}

impl Canvas {
    pub open spec fn wf(&self) -> bool {
        &&& self.color@.len() == self.width * self.height
        &&& self.alpha@.len() == self.width * self.height
    }

    /// Where the pixel in column `x` and row `y` stands.
    pub open spec fn at(&self, x: int, y: int) -> int {
        y * self.width + x
    }

    /// The pixel in column `x` and row `y`, black beyond the edge.
    pub open spec fn pixel(&self, x: int, y: int) -> Rgb {
        if x < self.width && y < self.height {
            self.color@[self.at(x, y)]
        } else {
            Rgb(0, 0, 0)
        }
    }
}

proof fn lemma_pixel_in_range(x: int, y: int, w: int, h: int)
    requires
        0 <= x < w,
        0 <= y < h,
    ensures
        0 <= y * w + x < w * h,
{
    assert(y * w + x < w * h) by (nonlinear_arith)
        requires
            0 <= x < w,
            0 <= y < h,
    ;
    assert(0 <= y * w) by (nonlinear_arith)
        requires
            0 <= y,
            0 < w,
    ;
}

/// The pixel in column `x` and row `y`, or black beyond the edge.
pub fn px(c: &Canvas, x: u32, y: u32) -> (r: Rgb)
    requires
        c.wf(),
    ensures
        r == c.pixel(x as int, y as int),
{
    if x < c.width && y < c.height {
        proof {
            lemma_pixel_in_range(x as int, y as int, c.width as int, c.height as int);
        }
        let n: usize = c.color.len();
        let i: u64 = y as u64 * c.width as u64 + x as u64;
        c.color[i as usize]
    } else {
        Rgb(0, 0, 0)
    }
}

/// The sum of a channel (0 to 2 the colours, 3 the cover) over the first `n` pixels of
/// the square of `ss` by `ss` pixels whose corner is in column `x` and row `y`.
pub open spec fn block_sum(c: Canvas, ss: int, x: int, y: int, channel: int, n: int) -> int
    decreases n,
{
    if n <= 0 {
        0
    } else {
        let i = c.at(x + (n - 1) % ss, y + (n - 1) / ss);
        block_sum(c, ss, x, y, channel, n - 1) + if channel == 0 {
            c.color@[i].0 as int
        } else if channel == 1 {
            c.color@[i].1 as int
        } else if channel == 2 {
            c.color@[i].2 as int
        } else {
            c.alpha@[i] as int
        }
    }
}

/// The mean of a channel over the square number `x`, `y`.
pub open spec fn block_mean(c: Canvas, ss: int, x: int, y: int, channel: int) -> int {
    block_sum(c, ss, x * ss, y * ss, channel, ss * ss) / (ss * ss)
}

pub open spec fn mean_color(c: Canvas, ss: int, x: int, y: int) -> Rgb {
    Rgb(
        block_mean(c, ss, x, y, 0) as u8,
        block_mean(c, ss, x, y, 1) as u8,
        block_mean(c, ss, x, y, 2) as u8,
    )
}

fn mean_of(c: &Canvas, ss: u32, x: u32, y: u32) -> (r: (Rgb, u8))
    requires
        c.wf(),
        1 <= ss,
        (x + 1) * ss <= c.width,
        (y + 1) * ss <= c.height,
    ensures
        r.0 == mean_color(*c, ss as int, x as int, y as int),
        r.1 == block_mean(*c, ss as int, x as int, y as int, 3) as u8,
{
    assert(1 <= ss * ss <= 0xffff_ffff * 0xffff_ffff) by (nonlinear_arith)
        requires
            1 <= ss <= 0xffff_ffff,
    ;
    assert((x + 1) * ss == x * ss + ss && (y + 1) * ss == y * ss + ss) by (nonlinear_arith);
    let n: u64 = ss as u64 * ss as u64;
    let x0: u32 = x * ss;
    let y0: u32 = y * ss;
    let mut r: u128 = 0;
    let mut g: u128 = 0;
    let mut b: u128 = 0;
    let mut a: u128 = 0;
    let mut k: u64 = 0;
    while k < n
        invariant
            k <= n,
            n == ss * ss,
            c.wf(),
            1 <= ss,
            x0 + ss <= c.width,
            y0 + ss <= c.height,
            r == block_sum(*c, ss as int, x0 as int, y0 as int, 0, k as int),
            g == block_sum(*c, ss as int, x0 as int, y0 as int, 1, k as int),
            b == block_sum(*c, ss as int, x0 as int, y0 as int, 2, k as int),
            a == block_sum(*c, ss as int, x0 as int, y0 as int, 3, k as int),
            r <= 255 * k,
            g <= 255 * k,
            b <= 255 * k,
            a <= 255 * k,
        decreases n - k,
    {
        assert(0 <= k / (ss as u64) < ss) by (nonlinear_arith)
            requires
                0 <= k < ss * ss,
                ss >= 1,
        ;
        let px: u32 = x0 + (k % ss as u64) as u32;
        let py: u32 = y0 + (k / ss as u64) as u32;
        proof {
            lemma_pixel_in_range(px as int, py as int, c.width as int, c.height as int);
        }
        let len: usize = c.color.len();
        let i: usize = (py as u64 * c.width as u64 + px as u64) as usize;
        let color = c.color[i];
        r += color.0 as u128;
        g += color.1 as u128;
        b += color.2 as u128;
        a += c.alpha[i] as u128;
        k += 1;
    }
    proof {
        lemma_mean_small(r as int, n as int);
        lemma_mean_small(g as int, n as int);
        lemma_mean_small(b as int, n as int);
        lemma_mean_small(a as int, n as int);
    }
    let all: u128 = n as u128;
    (Rgb((r / all) as u8, (g / all) as u8, (b / all) as u8), (a / all) as u8)
}

proof fn lemma_mean_small(sum: int, n: int)
    requires
        0 <= sum <= 255 * n,
        1 <= n,
    ensures
        0 <= sum / n <= 255,
{
    assert(0 <= sum / n <= 255) by (nonlinear_arith)
        requires
            0 <= sum <= 255 * n,
            1 <= n,
    ;
}

/// The picture at one `ss`th of its size: each pixel is the mean of a square of
/// `ss` by `ss` pixels.
pub fn downsample_into(hi: &Canvas, ss: u32) -> (out: Canvas)
    requires
        hi.wf(),
        1 <= ss,
    ensures
        out.wf(),
        out.width == hi.width / ss,
        out.height == hi.height / ss,
        forall|k: int|
            0 <= k < out.color@.len() ==> #[trigger] out.color@[k] == mean_color(
                *hi,
                ss as int,
                k % out.width as int,
                k / out.width as int,
            ),
        forall|k: int|
            0 <= k < out.alpha@.len() ==> #[trigger] out.alpha@[k] == block_mean(
                *hi,
                ss as int,
                k % out.width as int,
                k / out.width as int,
                3,
            ) as u8,
{
    let w: u32 = hi.width / ss;
    let h: u32 = hi.height / ss;
    assert(0 <= w * h <= 0xffff_ffff * 0xffff_ffff) by (nonlinear_arith)
        requires
            0 <= w <= 0xffff_ffff,
            0 <= h <= 0xffff_ffff,
    ;
    let n: u64 = w as u64 * h as u64;
    let mut color: Vec<Rgb> = Vec::new();
    let mut alpha: Vec<u8> = Vec::new();
    let mut k: u64 = 0;
    while k < n
        invariant
            k <= n,
            n == w * h,
            hi.wf(),
            1 <= ss,
            w == hi.width / ss,
            h == hi.height / ss,
            color@.len() == k,
            alpha@.len() == k,
            forall|j: int|
                0 <= j < k ==> #[trigger] color@[j] == mean_color(
                    *hi,
                    ss as int,
                    j % w as int,
                    j / w as int,
                ),
            forall|j: int|
                0 <= j < k ==> #[trigger] alpha@[j] == block_mean(
                    *hi,
                    ss as int,
                    j % w as int,
                    j / w as int,
                    3,
                ) as u8,
        decreases n - k,
    {
        proof {
            lemma_row_and_column(k as int, w as int, h as int);
        }
        let x: u32 = (k % w as u64) as u32;
        let y: u32 = (k / w as u64) as u32;
        proof {
            lemma_square_fits(x as int, hi.width as int, ss as int);
            lemma_square_fits(y as int, hi.height as int, ss as int);
        }
        let (c, a) = mean_of(hi, ss, x, y);
        color.push(c);
        alpha.push(a);
        k += 1;
    }
    Canvas { width: w, height: h, color, alpha }
}

proof fn lemma_row_and_column(k: int, w: int, h: int)
    requires
        0 <= k < w * h,
        0 <= w,
        0 <= h,
    ensures
        0 < w,
        0 <= k % w < w,
        0 <= k / w < h,
{
    assert(0 < w) by (nonlinear_arith)
        requires
            0 <= k < w * h,
            0 <= w,
            0 <= h,
    ;
    assert(0 <= k % w < w && 0 <= k / w < h) by (nonlinear_arith)
        requires
            0 <= k < w * h,
            0 < w,
    ;
}

proof fn lemma_square_fits(x: int, width: int, ss: int)
    requires
        0 <= x < width / ss,
        1 <= ss,
    ensures
        (x + 1) * ss <= width,
{
    assert((x + 1) * ss <= width) by (nonlinear_arith)
        requires
            0 <= x < width / ss,
            1 <= ss,
    ;
}

/// The bit of the dot in column `dx` and row `dy` of a cell of dots.
pub open spec fn dot(dx: int, dy: int) -> u8 {
    if dy == 3 {
        if dx == 0 {
            0x40
        } else {
            0x80
        }
    } else if dx == 0 {
        if dy == 0 {
            0x01
        } else if dy == 1 {
            0x02
        } else {
            0x04
        }
    } else {
        if dy == 0 {
            0x08
        } else if dy == 1 {
            0x10
        } else {
            0x20
        }
    }
}

/// The dots among the first `n` of the cell in column `col` and row `row` that are
/// covered, as bits; each in turn from left to right and from top to bottom.
pub open spec fn dots(c: Canvas, col: int, row: int, n: int) -> u8
    decreases n,
{
    if n <= 0 {
        0
    } else {
        let x = col * 2 + (n - 1) % 2;
        let y = row * 4 + (n - 1) / 2;
        if x < c.width && y < c.height && c.alpha@[c.at(x, y)] != 0 {
            dots(c, col, row, n - 1) | dot((n - 1) % 2, (n - 1) / 2)
        } else {
            dots(c, col, row, n - 1)
        }
    }
}

/// The covered dots of the cell in column `col` and row `row`, as the bits that the
/// braille patterns count by.
pub fn braille_bits(c: &Canvas, col: u16, row: u16) -> (bits: u8)
    requires
        c.wf(),
    ensures
        bits == dots(*c, col as int, row as int, 8),
{
    let mut bits: u8 = 0;
    let mut k: u32 = 0;
    while k < 8
        invariant
            k <= 8,
            c.wf(),
            bits == dots(*c, col as int, row as int, k as int),
        decreases 8 - k,
    {
        let dx: u32 = k % 2;
        let dy: u32 = k / 2;
        let x: u32 = col as u32 * 2 + dx;
        let y: u32 = row as u32 * 4 + dy;
        if x < c.width && y < c.height {
            proof {
                lemma_pixel_in_range(x as int, y as int, c.width as int, c.height as int);
            }
            let len: usize = c.alpha.len();
            let i: usize = (y as u64 * c.width as u64 + x as u64) as usize;
            if c.alpha[i] != 0 {
                let bit: u8 = if dy == 3 {
                    if dx == 0 {
                        0x40
                    } else {
                        0x80
                    }
                } else if dx == 0 {
                    if dy == 0 {
                        0x01
                    } else if dy == 1 {
                        0x02
                    } else {
                        0x04
                    }
                } else {
                    if dy == 0 {
                        0x08
                    } else if dy == 1 {
                        0x10
                    } else {
                        0x20
                    }
                };
                bits = bits | bit;
            }
        }
        k += 1;
    }
    bits
}

/// The sum of one channel over those of the first `n` dots of a cell that are covered.
pub open spec fn covered_sum(c: Canvas, col: int, row: int, n: int, channel: spec_fn(Rgb) -> u8) -> int
    decreases n,
{
    if n <= 0 {
        0
    } else {
        let x = col * 2 + (n - 1) % 2;
        let y = row * 4 + (n - 1) / 2;
        covered_sum(c, col, row, n - 1, channel) + if x < c.width && y < c.height
            && c.alpha@[c.at(x, y)] != 0 {
            channel(c.color@[c.at(x, y)]) as int
        } else {
            0
        }
    }
}

/// How many of the first `n` dots of a cell are covered.
pub open spec fn covered_count(c: Canvas, col: int, row: int, n: int) -> int {
    covered_sum(c, col, row, n, |p: Rgb| 1u8)
}

/// The mean colour of the covered dots of a cell, or nothing where none is.
pub open spec fn covered_mean(c: Canvas, col: int, row: int) -> Option<Rgb> {
    let n = covered_count(c, col, row, 8);
    if n == 0 {
        None
    } else {
        Some(
            Rgb(
                (covered_sum(c, col, row, 8, |p: Rgb| p.0) / n) as u8,
                (covered_sum(c, col, row, 8, |p: Rgb| p.1) / n) as u8,
                (covered_sum(c, col, row, 8, |p: Rgb| p.2) / n) as u8,
            ),
        )
    }
}

/// The mean colour of the covered dots of the cell in column `col` and row `row`.
pub fn braille_color(c: &Canvas, col: u16, row: u16) -> (r: Option<Rgb>)
    requires
        c.wf(),
    ensures
        r == covered_mean(*c, col as int, row as int),
{
    let ghost one = |p: Rgb| 1u8;
    let ghost red = |p: Rgb| p.0;
    let ghost green = |p: Rgb| p.1;
    let ghost blue = |p: Rgb| p.2;
    let mut r: u32 = 0;
    let mut g: u32 = 0;
    let mut b: u32 = 0;
    let mut n: u32 = 0;
    let mut k: u32 = 0;
    while k < 8
        invariant
            k <= 8,
            n <= k,
            r <= 255 * n,
            g <= 255 * n,
            b <= 255 * n,
            c.wf(),
            n == covered_sum(*c, col as int, row as int, k as int, one),
            r == covered_sum(*c, col as int, row as int, k as int, red),
            g == covered_sum(*c, col as int, row as int, k as int, green),
            b == covered_sum(*c, col as int, row as int, k as int, blue),
            forall|p: Rgb| #[trigger] one(p) == 1u8,
            forall|p: Rgb| #[trigger] red(p) == p.0,
            forall|p: Rgb| #[trigger] green(p) == p.1,
            forall|p: Rgb| #[trigger] blue(p) == p.2,
        decreases 8 - k,
    {
        let x: u32 = col as u32 * 2 + k % 2;
        let y: u32 = row as u32 * 4 + k / 2;
        if x < c.width && y < c.height {
            proof {
                lemma_pixel_in_range(x as int, y as int, c.width as int, c.height as int);
            }
            let len: usize = c.alpha.len();
            let i: usize = (y as u64 * c.width as u64 + x as u64) as usize;
            if c.alpha[i] != 0 {
                let p = c.color[i];
                r += p.0 as u32;
                g += p.1 as u32;
                b += p.2 as u32;
                n += 1;
            }
        }
        k += 1;
    }
    if n == 0 {
        None
    } else {
        proof {
            lemma_mean_is_a_byte(r as int, n as int);
            lemma_mean_is_a_byte(g as int, n as int);
            lemma_mean_is_a_byte(b as int, n as int);
        }
        Some(Rgb((r / n) as u8, (g / n) as u8, (b / n) as u8))
    }
}

proof fn lemma_mean_is_a_byte(sum: int, n: int)
    requires
        0 < n,
        0 <= sum <= 255 * n,
    ensures
        0 <= sum / n <= 255,
{
    assert(0 <= sum / n <= 255) by (nonlinear_arith)
        requires
            0 < n,
            0 <= sum <= 255 * n,
    ;
}

/// The pixels of the cell in column `col` and row `row`, the upper one and the lower.
pub fn half_blocks(c: &Canvas, col: u16, row: u16) -> (r: (Rgb, Rgb))
    requires
        c.wf(),
    ensures
        r.0 == c.pixel(col as int, row * 2),
        r.1 == c.pixel(col as int, row * 2 + 1),
{
    (px(c, col as u32, row as u32 * 2), px(c, col as u32, row as u32 * 2 + 1))
}

/// The colour between two.
pub fn between(a: Rgb, b: Rgb) -> (m: Rgb)
    ensures
        m.0 == (a.0 + b.0) / 2,
        m.1 == (a.1 + b.1) / 2,
        m.2 == (a.2 + b.2) / 2,
{
    Rgb(
        ((a.0 as u16 + b.0 as u16) / 2) as u8,
        ((a.1 as u16 + b.1 as u16) / 2) as u8,
        ((a.2 as u16 + b.2 as u16) / 2) as u8,
    )
}

/// The letters from dark to light.
pub open spec fn shades() -> Seq<char> {
    seq![' ', '.', ':', '-', '=', '+', '*', '#', '%', '@']
}

/// The letter for a level of light; all levels from 9 on look alike.
pub fn shade_letter(level: usize) -> (c: char)
    ensures
        c == shades()[if level < 10 {
            level as int
        } else {
            9
        }],
{
    match level {
        0 => ' ',
        1 => '.',
        2 => ':',
        3 => '-',
        4 => '=',
        5 => '+',
        6 => '*',
        7 => '#',
        8 => '%',
        _ => '@',
    }
}

/// The eight colours of the dice.
pub proof fn dice_have_eight_colours()
    ensures
        palette(0) == Rgb(60, 200, 210),
        palette(1) == Rgb(220, 200, 60),
        palette(2) == Rgb(70, 200, 90),
        palette(3) == Rgb(210, 90, 210),
        palette(4) == Rgb(220, 70, 70),
        palette(5) == Rgb(80, 130, 240),
        palette(6) == Rgb(130, 230, 130),
        palette(7) == Rgb(230, 130, 230),
{
}

/// Bits are scattered in two rounds: each folds the number onto itself and multiplies it,
/// and a last fold ends it.
pub proof fn bits_are_scattered_in_rounds(h: u32)
    ensures
        ({
            let a = (h ^ (h >> 16u32)).wrapping_mul(0x7feb_352du32);
            let b = (a ^ (a >> 15u32)).wrapping_mul(0x846c_a68bu32);
            mixed(h) == b ^ (b >> 16u32)
        }),
{
}

/// The pixels of a picture stand row by row; beyond its edges all is black.
pub proof fn pictures_stand_row_by_row(c: Canvas, x: int, y: int)
    requires
        0 <= x,
        0 <= y,
    ensures
        x < c.width && y < c.height ==> c.pixel(x, y) == c.color@[y * c.width + x],
        x >= c.width || y >= c.height ==> c.pixel(x, y) == Rgb(0, 0, 0),
        c.at(x, y) == y * c.width + x,
        c.wf() <==> c.color@.len() == c.width * c.height && c.alpha@.len() == c.width * c.height,
{
}

/// A square is summed pixel by pixel, row by row, each channel by itself.
pub proof fn squares_are_summed_by_pixel(c: Canvas, ss: int, x: int, y: int, n: int)
    requires
        n >= 0,
    ensures
        ({
            let i = (y + n / ss) * c.width + (x + n % ss);
            &&& block_sum(c, ss, x, y, 0, n + 1) == block_sum(c, ss, x, y, 0, n) + c.color@[i].0
            &&& block_sum(c, ss, x, y, 1, n + 1) == block_sum(c, ss, x, y, 1, n) + c.color@[i].1
            &&& block_sum(c, ss, x, y, 2, n + 1) == block_sum(c, ss, x, y, 2, n) + c.color@[i].2
            &&& block_sum(c, ss, x, y, 3, n + 1) == block_sum(c, ss, x, y, 3, n) + c.alpha@[i]
        }),
        block_sum(c, ss, x, y, 0, 0) == 0,
        block_sum(c, ss, x, y, 1, 0) == 0,
        block_sum(c, ss, x, y, 2, 0) == 0,
        block_sum(c, ss, x, y, 3, 0) == 0,
{
}

/// The mean of a square is its sum shared out over its pixels, rounded down.
pub proof fn means_share_out_the_sum(c: Canvas, ss: int, x: int, y: int, channel: int)
    requires
        ss >= 1,
    ensures
        ({
            let n = ss * ss;
            let mean = block_mean(c, ss, x, y, channel);
            mean * n <= block_sum(c, ss, x * ss, y * ss, channel, n) < (mean + 1) * n
        }),
        mean_color(c, ss, x, y).0 == block_mean(c, ss, x, y, 0) as u8,
        mean_color(c, ss, x, y).1 == block_mean(c, ss, x, y, 1) as u8,
        mean_color(c, ss, x, y).2 == block_mean(c, ss, x, y, 2) as u8,
{
    let n = ss * ss;
    let sum = block_sum(c, ss, x * ss, y * ss, channel, n);
    let mean = block_mean(c, ss, x, y, channel);
    assert(n >= 1) by (nonlinear_arith)
        requires
            n == ss * ss,
            ss >= 1,
    ;
    vstd::arithmetic::div_mod::lemma_fundamental_div_mod(sum, n);
    assert(mean * n == n * mean) by (nonlinear_arith);
    assert((mean + 1) * n == n * mean + n) by (nonlinear_arith);
}

/// The dots of a braille cell count by the bits that Unicode gives them: down the left
/// column, down the right one, and then the lowest two.
pub proof fn dots_have_their_bits()
    ensures
        dot(0, 0) == 0x01,
        dot(0, 1) == 0x02,
        dot(0, 2) == 0x04,
        dot(1, 0) == 0x08,
        dot(1, 1) == 0x10,
        dot(1, 2) == 0x20,
        dot(0, 3) == 0x40,
        dot(1, 3) == 0x80,
{
}

/// Whether the dot in column `dx` and row `dy` of a cell is covered.
pub open spec fn dot_covered(c: Canvas, col: int, row: int, dx: int, dy: int) -> bool {
    let x = col * 2 + dx;
    let y = row * 4 + dy;
    x < c.width && y < c.height && c.alpha@[y * c.width + x] != 0
}

/// A dot of a cell is set where it is covered, and only there.
pub proof fn covered_dots_are_set(c: Canvas, col: int, row: int, dx: int, dy: int)
    requires
        0 <= dx <= 1,
        0 <= dy <= 3,
    ensures
        dots(c, col, row, 8) & dot(dx, dy) != 0 <==> dot_covered(c, col, row, dx, dy),
{
    reveal_with_fuel(dots, 9);
    let b0 = dot_covered(c, col, row, 0, 0);
    let b1 = dot_covered(c, col, row, 1, 0);
    let b2 = dot_covered(c, col, row, 0, 1);
    let b3 = dot_covered(c, col, row, 1, 1);
    let b4 = dot_covered(c, col, row, 0, 2);
    let b5 = dot_covered(c, col, row, 1, 2);
    let b6 = dot_covered(c, col, row, 0, 3);
    let b7 = dot_covered(c, col, row, 1, 3);
    let s1: u8 = if b0 {
        0u8 | 0x01
    } else {
        0
    };
    let s2: u8 = if b1 {
        s1 | 0x08
    } else {
        s1
    };
    let s3: u8 = if b2 {
        s2 | 0x02
    } else {
        s2
    };
    let s4: u8 = if b3 {
        s3 | 0x10
    } else {
        s3
    };
    let s5: u8 = if b4 {
        s4 | 0x04
    } else {
        s4
    };
    let s6: u8 = if b5 {
        s5 | 0x20
    } else {
        s5
    };
    let s7: u8 = if b6 {
        s6 | 0x40
    } else {
        s6
    };
    let s8: u8 = if b7 {
        s7 | 0x80
    } else {
        s7
    };
    assert(dots(c, col, row, 8) == s8);
    assert((s8 & 0x01 != 0) == b0 && (s8 & 0x08 != 0) == b1 && (s8 & 0x02 != 0) == b2 && (s8 & 0x10
        != 0) == b3 && (s8 & 0x04 != 0) == b4 && (s8 & 0x20 != 0) == b5 && (s8 & 0x40 != 0) == b6
        && (s8 & 0x80 != 0) == b7) by (bit_vector)
        requires
            s1 == (if b0 {
                0u8 | 0x01
            } else {
                0
            }),
            s2 == (if b1 {
                s1 | 0x08
            } else {
                s1
            }),
            s3 == (if b2 {
                s2 | 0x02
            } else {
                s2
            }),
            s4 == (if b3 {
                s3 | 0x10
            } else {
                s3
            }),
            s5 == (if b4 {
                s4 | 0x04
            } else {
                s4
            }),
            s6 == (if b5 {
                s5 | 0x20
            } else {
                s5
            }),
            s7 == (if b6 {
                s6 | 0x40
            } else {
                s6
            }),
            s8 == (if b7 {
                s7 | 0x80
            } else {
                s7
            }),
    ;
}

/// The covered dots of a cell are summed one by one, and their mean colour is the sum
/// shared out over them; a cell without any has no colour.
pub proof fn covered_dots_give_the_colour(
    c: Canvas,
    col: int,
    row: int,
    n: int,
    channel: spec_fn(Rgb) -> u8,
)
    requires
        n >= 0,
    ensures
        covered_sum(c, col, row, 0, channel) == 0,
        covered_sum(c, col, row, n + 1, channel) == covered_sum(c, col, row, n, channel)
            + if dot_covered(c, col, row, n % 2, n / 2) {
            channel(c.color@[(row * 4 + n / 2) * c.width + (col * 2 + n % 2)]) as int
        } else {
            0
        },
        covered_count(c, col, row, n + 1) == covered_count(c, col, row, n) + if dot_covered(
            c,
            col,
            row,
            n % 2,
            n / 2,
        ) {
            1int
        } else {
            0
        },
        covered_mean(c, col, row) is None <==> covered_count(c, col, row, 8) == 0,
        covered_mean(c, col, row) matches Some(p) ==> {
            let m = covered_count(c, col, row, 8);
            &&& p.0 == (covered_sum(c, col, row, 8, |q: Rgb| q.0) / m) as u8
            &&& p.1 == (covered_sum(c, col, row, 8, |q: Rgb| q.1) / m) as u8
            &&& p.2 == (covered_sum(c, col, row, 8, |q: Rgb| q.2) / m) as u8
        },
{
}

/// Ten letters go from dark to light.
pub proof fn letters_go_from_dark_to_light()
    ensures
        shades().len() == 10,
        shades()[0] == ' ' && shades()[1] == '.' && shades()[2] == ':' && shades()[3] == '-',
        shades()[4] == '=' && shades()[5] == '+' && shades()[6] == '*' && shades()[7] == '#',
        shades()[8] == '%' && shades()[9] == '@',
{
}

} // verus!
