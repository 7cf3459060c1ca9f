//! Numbers and dice drawn in cells.

use crate::text::{chars_of, dec, digit, is_digit, push_dec};
use vstd::prelude::*;

verus! {

/// The pixels of a digit, three to a row and five rows, the first in the highest of
/// fifteen bits.
pub open spec fn font(d: int) -> u16 {
    if d == 0 {
        0b111_101_101_101_111
    } else if d == 1 {
        0b010_110_010_010_111
    } else if d == 2 {
        0b111_001_111_100_111
    } else if d == 3 {
        0b111_001_111_001_111
    } else if d == 4 {
        0b101_101_111_001_001
    } else if d == 5 {
        0b111_100_111_001_111
    } else if d == 6 {
        0b111_100_111_101_111
    } else if d == 7 {
        0b111_001_010_010_010
    } else if d == 8 {
        0b111_101_111_101_111
    } else {
        0b111_101_111_001_111
    }
}

fn font_of(d: u32) -> (bits: u16)
    ensures
        bits == font(d as int),
{
    if d == 0 {
        0b111_101_101_101_111
    } else if d == 1 {
        0b010_110_010_010_111
    } else if d == 2 {
        0b111_001_111_100_111
    } else if d == 3 {
        0b111_001_111_001_111
    } else if d == 4 {
        0b101_101_111_001_001
    } else if d == 5 {
        0b111_100_111_001_111
    } else if d == 6 {
        0b111_100_111_101_111
    } else if d == 7 {
        0b111_001_010_010_010
    } else if d == 8 {
        0b111_101_111_101_111
    } else {
        0b111_101_111_001_111
    }
}

/// The width in cells of `n` digits at a scale: three columns each and one between.
pub open spec fn glyph_width(n: int, scale: int) -> int {
    (4 * n - 1) * scale
}

/// The height of a number in halves of a cell.
pub open spec fn glyph_subrows(scale: int) -> int {
    5 * scale
}

/// The height of a number in cells.
pub open spec fn glyph_height(scale: int) -> int {
    (5 * scale + 1) / 2
}

/// Whether a scale makes `n` digits fit into `w` by `h` cells.
pub open spec fn scale_fits(scale: int, w: int, h: int, n: int) -> bool {
    glyph_width(n, scale) <= w && glyph_height(scale) <= h
}

/// The largest scale up to 4 at which `n` digits fit into `w` by `h` cells, or 0 where
/// none does.
pub fn number_scale(w: u32, h: u32, n: u32) -> (scale: u32)
    ensures
        scale <= 4,
        scale > 0 ==> scale_fits(scale as int, w as int, h as int, n as int),
        forall|s: int| scale < s <= 4 ==> !scale_fits(s, w as int, h as int, n as int),
{
    let mut scale: u32 = 4;
    while scale > 0
        invariant
            scale <= 4,
            forall|s: int| scale < s <= 4 ==> !scale_fits(s, w as int, h as int, n as int),
        decreases scale,
    {
        assert(-4 <= (4 * n - 1) * scale <= 0x10_0000_0000) by (nonlinear_arith)
            requires
                0 <= n <= 0xffff_ffff,
                0 <= scale <= 4,
        ;
        let across: i64 = (4 * n as i64 - 1) * scale as i64;
        let down: u32 = (5 * scale + 1) / 2;
        if across <= w as i64 && down <= h {
            return scale;
        }
        scale -= 1;
    }
    0
}

/// The digits of a text, as numbers.
pub open spec fn digits_of(s: Seq<char>) -> Seq<int>
    decreases s.len(),
{
    if s.len() == 0 {
        Seq::empty()
    } else if is_digit(s.last()) {
        digits_of(s.drop_last()).push(s.last() as int - 48)
    } else {
        digits_of(s.drop_last())
    }
}

pub open spec fn values(v: Seq<u32>) -> Seq<int> {
    Seq::new(v.len(), |k: int| v[k] as int)
}

/// The digits of a text, as numbers.
pub fn read_digits(s: &str) -> (v: Vec<u32>)
    ensures
        values(v@) == digits_of(s@),
        forall|k: int| 0 <= k < v@.len() ==> #[trigger] v@[k] <= 9,
{
    let chars = chars_of(s);
    let mut v: Vec<u32> = Vec::new();
    let mut k: usize = 0;
    assert(chars@.take(0) == Seq::<char>::empty());
    assert(values(v@) == Seq::<int>::empty());
    while k < chars.len()
        invariant
            k <= chars@.len(),
            chars@ == s@,
            values(v@) == digits_of(s@.take(k as int)),
            forall|j: int| 0 <= j < v@.len() ==> #[trigger] v@[j] <= 9,
        decreases chars@.len() - k,
    {
        assert(s@.take(k + 1).drop_last() == s@.take(k as int));
        let c = chars[k];
        if digit(c) {
            let ghost before = values(v@);
            v.push(c as u32 - 48);
            assert(values(v@) == before.push(c as int - 48));
        }
        k += 1;
    }
    assert(s@.take(k as int) == s@);
    v
}

/// Whether the half cell in column `x` and half row `y` of a number is part of a
/// stroke.
pub open spec fn lit(digits: Seq<int>, scale: int, x: int, y: int) -> bool {
    let i = x / (4 * scale);
    let column = (x - i * (4 * scale)) / scale;
    let row = y / scale;
    &&& 0 <= x < glyph_width(digits.len() as int, scale)
    &&& 0 <= y < glyph_subrows(scale)
    &&& i < digits.len()
    &&& x - i * (4 * scale) < 3 * scale
    &&& (font(digits[i]) >> ((14 - (row * 3 + column)) as u16)) & 1 == 1
}

/// What a half cell of a number shows.
#[derive(Debug, Clone, Copy, PartialEq, Eq, Structural)]
pub enum Px {
    /// A part of a stroke.
    Ink,
    /// Beside a stroke.
    Outline,
    /// Neither.
    Clear,
}

/// Whether a half cell touches a stroke, at an edge or a corner.
pub open spec fn touches(digits: Seq<int>, scale: int, x: int, y: int) -> bool {
    exists|dx: int, dy: int|
        -1 <= dx <= 1 && -1 <= dy <= 1 && #[trigger] lit(digits, scale, x + dx, y + dy)
}

/// What the half cell in column `x` and half row `y` of a number shows.
pub open spec fn shown(digits: Seq<int>, scale: int, x: int, y: int) -> Px {
    if lit(digits, scale, x, y) {
        Px::Ink
    } else if touches(digits, scale, x, y) {
        Px::Outline
    } else {
        Px::Clear
    }
}

fn is_lit(digits: &Vec<u32>, scale: i32, x: i64, y: i64) -> (r: bool)
    requires
        1 <= scale,
        forall|k: int| 0 <= k < digits@.len() ==> #[trigger] digits@[k] <= 9,
    ensures
        r == lit(values(digits@), scale as int, x as int, y as int),
{
    let n: i128 = digits.len() as i128;
    let s: i128 = scale as i128;
    let ghost v = values(digits@);
    assert(-0x8000_0000 <= (4 * n - 1) * s <= 0x4_0000_0000_0000_0000 * 0x8000_0000)
        by (nonlinear_arith)
        requires
            0 <= n <= 0x1_0000_0000_0000_0000,
            1 <= s <= 0x7fff_ffff,
    ;
    let across: i128 = x as i128;
    if x < 0 || y < 0 || across >= (4 * n - 1) * s || y >= 5 * scale as i64 {
        return false;
    }
    let span: i64 = 4 * scale as i64;
    let i: i64 = x / span;
    proof {
        vstd::arithmetic::div_mod::lemma_fundamental_div_mod(x as int, span as int);
        assert(i * span == span * i) by (nonlinear_arith);
        assert(0 <= x - i * span < span);
        assert(0 <= i <= x) by (nonlinear_arith)
            requires
                i == x / span,
                0 <= x,
                span >= 1,
        ;
    }
    let local: i64 = x - i * span;
    if i as i128 >= n || local >= 3 * scale as i64 {
        return false;
    }
    let column: i64 = local / scale as i64;
    let row: i64 = y / scale as i64;
    assert(0 <= column <= 2) by (nonlinear_arith)
        requires
            column == local / (scale as i64),
            0 <= local < 3 * scale,
            scale >= 1,
    ;
    assert(0 <= row <= 4) by (nonlinear_arith)
        requires
            row == y / (scale as i64),
            0 <= y < 5 * scale,
            scale >= 1,
    ;
    let at: u16 = (14 - (row * 3 + column)) as u16;
    assert(v[i as int] == digits@[i as int]);
    (font_of(digits[i as usize]) >> at) & 1 == 1
}

/// What the half cell in column `x` and half row `y` of a number shows.
pub fn number_px(digits: &Vec<u32>, scale: i32, x: i32, y: i32) -> (p: Px)
    requires
        1 <= scale,
        forall|k: int| 0 <= k < digits@.len() ==> #[trigger] digits@[k] <= 9,
    ensures
        p == shown(values(digits@), scale as int, x as int, y as int),
{
    wide_px(digits, scale, x as i64, y as i64)
}

fn wide_px(digits: &Vec<u32>, scale: i32, x: i64, y: i64) -> (p: Px)
    requires
        1 <= scale,
        -0x1_0000_0000 <= x <= 0x1_0000_0000,
        -0x1_0000_0000 <= y <= 0x1_0000_0000,
        forall|k: int| 0 <= k < digits@.len() ==> #[trigger] digits@[k] <= 9,
    ensures
        p == shown(values(digits@), scale as int, x as int, y as int),
{
    let ghost v = values(digits@);
    if is_lit(digits, scale, x, y) {
        return Px::Ink;
    }
    let mut dx: i64 = -1;
    while dx <= 1
        invariant
            -1 <= dx <= 2,
            1 <= scale,
            v == values(digits@),
            forall|k: int| 0 <= k < digits@.len() ==> #[trigger] digits@[k] <= 9,
            -0x1_0000_0000 <= x <= 0x1_0000_0000,
            -0x1_0000_0000 <= y <= 0x1_0000_0000,
            !lit(v, scale as int, x as int, y as int),
            forall|a: int, b: int|
                -1 <= a < dx && -1 <= b <= 1 ==> !#[trigger] lit(v, scale as int, x + a, y + b),
        decreases 2 - dx,
    {
        let mut dy: i64 = -1;
        while dy <= 1
            invariant
                -1 <= dy <= 2,
                -1 <= dx <= 1,
                1 <= scale,
                v == values(digits@),
                forall|k: int| 0 <= k < digits@.len() ==> #[trigger] digits@[k] <= 9,
                -0x1_0000_0000 <= x <= 0x1_0000_0000,
                -0x1_0000_0000 <= y <= 0x1_0000_0000,
                !lit(v, scale as int, x as int, y as int),
                forall|b: int|
                    -1 <= b < dy ==> !#[trigger] lit(v, scale as int, x + dx, y + b),
            decreases 2 - dy,
        {
            if is_lit(digits, scale, x + dx, y + dy) {
                assert(lit(v, scale as int, x + dx, y + dy));
                return Px::Outline;
            }
            dy += 1;
        }
        dx += 1;
    }
    Px::Clear
}

/// A cell of a number: where it lies from the number's corner, and what its upper and
/// lower half show.
#[derive(Debug, Clone, Copy, PartialEq, Eq, Structural)]
pub struct GlyphCell {
    pub col: i32,
    pub row: i32,
    pub upper: Px,
    pub lower: Px,
}

/// The cell in column `col` and row `row` of a number.
pub open spec fn cell_at(digits: Seq<int>, scale: int, col: int, row: int) -> GlyphCell {
    GlyphCell {
        col: col as i32,
        row: row as i32,
        upper: shown(digits, scale, col, 2 * row),
        lower: shown(digits, scale, col, 2 * row + 1),
    }
}

/// The cells of one row that show something, up to column `upto`.
pub open spec fn row_cells(digits: Seq<int>, scale: int, row: int, upto: int) -> Seq<GlyphCell>
    decreases upto + 1,
{
    if upto < 0 {
        Seq::empty()
    } else {
        let cell = cell_at(digits, scale, upto - 1, row);
        let before = row_cells(digits, scale, row, upto - 1);
        if cell.upper == Px::Clear && cell.lower == Px::Clear {
            before
        } else {
            before.push(cell)
        }
    }
}

/// The cells of all rows before `upto` that show something.
pub open spec fn number_cells(digits: Seq<int>, scale: int, upto: int) -> Seq<GlyphCell>
    decreases upto + 1,
{
    if upto < 0 {
        Seq::empty()
    } else {
        number_cells(digits, scale, upto - 1) + row_cells(
            digits,
            scale,
            upto - 1,
            glyph_width(digits.len() as int, scale) + 1,
        )
    }
}

/// The cells of a number that show something, row by row, out to one cell around it.
pub fn big_number(label: &str, scale: i32) -> (cells: Vec<GlyphCell>)
    requires
        1 <= scale,
        glyph_width(digits_of(label@).len() as int, scale as int) <= i32::MAX,
        glyph_height(scale as int) <= i32::MAX,
    ensures
        cells@ == if digits_of(label@).len() == 0 {
            Seq::empty()
        } else {
            number_cells(digits_of(label@), scale as int, glyph_height(scale as int) + 1)
        },
{
    let digits = read_digits(label);
    let ghost v = digits_of(label@);
    assert(values(digits@).len() == digits@.len());
    let mut cells: Vec<GlyphCell> = Vec::new();
    if digits.is_empty() {
        return cells;
    }
    assert(digits@.len() <= 0x8000_0000 && 3 <= (4 * digits@.len() - 1) * scale)
        by (nonlinear_arith)
        requires
            1 <= digits@.len(),
            1 <= scale,
            (4 * digits@.len() - 1) * scale <= 0x7fff_ffff,
    ;
    let n: i64 = digits.len() as i64;
    let width: i64 = (4 * n - 1) * scale as i64;
    let height: i64 = (5 * scale as i64 + 1) / 2;
    let mut row: i64 = -1;
    assert(number_cells(v, scale as int, -1) == Seq::<GlyphCell>::empty());
    while row <= height
        invariant
            -1 <= row <= height + 1,
            1 <= scale,
            n == digits@.len(),
            v == values(digits@),
            v.len() == n,
            width == glyph_width(n as int, scale as int),
            3 <= width <= i32::MAX,
            height == glyph_height(scale as int),
            height <= i32::MAX,
            forall|k: int| 0 <= k < digits@.len() ==> #[trigger] digits@[k] <= 9,
            cells@ == number_cells(v, scale as int, row as int),
        decreases height + 1 - row,
    {
        let ghost done = cells@;
        let mut col: i64 = -1;
        assert(row_cells(v, scale as int, row as int, -1) == Seq::<GlyphCell>::empty());
        while col <= width
            invariant
                -1 <= col <= width + 1,
                -1 <= row <= height,
                1 <= scale,
                n == digits@.len(),
                v == values(digits@),
                width <= i32::MAX,
                height <= i32::MAX,
                forall|k: int| 0 <= k < digits@.len() ==> #[trigger] digits@[k] <= 9,
                cells@ == done + row_cells(v, scale as int, row as int, col as int),
            decreases width + 1 - col,
        {
            let upper = wide_px(&digits, scale, col, 2 * row);
            let lower = wide_px(&digits, scale, col, 2 * row + 1);
            let ghost before = row_cells(v, scale as int, row as int, col as int);
            if upper != Px::Clear || lower != Px::Clear {
                cells.push(GlyphCell { col: col as i32, row: row as i32, upper, lower });
                assert(cells@ == done + before.push(
                    cell_at(v, scale as int, col as int, row as int),
                ));
            }
            col += 1;
        }
        row += 1;
    }
    cells
}

/// `s` in the middle of `width` characters, the odd blank on its right.
pub open spec fn centred(s: Seq<char>, width: int) -> Seq<char> {
    if s.len() >= width {
        s
    } else {
        let left = (width - s.len()) / 2;
        Seq::new(left as nat, |k: int| ' ') + s + Seq::new(
            (width - s.len() - left) as nat,
            |k: int| ' ',
        )
    }
}

fn push_blanks(s: &mut String, n: usize)
    ensures
        final(s)@ == old(s)@ + Seq::new(n as nat, |k: int| ' '),
{
    let mut k: usize = 0;
    while k < n
        invariant
            k <= n,
            s@ == old(s)@ + Seq::new(k as nat, |j: int| ' '),
        decreases n - k,
    {
        s.push(' ');
        k += 1;
        assert(s@ == old(s)@ + Seq::new(k as nat, |j: int| ' '));
    }
    assert(s@ == old(s)@ + Seq::new(n as nat, |k: int| ' '));
}

fn centre(value: u32, width: usize) -> (r: String)
    ensures
        r@ == centred(dec(value as nat), width as int),
{
    let mut text = String::new();
    push_dec(&mut text, value as u64);
    assert(text@ == dec(value as nat));
    let n: usize = text.as_str().unicode_len();
    if n >= width {
        return text;
    }
    let left: usize = (width - n) / 2;
    let mut r = String::new();
    push_blanks(&mut r, left);
    r.append(text.as_str());
    push_blanks(&mut r, width - n - left);
    assert(r@ == centred(dec(value as nat), width as int));
    r
}

/// The outline of a die that shows `value`, line by line.
pub open spec fn outline(sides: u32, value: u32) -> Seq<Seq<char>> {
    let v = centred(dec(value as nat), 2);
    if sides == 4 {
        seq!["  ╱╲  "@, " ╱  ╲ "@, "╱ "@ + v + " ╲"@, "‾‾‾‾‾‾"@]
    } else if sides == 6 {
        seq!["┌────┐"@, "│    │"@, "│ "@ + v + " │"@, "└────┘"@]
    } else if sides == 8 {
        seq!["  ╱╲  "@, " ╱  ╲ "@, " ╲"@ + v + "╱ "@, "  ╲╱  "@]
    } else if sides == 10 {
        seq![" ╱‾‾╲ "@, "╱    ╲"@, "╲ "@ + v + " ╱"@, "  ╲╱  "@]
    } else if sides == 12 {
        seq!["  ╱╲  "@, " ╱  ╲ "@, "│ "@ + v + " │"@, "└────┘"@]
    } else if sides == 20 {
        seq![" ╱‾‾╲ "@, "│ "@ + v + " │"@, "│    │"@, " ╲__╱ "@]
    } else {
        seq!["┌────┐"@, "│    │"@, "│"@ + centred(dec(value as nat), 4) + "│"@, "└────┘"@]
    }
}

fn around(left: &str, middle: &String, right: &str) -> (s: String)
    ensures
        s@ == left@ + middle@ + right@,
{
    let mut s = left.to_owned();
    s.append(middle.as_str());
    s.append(right);
    s
}

fn four(a: String, b: String, c: String, d: String) -> (v: Vec<String>)
    ensures
        crate::text::texts(v@) == seq![a@, b@, c@, d@],
{
    let mut v: Vec<String> = Vec::new();
    v.push(a);
    v.push(b);
    v.push(c);
    v.push(d);
    assert(crate::text::texts(v@) == seq![a@, b@, c@, d@]);
    v
}

/// The outline of a die that shows `value`, line by line.
pub fn die_shape(sides: u32, value: u32) -> (v: Vec<String>)
    ensures
        crate::text::texts(v@) == outline(sides, value),
{
    let face = centre(value, 2);
    if sides == 4 {
        let middle = around("╱ ", &face, " ╲");
        four("  ╱╲  ".to_owned(), " ╱  ╲ ".to_owned(), middle, "‾‾‾‾‾‾".to_owned())
    } else if sides == 6 {
        let middle = around("│ ", &face, " │");
        four("┌────┐".to_owned(), "│    │".to_owned(), middle, "└────┘".to_owned())
    } else if sides == 8 {
        let middle = around(" ╲", &face, "╱ ");
        four("  ╱╲  ".to_owned(), " ╱  ╲ ".to_owned(), middle, "  ╲╱  ".to_owned())
    } else if sides == 10 {
        let middle = around("╲ ", &face, " ╱");
        four(" ╱‾‾╲ ".to_owned(), "╱    ╲".to_owned(), middle, "  ╲╱  ".to_owned())
    } else if sides == 12 {
        let middle = around("│ ", &face, " │");
        four("  ╱╲  ".to_owned(), " ╱  ╲ ".to_owned(), middle, "└────┘".to_owned())
    } else if sides == 20 {
        let middle = around("│ ", &face, " │");
        four(" ╱‾‾╲ ".to_owned(), middle, "│    │".to_owned(), " ╲__╱ ".to_owned())
    } else {
        let middle = around("│", &centre(value, 4), "│");
        four("┌────┐".to_owned(), "│    │".to_owned(), middle, "└────┘".to_owned())
    }
}

/// The ten digits, as they are drawn.
pub proof fn digits_have_their_strokes()
    ensures
        font(0) == 0x7b6f,
        font(1) == 0x2c97,
        font(2) == 0x73e7,
        font(3) == 0x73cf,
        font(4) == 0x5bc9,
        font(5) == 0x79cf,
        font(6) == 0x79ef,
        font(7) == 0x7292,
        font(8) == 0x7bef,
        font(9) == 0x7bcf,
{
}

/// A number takes three columns for each digit and one between each two, and five half
/// rows, all as often as its scale says; a half row too many takes a whole one.
pub proof fn numbers_take_room_by_their_digits(n: int, scale: int)
    requires
        scale >= 0,
    ensures
        glyph_width(1, scale) == 3 * scale,
        glyph_width(n + 1, scale) == glyph_width(n, scale) + 4 * scale,
        glyph_subrows(scale) == 5 * scale,
        2 * glyph_height(scale) == glyph_subrows(scale) || 2 * glyph_height(scale)
            == glyph_subrows(scale) + 1,
        forall|w: int, h: int| #[trigger]
            scale_fits(scale, w, h, n) <==> glyph_width(n, scale) <= w && glyph_height(scale) <= h,
{
    assert((4 * (n + 1) - 1) * scale == (4 * n - 1) * scale + 4 * scale) by (nonlinear_arith);
    assert((4 * 1 - 1) * scale == 3 * scale);
}

/// The digits of a text are read in order, and what is no digit is passed over.
pub proof fn digits_are_read_in_order(a: Seq<char>, b: Seq<char>, c: char, v: Seq<u32>, k: int)
    ensures
        digits_of(Seq::empty()) == Seq::<int>::empty(),
        '0' <= c <= '9' ==> digits_of(seq![c]) == seq![c as int - '0' as int],
        !('0' <= c <= '9') ==> digits_of(seq![c]) == Seq::<int>::empty(),
        digits_of(a + b) == digits_of(a) + digits_of(b),
        values(v).len() == v.len(),
        0 <= k < v.len() ==> values(v)[k] == v[k],
    decreases b.len(),
{
    assert(seq![c].drop_last() =~= Seq::<char>::empty());
    reveal_with_fuel(digits_of, 2);
    assert(is_digit(c) ==> digits_of(seq![c]) =~= seq![c as int - 48]);
    if b.len() == 0 {
        assert(a + b =~= a);
        assert(digits_of(a) + digits_of(b) =~= digits_of(a));
    } else {
        digits_are_read_in_order(a, b.drop_last(), c, v, k);
        assert((a + b).drop_last() =~= a + b.drop_last());
        assert(digits_of(a + b) =~= digits_of(a) + digits_of(b));
    }
}

proof fn lemma_part(q: int, d: int, r: int, whole: int)
    requires
        whole == q * d + r,
        0 <= r < d,
    ensures
        whole / d == q,
{
    vstd::arithmetic::div_mod::lemma_fundamental_div_mod_converse(whole, d, q, r);
}

/// A number is drawn digit by digit, each pixel of it as a square: the square in column `c`
/// and row `r` of the digit number `i` is lit where that pixel is, and the column between
/// two digits never is.
pub proof fn pixels_are_drawn_as_squares(
    digits: Seq<int>,
    scale: int,
    i: int,
    c: int,
    r: int,
    dx: int,
    dy: int,
)
    requires
        1 <= scale,
        0 <= i < digits.len(),
        0 <= c <= 3,
        0 <= r <= 4,
        0 <= dx < scale,
        0 <= dy < scale,
    ensures
        ({
            let x = (4 * i + c) * scale + dx;
            let y = r * scale + dy;
            &&& c < 3 ==> (lit(digits, scale, x, y) <==> (font(digits[i]) >> ((14 - (r * 3
                + c)) as u16)) & 1 == 1)
            &&& c == 3 ==> !lit(digits, scale, x, y)
        }),
{
    let span = 4 * scale;
    let local = c * scale + dx;
    let x = (4 * i + c) * scale + dx;
    let y = r * scale + dy;
    let n = digits.len() as int;
    assert(x == i * span + local) by (nonlinear_arith)
        requires
            x == (4 * i + c) * scale + dx,
            span == 4 * scale,
            local == c * scale + dx,
    ;
    assert(0 <= local < span && (c < 3 ==> local < 3 * scale) && (c == 3 ==> local >= 3 * scale))
        by (nonlinear_arith)
        requires
            local == c * scale + dx,
            0 <= c <= 3,
            0 <= dx < scale,
            span == 4 * scale,
    ;
    assert(0 <= y < 5 * scale) by (nonlinear_arith)
        requires
            y == r * scale + dy,
            0 <= r <= 4,
            0 <= dy < scale,
    ;
    lemma_part(i, span, local, x);
    lemma_part(c, scale, dx, local);
    lemma_part(r, scale, dy, y);
    assert(0 <= x && (c < 3 ==> x < (4 * n - 1) * scale)) by (nonlinear_arith)
        requires
            x == i * span + local,
            0 <= i < n,
            span == 4 * scale,
            0 <= local,
            c < 3 ==> local < 3 * scale,
            scale >= 1,
    ;
}

/// Nothing is lit outside of a number.
pub proof fn nothing_is_lit_outside(digits: Seq<int>, scale: int, x: int, y: int)
    requires
        x < 0 || y < 0 || x >= glyph_width(digits.len() as int, scale) || y >= glyph_subrows(scale),
    ensures
        !lit(digits, scale, x, y),
{
}

/// What is lit is drawn in ink. What is not but lies next to something lit, at an edge or a
/// corner, is drawn as outline, and all else is clear.
pub proof fn strokes_have_an_outline(
    digits: Seq<int>,
    scale: int,
    x: int,
    y: int,
    dx: int,
    dy: int,
)
    requires
        -1 <= dx <= 1,
        -1 <= dy <= 1,
    ensures
        shown(digits, scale, x, y) is Ink <==> lit(digits, scale, x, y),
        lit(digits, scale, x, y) ==> !(shown(digits, scale, x + dx, y + dy) is Clear),
        shown(digits, scale, x, y) is Outline ==> exists|a: int, b: int|
            -1 <= a <= 1 && -1 <= b <= 1 && #[trigger] lit(digits, scale, x + a, y + b),
        shown(digits, scale, x, y) is Clear ==> !lit(digits, scale, x + dx, y + dy),
{
    if lit(digits, scale, x, y) {
        assert(lit(digits, scale, (x + dx) + (-dx), (y + dy) + (-dy)));
    }
}

/// A cell holds two half rows, one above the other. The cells of a number that show
/// something are listed row by row and from left to right, from one row above it and one
/// column before it on.
pub proof fn cells_are_listed_row_by_row(digits: Seq<int>, scale: int, row: int, col: int)
    requires
        -1 <= col <= i32::MAX,
        -1 <= row <= i32::MAX,
    ensures
        ({
            let cell = cell_at(digits, scale, col, row);
            &&& cell.col == col
            &&& cell.row == row
            &&& cell.upper == shown(digits, scale, col, 2 * row)
            &&& cell.lower == shown(digits, scale, col, 2 * row + 1)
            &&& cell.upper is Clear && cell.lower is Clear ==> row_cells(
                digits,
                scale,
                row,
                col + 1,
            ) == row_cells(digits, scale, row, col)
            &&& !(cell.upper is Clear && cell.lower is Clear) ==> row_cells(
                digits,
                scale,
                row,
                col + 1,
            ) == row_cells(digits, scale, row, col).push(cell)
            &&& number_cells(digits, scale, row + 1) == number_cells(digits, scale, row)
                + row_cells(digits, scale, row, glyph_width(digits.len() as int, scale) + 1)
        }),
        row_cells(digits, scale, row, -1).len() == 0,
        number_cells(digits, scale, -1).len() == 0,
{
}

/// A text in the middle of its column has as many blanks before it as behind it, or one
/// more behind; one that fills its column stays as it is.
pub proof fn texts_are_centred(s: Seq<char>, width: int, k: int)
    requires
        0 <= k < centred(s, width).len(),
    ensures
        s.len() >= width ==> centred(s, width) == s,
        s.len() < width ==> {
            let left = (width - s.len()) / 2;
            &&& centred(s, width).len() == width
            &&& k < left || k >= left + s.len() ==> centred(s, width)[k] == ' '
            &&& left <= k < left + s.len() ==> centred(s, width)[k] == s[k - left]
        },
{
}

/// A die is drawn in four lines, its face in the second of a d20 and in the third of any
/// other; each of the usual dice has its own shape, and any other has that of a d6.
pub proof fn dice_have_their_shapes(sides: u32, value: u32)
    ensures
        outline(sides, value).len() == 4,
        ({
            let v = centred(dec(value as nat), 2);
            &&& outline(4, value)[0] == "  ╱╲  "@ && outline(4, value)[1] == " ╱  ╲ "@
            &&& outline(4, value)[2] == "╱ "@ + v + " ╲"@ && outline(4, value)[3] == "‾‾‾‾‾‾"@
            &&& outline(6, value)[0] == "┌────┐"@ && outline(6, value)[1] == "│    │"@
            &&& outline(6, value)[2] == "│ "@ + v + " │"@ && outline(6, value)[3] == "└────┘"@
            &&& outline(8, value)[0] == "  ╱╲  "@ && outline(8, value)[1] == " ╱  ╲ "@
            &&& outline(8, value)[2] == " ╲"@ + v + "╱ "@ && outline(8, value)[3] == "  ╲╱  "@
            &&& outline(10, value)[0] == " ╱‾‾╲ "@ && outline(10, value)[1] == "╱    ╲"@
            &&& outline(10, value)[2] == "╲ "@ + v + " ╱"@ && outline(10, value)[3] == "  ╲╱  "@
            &&& outline(12, value)[0] == "  ╱╲  "@ && outline(12, value)[1] == " ╱  ╲ "@
            &&& outline(12, value)[2] == "│ "@ + v + " │"@ && outline(12, value)[3] == "└────┘"@
            &&& outline(20, value)[0] == " ╱‾‾╲ "@ && outline(20, value)[1] == "│ "@ + v + " │"@
            &&& outline(20, value)[2] == "│    │"@ && outline(20, value)[3] == " ╲__╱ "@
        }),
        sides != 4 && sides != 6 && sides != 8 && sides != 10 && sides != 12 && sides != 20 ==> {
            &&& outline(sides, value)[0] == outline(6, value)[0]
            &&& outline(sides, value)[1] == outline(6, value)[1]
            &&& outline(sides, value)[2] == "│"@ + centred(dec(value as nat), 4) + "│"@
            &&& outline(sides, value)[3] == outline(6, value)[3]
        },
{
}

} // verus!
