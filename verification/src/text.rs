//! Text: the characters, numbers and layouts that the rest of the library reads
//! and writes.

use vstd::prelude::*;

verus! {

/// `String::push` appends the character at the end.
pub assume_specification[ String::push ](s: &mut String, c: char)
    ensures
        final(s)@ == old(s)@.push(c),
;

/// The characters with the Unicode property `White_Space`.
pub open spec fn is_space(c: char) -> bool {
    ||| '\u{9}' <= c <= '\u{d}'
    ||| c == ' '
    ||| c == '\u{85}'
    ||| c == '\u{a0}'
    ||| c == '\u{1680}'
    ||| '\u{2000}' <= c <= '\u{200a}'
    ||| c == '\u{2028}'
    ||| c == '\u{2029}'
    ||| c == '\u{202f}'
    ||| c == '\u{205f}'
    ||| c == '\u{3000}'
}

pub fn space(c: char) -> (r: bool)
    ensures
        r == is_space(c),
{
    ('\u{9}' <= c && c <= '\u{d}') || c == ' ' || c == '\u{85}' || c == '\u{a0}' || c == '\u{1680}'
        || ('\u{2000}' <= c && c <= '\u{200a}') || c == '\u{2028}' || c == '\u{2029}' || c
        == '\u{202f}' || c == '\u{205f}' || c == '\u{3000}'
}

pub open spec fn is_digit(c: char) -> bool {
    '0' <= c <= '9'
}

pub fn digit(c: char) -> (r: bool)
    ensures
        r == is_digit(c),
{
    '0' <= c && c <= '9'
}

/// The lower-case form of an ASCII letter; any other character stands for itself.
pub open spec fn lower(c: char) -> char {
    if 'A' <= c <= 'Z' {
        (c as u32 + 32) as char
    } else {
        c
    }
}

/// Whether `c` is the ASCII letter `letter` (given in lower case) in either case.
pub fn is_letter(c: char, letter: char) -> (r: bool)
    requires
        'a' <= letter <= 'z',
    ensures
        r == (lower(c) == letter),
{
    if 'A' <= c && c <= 'Z' {
        c as u32 + 32 == letter as u32
    } else {
        c == letter
    }
}

/// The characters of `s`, in order.
pub fn chars_of(s: &str) -> (v: Vec<char>)
    ensures
        v@ == s@,
{
    let mut v: Vec<char> = Vec::new();
    for c in it: s.chars()
        invariant
            it.seq() == s@,
            v@ == s@.subrange(0, it.index()),
    {
        v.push(c);
        assert(s@.subrange(0, it.index() + 1) == s@.subrange(0, it.index()).push(s@[it.index()]));
    }
    assert(s@.subrange(0, s@.len() as int) == s@);
    v
}

/// The text made of `chars[from..to]`.
pub fn text_of(chars: &Vec<char>, from: usize, to: usize) -> (s: String)
    requires
        from <= to <= chars@.len(),
    ensures
        s@ == chars@.subrange(from as int, to as int),
{
    let mut s = String::new();
    let mut k: usize = from;
    while k < to
        invariant
            from <= k <= to <= chars@.len(),
            s@ == chars@.subrange(from as int, k as int),
        decreases to - k,
    {
        s.push(chars[k]);
        k += 1;
        assert(chars@.subrange(from as int, k as int) == chars@.subrange(
            from as int,
            k - 1,
        ).push(chars@[k - 1]));
    }
    s
}

/// The first position at or after `i` that holds no white space.
pub open spec fn skip_space(s: Seq<char>, i: int) -> int
    decreases s.len() - i,
{
    if 0 <= i < s.len() && is_space(s[i]) {
        skip_space(s, i + 1)
    } else {
        i
    }
}

/// The position just past the last character before `j` that is no white space.
pub open spec fn back_space(s: Seq<char>, j: int) -> int
    decreases j,
{
    if 0 < j <= s.len() && is_space(s[j - 1]) {
        back_space(s, j - 1)
    } else {
        j
    }
}

/// `s` without the white space at its two ends.
pub open spec fn trimmed(s: Seq<char>) -> Seq<char> {
    let from = skip_space(s, 0);
    let to = back_space(s, s.len() as int);
    if from < to {
        s.subrange(from, to)
    } else {
        Seq::empty()
    }
}

/// The first position at or after `i` that holds no white space.
pub fn skip_spaces(chars: &Vec<char>, i: usize) -> (k: usize)
    requires
        i <= chars@.len(),
    ensures
        k == skip_space(chars@, i as int),
        i <= k <= chars@.len(),
{
    let mut k: usize = i;
    while k < chars.len() && space(chars[k])
        invariant
            i <= k <= chars@.len(),
            skip_space(chars@, k as int) == skip_space(chars@, i as int),
        decreases chars@.len() - k,
    {
        k += 1;
    }
    k
}

/// `s` without the white space at its two ends.
pub fn trim(s: &str) -> (r: String)
    ensures
        r@ == trimmed(s@),
{
    let chars = chars_of(s);
    let from: usize = skip_spaces(&chars, 0);
    let mut to: usize = chars.len();
    while 0 < to && space(chars[to - 1])
        invariant
            to <= chars@.len(),
            back_space(chars@, to as int) == back_space(chars@, chars@.len() as int),
        decreases to,
    {
        to -= 1;
    }
    if from < to {
        text_of(&chars, from, to)
    } else {
        String::new()
    }
}

pub open spec fn digit_char(d: nat) -> char {
    (48 + d) as char
}

/// `n` in decimal, without leading zeros.
pub open spec fn dec(n: nat) -> Seq<char>
    decreases n,
{
    if n < 10 {
        seq![digit_char(n)]
    } else {
        dec(n / 10).push(digit_char(n % 10))
    }
}

/// `i` in decimal, with a minus sign where it is negative.
pub open spec fn dec_int(i: int) -> Seq<char> {
    if i < 0 {
        seq!['-'] + dec((-i) as nat)
    } else {
        dec(i as nat)
    }
}

/// Appends `n` in decimal.
pub fn push_dec(s: &mut String, n: u64)
    ensures
        final(s)@ == old(s)@ + dec(n as nat),
    decreases n,
{
    if n >= 10 {
        push_dec(s, n / 10);
    }
    let d: u8 = 48 + (n % 10) as u8;
    s.push(d as char);
    assert(s@ == old(s)@ + dec(n as nat));
}

/// Appends `i` in decimal.
pub fn push_int(s: &mut String, i: i32)
    ensures
        final(s)@ == old(s)@ + dec_int(i as int),
{
    if i < 0 {
        s.push('-');
        push_dec(s, (-(i as i64)) as u64);
        assert(s@ == old(s)@ + dec_int(i as int));
    } else {
        push_dec(s, i as u64);
    }
}

pub open spec fn digit_value(c: char) -> nat {
    (c as u32 - 48) as nat
}

/// What a run of decimal digits denotes.
pub open spec fn number(s: Seq<char>) -> nat
    decreases s.len(),
{
    if s.len() == 0 {
        0
    } else {
        number(s.drop_last()) * 10 + digit_value(s.last())
    }
}

/// The end of the run of digits that starts at `i`.
pub open spec fn digits_end(s: Seq<char>, i: int) -> int
    decreases s.len() - i,
{
    if 0 <= i < s.len() && is_digit(s[i]) {
        digits_end(s, i + 1)
    } else {
        i
    }
}

pub proof fn lemma_digits_end(s: Seq<char>, i: int)
    requires
        0 <= i <= s.len(),
    ensures
        i <= digits_end(s, i) <= s.len(),
        forall|k: int| i <= k < digits_end(s, i) ==> is_digit(#[trigger] s[k]),
        digits_end(s, i) < s.len() ==> !is_digit(s[digits_end(s, i)]),
    decreases s.len() - i,
{
    if i < s.len() && is_digit(s[i]) {
        lemma_digits_end(s, i + 1);
    }
}

/// A run of digits that ends where `end` says ends there from each of its positions.
pub proof fn lemma_digits_end_is(s: Seq<char>, i: int, end: int)
    requires
        0 <= i <= end <= s.len(),
        forall|k: int| i <= k < end ==> is_digit(#[trigger] s[k]),
        end < s.len() ==> !is_digit(s[end]),
    ensures
        digits_end(s, i) == end,
    decreases end - i,
{
    if i < end {
        lemma_digits_end_is(s, i + 1, end);
    }
}

pub proof fn lemma_number_grows(s: Seq<char>, k: int)
    requires
        0 <= k <= s.len(),
    ensures
        number(s.take(k)) <= number(s),
    decreases s.len() - k,
{
    if k < s.len() {
        lemma_number_grows(s, k + 1);
        assert(s.take(k + 1).drop_last() == s.take(k));
    } else {
        assert(s.take(k) == s);
    }
}

/// A number written in decimal reads back as itself.
pub proof fn lemma_dec_reads_back(n: nat)
    ensures
        number(dec(n)) == n,
        dec(n).len() > 0,
        forall|k: int| 0 <= k < dec(n).len() ==> is_digit(#[trigger] dec(n)[k]),
    decreases n,
{
    if n >= 10 {
        lemma_dec_reads_back(n / 10);
        assert(dec(n).drop_last() == dec(n / 10));
    } else {
        assert(dec(n).drop_last() == Seq::<char>::empty());
        assert(number(Seq::<char>::empty()) == 0);
    }
}

/// The end of the run of digits that starts at `i`.
pub fn skip_digits(chars: &Vec<char>, i: usize) -> (k: usize)
    requires
        i <= chars@.len(),
    ensures
        k == digits_end(chars@, i as int),
        i <= k <= chars@.len(),
        forall|j: int| i <= j < k ==> is_digit(#[trigger] chars@[j]),
{
    let mut k: usize = i;
    while k < chars.len() && digit(chars[k])
        invariant
            i <= k <= chars@.len(),
            digits_end(chars@, k as int) == digits_end(chars@, i as int),
            forall|j: int| i <= j < k ==> is_digit(#[trigger] chars@[j]),
        decreases chars@.len() - k,
    {
        k += 1;
    }
    k
}

/// The number that the digits `chars[from..to]` denote, where a `u32` holds it.
pub fn read_u32(chars: &Vec<char>, from: usize, to: usize) -> (r: Option<u32>)
    requires
        from <= to <= chars@.len(),
        forall|j: int| from <= j < to ==> is_digit(#[trigger] chars@[j]),
    ensures
        match r {
            Some(v) => v == number(chars@.subrange(from as int, to as int)),
            None => number(chars@.subrange(from as int, to as int)) > u32::MAX,
        },
{
    let ghost run = chars@.subrange(from as int, to as int);
    let mut v: u64 = 0;
    let mut k: usize = from;
    while k < to
        invariant
            from <= k <= to <= chars@.len(),
            run == chars@.subrange(from as int, to as int),
            forall|j: int| from <= j < to ==> is_digit(#[trigger] chars@[j]),
            v == number(run.take(k - from)),
            v <= u32::MAX,
        decreases to - k,
    {
        proof {
            assert(is_digit(chars@[k as int]));
            assert(run.take(k + 1 - from).drop_last() == run.take(k - from));
            lemma_number_grows(run, k + 1 - from);
        }
        v = v * 10 + (chars[k] as u32 - 48) as u64;
        if v > u32::MAX as u64 {
            return None;
        }
        k += 1;
    }
    assert(run.take(to - from) == run);
    Some(v as u32)
}

/// `s`, filled up with blanks on its right to `width` characters.
pub open spec fn padded(s: Seq<char>, width: nat) -> Seq<char> {
    s + Seq::new(
        if s.len() < width {
            (width - s.len()) as nat
        } else {
            0
        },
        |k: int| ' ',
    )
}

/// Appends `s`, filled up with blanks on its right to `width` characters.
pub fn push_padded(out: &mut String, s: &str, width: usize)
    ensures
        final(out)@ == old(out)@ + padded(s@, width as nat),
{
    out.append(s);
    let mut k: usize = s.unicode_len();
    while k < width
        invariant
            s@.len() <= k,
            k <= width || k == s@.len(),
            out@ == old(out)@ + s@ + Seq::new((k - s@.len()) as nat, |j: int| ' '),
        decreases width - k,
    {
        out.push(' ');
        k += 1;
        assert(out@ == old(out)@ + s@ + Seq::new((k - s@.len()) as nat, |j: int| ' '));
    }
    assert(out@ == old(out)@ + padded(s@, width as nat));
}

/// `parts` in order, with `sep` between each two.
pub open spec fn joined(parts: Seq<Seq<char>>, sep: Seq<char>) -> Seq<char>
    decreases parts.len(),
{
    if parts.len() == 0 {
        Seq::empty()
    } else if parts.len() == 1 {
        parts[0]
    } else {
        joined(parts.drop_last(), sep) + sep + parts.last()
    }
}

/// Appends the characters of `from` to `s` in lower case, letter by ASCII letter.
pub fn push_lower(s: &mut String, from: &str)
    ensures
        final(s)@ == old(s)@ + lowered(from@),
{
    let chars = chars_of(from);
    let mut k: usize = 0;
    while k < chars.len()
        invariant
            k <= chars@.len(),
            chars@ == from@,
            s@ == old(s)@ + lowered(from@).take(k as int),
        decreases chars@.len() - k,
    {
        let c = chars[k];
        if 'A' <= c && c <= 'Z' {
            s.push((c as u8 + 32) as char);
        } else {
            s.push(c);
        }
        k += 1;
        assert(s@ == old(s)@ + lowered(from@).take(k as int));
    }
    assert(lowered(from@).take(k as int) == lowered(from@));
}

/// `s` in lower case, letter by ASCII letter.
pub open spec fn lowered(s: Seq<char>) -> Seq<char> {
    Seq::new(s.len(), |k: int| lower(s[k]))
}

/// The views of `parts`, in order.
pub open spec fn texts(parts: Seq<String>) -> Seq<Seq<char>> {
    Seq::new(parts.len(), |k: int| parts[k]@)
}

/// `parts` in order, with `sep` between each two.
pub fn join(parts: &Vec<String>, sep: &str) -> (s: String)
    ensures
        s@ == joined(texts(parts@), sep@),
{
    let ghost all = texts(parts@);
    let mut s = String::new();
    let mut k: usize = 0;
    assert(all.take(0) == Seq::<Seq<char>>::empty());
    while k < parts.len()
        invariant
            k <= parts@.len(),
            all == texts(parts@),
            s@ == joined(all.take(k as int), sep@),
        decreases parts@.len() - k,
    {
        assert(all.take(k + 1).drop_last() == all.take(k as int));
        if k > 0 {
            s.append(sep);
        }
        s.append(parts[k].as_str());
        k += 1;
        assert(s@ == joined(all.take(k as int), sep@));
    }
    assert(all.take(k as int) == all);
    s
}

/// Decimal digits count by their place: one more digit makes the number ten times as large
/// and adds what the digit stands for.
pub proof fn digits_count_by_place(s: Seq<char>, c: char)
    requires
        '0' <= c <= '9',
    ensures
        number(s.push(c)) == number(s) * 10 + (c as int - '0' as int),
        number(Seq::empty()) == 0,
        is_digit(c),
{
    assert(s.push(c).drop_last() == s);
}

/// A number in decimal is made of digits, begins with no zero but for the number zero
/// itself, and stands for what it was made from.
pub proof fn decimals_are_canonical(n: nat)
    ensures
        number(dec(n)) == n,
        dec(n).len() > 0,
        forall|k: int| 0 <= k < dec(n).len() ==> '0' <= #[trigger] dec(n)[k] <= '9',
        n > 0 ==> dec(n)[0] != '0',
        n == 0 ==> dec(n) == seq!['0'],
    decreases n,
{
    lemma_dec_reads_back(n);
    if n >= 10 {
        decimals_are_canonical(n / 10);
        assert(dec(n)[0] == dec(n / 10)[0]);
    }
    assert forall|k: int| 0 <= k < dec(n).len() implies '0' <= #[trigger] dec(n)[k] <= '9' by {
        assert(is_digit(dec(n)[k]));
    }
}

/// A negative number is written with a minus before its opposite, any other as it is.
pub proof fn a_minus_marks_the_negative(i: int)
    ensures
        i >= 0 ==> dec_int(i) == dec(i as nat),
        i < 0 ==> dec_int(i) == seq!['-'] + dec((-i) as nat),
{
}

/// Letters have a small form, thirty-two places on; no other character changes.
pub proof fn only_capitals_are_lowered(c: char)
    ensures
        'A' <= c <= 'Z' ==> lower(c) as int == c as int + 32,
        !('A' <= c <= 'Z') ==> lower(c) == c,
        lower(lower(c)) == lower(c),
{
}

/// White space is the blank, the characters from tab to carriage return, and the blanks
/// that Unicode has beyond ASCII; digits are the ten of ASCII.
pub proof fn blanks_are_white(c: char)
    ensures
        c as int <= 0x7f ==> (is_space(c) <==> c as int == 0x20 || 0x09 <= c as int <= 0x0d),
        c as int > 0x7f ==> (is_space(c) <==> c as int == 0x85 || c as int == 0xa0 || c as int
            == 0x1680 || 0x2000 <= c as int <= 0x200a || c as int == 0x2028 || c as int == 0x2029
            || c as int == 0x202f || c as int == 0x205f || c as int == 0x3000),
        is_digit(c) <==> 0x30 <= c as int <= 0x39,
{
}

proof fn lemma_skip_space(s: Seq<char>, i: int)
    requires
        0 <= i <= s.len(),
    ensures
        i <= skip_space(s, i) <= s.len(),
        forall|k: int| i <= k < skip_space(s, i) ==> is_space(#[trigger] s[k]),
        skip_space(s, i) < s.len() ==> !is_space(s[skip_space(s, i)]),
    decreases s.len() - i,
{
    if i < s.len() && is_space(s[i]) {
        lemma_skip_space(s, i + 1);
    }
}

proof fn lemma_back_space(s: Seq<char>, j: int)
    requires
        0 <= j <= s.len(),
    ensures
        0 <= back_space(s, j) <= j,
        forall|k: int| back_space(s, j) <= k < j ==> is_space(#[trigger] s[k]),
        back_space(s, j) > 0 ==> !is_space(s[back_space(s, j) - 1]),
    decreases j,
{
    if 0 < j && is_space(s[j - 1]) {
        lemma_back_space(s, j - 1);
    }
}

/// Trimming takes white space from the two ends and nothing else: what is left neither
/// begins nor ends with any.
pub proof fn trimming_takes_the_ends(s: Seq<char>)
    ensures
        exists|a: int, b: int| #[trigger] cuts(s, a, b, trimmed(s)),
        trimmed(s).len() > 0 ==> !is_space(trimmed(s)[0]) && !is_space(trimmed(s).last()),
{
    lemma_skip_space(s, 0);
    lemma_back_space(s, s.len() as int);
    let from = skip_space(s, 0);
    let to = back_space(s, s.len() as int);
    if from < to {
        assert(cuts(s, from, to, trimmed(s)));
    } else {
        assert forall|k: int| 0 <= k < s.len() implies is_space(#[trigger] s[k]) by {
            if k >= from {
                assert(k >= to);
            }
        }
        assert(s.subrange(0, 0) =~= trimmed(s));
        assert(cuts(s, 0, 0, trimmed(s)));
    }
}

/// Whether `part` is what stands in `s` from `a` to `b`, with white space alone around it.
pub open spec fn cuts(s: Seq<char>, a: int, b: int, part: Seq<char>) -> bool {
    &&& 0 <= a <= b <= s.len()
    &&& part == s.subrange(a, b)
    &&& forall|k: int| 0 <= k < s.len() && !(a <= k < b) ==> is_space(#[trigger] s[k])
}

/// Blanks fill a text up to its column, on the right; one that is wider stays as it is.
pub proof fn columns_are_filled_with_blanks(s: Seq<char>, width: nat, k: int)
    requires
        0 <= k < padded(s, width).len(),
    ensures
        s.len() >= width ==> padded(s, width) == s,
        s.len() < width ==> padded(s, width).len() == width,
        k < s.len() ==> padded(s, width)[k] == s[k],
        k >= s.len() ==> padded(s, width)[k] == ' ',
{
    assert(s.len() >= width ==> padded(s, width) =~= s);
}

/// What is joined is parted by the separator alone, and in order.
pub proof fn joining_puts_one_separator_between(
    a: Seq<Seq<char>>,
    b: Seq<Seq<char>>,
    p: Seq<char>,
    sep: Seq<char>,
)
    ensures
        joined(Seq::empty(), sep) == Seq::<char>::empty(),
        joined(seq![p], sep) == p,
        a.len() > 0 && b.len() > 0 ==> joined(a + b, sep) == joined(a, sep) + sep + joined(b, sep),
    decreases b.len(),
{
    if a.len() > 0 && b.len() > 0 {
        assert((a + b).drop_last() =~= a + b.drop_last());
        assert((a + b).last() == b.last());
        if b.len() == 1 {
            assert(a + b.drop_last() =~= a);
        } else {
            joining_puts_one_separator_between(a, b.drop_last(), p, sep);
            assert(joined(a, sep) + sep + joined(b.drop_last(), sep) + sep + b.last() =~= joined(
                a,
                sep,
            ) + sep + (joined(b.drop_last(), sep) + sep + b.last()));
        }
    }
}

/// Putting a text in lower case goes character by character.
pub proof fn lowering_goes_by_character(s: Seq<char>, k: int)
    requires
        0 <= k < s.len(),
    ensures
        lowered(s).len() == s.len(),
        lowered(s)[k] == lower(s[k]),
{
}

/// The texts of several strings are those of each, in order.
pub proof fn texts_go_one_by_one(parts: Seq<String>, k: int)
    requires
        0 <= k < parts.len(),
    ensures
        texts(parts).len() == parts.len(),
        texts(parts)[k] == parts[k]@,
{
}

} // verus!
