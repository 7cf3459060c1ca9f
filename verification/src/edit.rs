//! A line of text and the caret in it.
//!
//! The caret is held as a byte offset. One that lies past the end, or inside a
//! character, stands for the last place before it where a caret can be.

use crate::text::text_of;
use vstd::prelude::*;

verus! {

/// The bytes that a character takes in UTF-8.
pub open spec fn width(c: char) -> nat {
    if (c as u32) < 0x80 {
        1
    } else if (c as u32) < 0x800 {
        2
    } else if (c as u32) < 0x1_0000 {
        3
    } else {
        4
    }
}

fn width_of(c: char) -> (n: usize)
    ensures
        n == width(c),
{
    if (c as u32) < 0x80 {
        1
    } else if (c as u32) < 0x800 {
        2
    } else if (c as u32) < 0x1_0000 {
        3
    } else {
        4
    }
}

/// The bytes that a text takes in UTF-8.
pub open spec fn bytes(s: Seq<char>) -> nat
    decreases s.len(),
{
    if s.len() == 0 {
        0
    } else {
        bytes(s.drop_last()) + width(s.last())
    }
}

/// How many characters stand before the caret, counted on from `k`.
pub open spec fn caret_from(s: Seq<char>, cursor: int, k: int) -> int
    decreases s.len() - k,
{
    if 0 <= k < s.len() && bytes(s.take(k + 1)) <= cursor {
        caret_from(s, cursor, k + 1)
    } else {
        k
    }
}

/// How many characters stand before the caret at byte `cursor`.
pub open spec fn caret(s: Seq<char>, cursor: int) -> int {
    caret_from(s, cursor, 0)
}

proof fn lemma_bytes_step(s: Seq<char>, k: int)
    requires
        0 <= k < s.len(),
    ensures
        bytes(s.take(k + 1)) == bytes(s.take(k)) + width(s[k]),
{
    assert(s.take(k + 1).drop_last() == s.take(k));
}

/// A longer part takes more bytes.
pub proof fn lemma_bytes_grow(s: Seq<char>, j: int, k: int)
    requires
        0 <= j <= k <= s.len(),
    ensures
        bytes(s.take(j)) + (k - j) <= bytes(s.take(k)),
    decreases k - j,
{
    if j < k {
        lemma_bytes_grow(s, j, k - 1);
        lemma_bytes_step(s, k - 1);
    }
}

proof fn lemma_caret_from(s: Seq<char>, k: int, j: int)
    requires
        0 <= j <= k <= s.len(),
    ensures
        caret_from(s, bytes(s.take(k)) as int, j) == k,
    decreases k - j,
{
    if j < k {
        lemma_bytes_grow(s, j + 1, k);
        lemma_caret_from(s, k, j + 1);
    } else if k < s.len() {
        lemma_bytes_step(s, k);
    }
}

proof fn lemma_caret_range(s: Seq<char>, cursor: int, k: int)
    requires
        0 <= k <= s.len(),
        bytes(s.take(k)) <= cursor,
    ensures
        k <= caret_from(s, cursor, k) <= s.len(),
        bytes(s.take(caret_from(s, cursor, k))) <= cursor,
    decreases s.len() - k,
{
    if k < s.len() && bytes(s.take(k + 1)) <= cursor {
        lemma_caret_range(s, cursor, k + 1);
    }
}

/// The caret stands between two characters, or at an end.
pub proof fn caret_is_in_the_text(s: Seq<char>, cursor: int)
    requires
        0 <= cursor,
    ensures
        0 <= caret(s, cursor) <= s.len(),
        bytes(s.take(caret(s, cursor))) <= cursor,
        bytes(s.take(caret(s, cursor))) <= bytes(s),
{
    assert(s.take(0) == Seq::<char>::empty());
    lemma_caret_range(s, cursor, 0);
    lemma_bytes_grow(s, caret(s, cursor), s.len() as int);
    assert(s.take(s.len() as int) == s);
}

/// A caret put before the character number `k` is found there.
pub proof fn caret_stays_where_put(s: Seq<char>, k: int)
    requires
        0 <= k <= s.len(),
    ensures
        caret(s, bytes(s.take(k)) as int) == k,
{
    lemma_caret_from(s, k, 0);
}

/// A character typed and then erased leaves the text and the caret as they were.
pub proof fn typing_is_undone_by_erasing(s: Seq<char>, k: int, c: char)
    requires
        0 <= k <= s.len(),
    ensures
        ({
            let typed = s.insert(k, c);
            &&& caret(typed, bytes(typed.take(k + 1)) as int) == k + 1
            &&& typed.remove(k) == s
            &&& caret(s, bytes(s.take(k)) as int) == k
            &&& bytes(typed.take(k)) == bytes(s.take(k))
        }),
{
    let typed = s.insert(k, c);
    caret_stays_where_put(typed, k + 1);
    caret_stays_where_put(s, k);
    assert(typed.remove(k) =~= s);
    assert(typed.take(k) =~= s.take(k));
}

/// How many characters stand before the caret, and the bytes that they take.
pub fn find_caret(chars: &Vec<char>, cursor: usize) -> (r: (usize, usize))
    ensures
        r.0 == caret(chars@, cursor as int),
        r.0 <= chars@.len(),
        r.1 == bytes(chars@.take(r.0 as int)),
        r.1 <= cursor,
{
    let mut k: usize = 0;
    let mut at: usize = 0;
    assert(chars@.take(0) == Seq::<char>::empty());
    while k < chars.len()
        invariant
            k <= chars@.len(),
            at == bytes(chars@.take(k as int)),
            at <= cursor,
            caret(chars@, cursor as int) == caret_from(chars@, cursor as int, k as int),
        decreases chars@.len() - k,
    {
        proof {
            lemma_bytes_step(chars@, k as int);
        }
        let w: usize = width_of(chars[k]);
        if w > cursor - at {
            return (k, at);
        }
        at += w;
        k += 1;
    }
    (k, at)
}

/// The bytes that the text takes.
pub fn count_bytes(chars: &Vec<char>) -> (n: usize)
    requires
        bytes(chars@) <= usize::MAX,
    ensures
        n == bytes(chars@),
{
    let mut k: usize = 0;
    let mut n: usize = 0;
    assert(chars@.take(0) == Seq::<char>::empty());
    assert(chars@.take(chars@.len() as int) == chars@);
    while k < chars.len()
        invariant
            k <= chars@.len(),
            bytes(chars@) <= usize::MAX,
            chars@.take(chars@.len() as int) == chars@,
            n == bytes(chars@.take(k as int)),
        decreases chars@.len() - k,
    {
        proof {
            lemma_bytes_step(chars@, k as int);
            lemma_bytes_grow(chars@, k + 1, chars@.len() as int);
        }
        n += width_of(chars[k]);
        k += 1;
    }
    n
}

/// The text with `c` before its character number `k`, and the byte past it.
pub fn insert_at(chars: &Vec<char>, k: usize, at: usize, c: char) -> (r: (String, usize))
    requires
        k <= chars@.len(),
        at == bytes(chars@.take(k as int)),
        bytes(chars@) + 4 <= usize::MAX,
    ensures
        r.0@ == chars@.insert(k as int, c),
        r.1 == bytes(r.0@.take(k + 1)),
{
    let mut s = text_of(chars, 0, k);
    s.push(c);
    let rest = text_of(chars, k, chars.len());
    s.append(rest.as_str());
    proof {
        assert(s@ == chars@.insert(k as int, c));
        assert(s@.take(k + 1).drop_last() == chars@.take(k as int));
        lemma_bytes_grow(chars@, k as int, chars@.len() as int);
        assert(chars@.take(chars@.len() as int) == chars@);
    }
    (s, at + width_of(c))
}

/// The text without its character number `k`.
pub fn remove_at(chars: &Vec<char>, k: usize) -> (s: String)
    requires
        k < chars@.len(),
    ensures
        s@ == chars@.remove(k as int),
{
    let n: usize = chars.len();
    let mut s = text_of(chars, 0, k);
    let rest = text_of(chars, k + 1, n);
    s.append(rest.as_str());
    assert(s@ == chars@.remove(k as int));
    s
}

/// The bytes that the characters before number `k` take.
pub fn bytes_before(chars: &Vec<char>, k: usize) -> (n: usize)
    requires
        k <= chars@.len(),
        bytes(chars@.take(k as int)) <= usize::MAX,
    ensures
        n == bytes(chars@.take(k as int)),
{
    let mut j: usize = 0;
    let mut n: usize = 0;
    assert(chars@.take(0) == Seq::<char>::empty());
    while j < k
        invariant
            j <= k <= chars@.len(),
            bytes(chars@.take(k as int)) <= usize::MAX,
            n == bytes(chars@.take(j as int)),
        decreases k - j,
    {
        proof {
            lemma_bytes_step(chars@, j as int);
            lemma_bytes_grow(chars@, j + 1, k as int);
        }
        n += width_of(chars[j]);
        j += 1;
    }
    n
}

/// A character takes one byte where its code is below 0x80, two where it is below 0x800,
/// three where it is below 0x10000, and else four; a text takes what its characters take.
pub proof fn bytes_follow_the_code(a: Seq<char>, b: Seq<char>, c: char)
    ensures
        c as int <= 0x7f ==> bytes(seq![c]) == 1,
        0x80 <= c as int <= 0x7ff ==> bytes(seq![c]) == 2,
        0x800 <= c as int <= 0xffff ==> bytes(seq![c]) == 3,
        0x1_0000 <= c as int ==> bytes(seq![c]) == 4,
        bytes(seq![c]) == width(c),
        bytes(Seq::empty()) == 0,
        bytes(a + b) == bytes(a) + bytes(b),
    decreases b.len(),
{
    assert(seq![c].drop_last() =~= Seq::<char>::empty());
    reveal_with_fuel(bytes, 2);
    if b.len() == 0 {
        assert(a + b =~= a);
    } else {
        bytes_follow_the_code(a, b.drop_last(), c);
        assert((a + b).drop_last() =~= a + b.drop_last());
    }
}

proof fn lemma_caret_last(s: Seq<char>, cursor: int, k: int)
    requires
        0 <= k <= s.len(),
    ensures
        k <= caret_from(s, cursor, k) <= s.len(),
        caret_from(s, cursor, k) < s.len() ==> bytes(s.take(caret_from(s, cursor, k) + 1)) > cursor,
    decreases s.len() - k,
{
    if k < s.len() && bytes(s.take(k + 1)) <= cursor {
        lemma_caret_last(s, cursor, k + 1);
    }
}

/// A byte offset stands for the last place at or before it where a caret can be: the
/// characters before the caret end by then, and one more would not.
pub proof fn carets_stand_at_the_last_place(s: Seq<char>, cursor: int)
    requires
        0 <= cursor,
    ensures
        bytes(s.take(caret(s, cursor))) <= cursor,
        caret(s, cursor) < s.len() ==> bytes(s.take(caret(s, cursor) + 1)) > cursor,
        cursor >= bytes(s) ==> caret(s, cursor) == s.len(),
        caret(s, 0) == 0,
{
    caret_is_in_the_text(s, cursor);
    lemma_caret_last(s, cursor, 0);
    if cursor >= bytes(s) && caret(s, cursor) < s.len() {
        lemma_bytes_grow(s, caret(s, cursor) + 1, s.len() as int);
        assert(s.take(s.len() as int) =~= s);
    }
    if s.len() > 0 {
        lemma_bytes_grow(s, 0, 1);
    }
}

} // verus!
