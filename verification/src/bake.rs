//! Baked textures: where their grain comes from, and how they are kept.

use crate::paint::{hash32, mixed, Rgb, Texture};
use vstd::prelude::*;

verus! {

/// The grain of a surface at a texel.
pub open spec fn grain_at(x: u32, y: u32) -> u32 {
    mixed(x.wrapping_mul(1973u32).wrapping_add(y.wrapping_mul(9277u32)).wrapping_add(26699u32))
}

pub fn grain(x: u32, y: u32) -> (g: u32)
    ensures
        g == grain_at(x, y),
{
    hash32(x.wrapping_mul(1973).wrapping_add(y.wrapping_mul(9277)).wrapping_add(26699))
}

/// A number below a hundred thousand for each of the lights of a distant room.
pub open spec fn scattered(n: u32) -> u32 {
    let a = n.wrapping_mul(747_796_405u32).wrapping_add(2_891_336_453u32);
    let b = (a ^ (a >> 16u32)).wrapping_mul(0x7feb_352du32);
    (b ^ (b >> 15u32)) % 100_000u32
}

pub fn scatter(n: u32) -> (s: u32)
    ensures
        s == scattered(n),
        s < 100_000,
{
    let a: u32 = n.wrapping_mul(747_796_405).wrapping_add(2_891_336_453);
    let b: u32 = (a ^ (a >> 16u32)).wrapping_mul(0x7feb_352d);
    (b ^ (b >> 15u32)) % 100_000
}

/// The next number of a run that sounds like noise.
pub open spec fn hissed(x: u32) -> u32 {
    let a = x ^ (x << 13u32);
    let b = a ^ (a >> 17u32);
    b ^ (b << 5u32)
}

pub fn hiss(x: u32) -> (n: u32)
    ensures
        n == hissed(x),
{
    let a: u32 = x ^ (x << 13u32);
    let b: u32 = a ^ (a >> 17u32);
    b ^ (b << 5u32)
}

/// Noise does not die down: a run that does not start at 0 never comes to it.
pub proof fn noise_goes_on(x: u32)
    requires
        x != 0,
    ensures
        hissed(x) != 0,
{
    let a = x ^ (x << 13u32);
    let b = a ^ (a >> 17u32);
    assert(a != 0) by (bit_vector)
        requires
            x != 0,
            a == x ^ (x << 13u32),
    ;
    assert(b != 0) by (bit_vector)
        requires
            a != 0,
            b == a ^ (a >> 17u32),
    ;
    assert(b ^ (b << 5u32) != 0) by (bit_vector)
        requires
            b != 0,
    ;
}

/// A number for a chip, or for a draw, of a stack.
pub open spec fn chip_number(stack: u32, k: u32) -> u32 {
    mixed(
        stack.wrapping_mul(0x9E37_79B1u32).wrapping_add(k.wrapping_mul(2_246_822_519u32)).wrapping_add(
            1u32,
        ),
    )
}

fn chip_hash(stack: u32, k: u32) -> (n: u32)
    ensures
        n == chip_number(stack, k),
{
    hash32(stack.wrapping_mul(0x9E37_79B1).wrapping_add(k.wrapping_mul(2_246_822_519)).wrapping_add(1))
}

/// How many chips a stack holds, three to seven.
pub fn stack_height(stack: u32) -> (n: usize)
    ensures
        n == 3 + chip_number(stack, 7) % 5,
        3 <= n <= 7,
{
    3 + (chip_hash(stack, 7) % 5) as usize
}

/// The colours of chips: red, green, black, white and blue.
pub open spec fn chip_palette(slot: int) -> Rgb {
    if slot == 0 {
        Rgb(198, 44, 44)
    } else if slot == 1 {
        Rgb(28, 140, 64)
    } else if slot == 2 {
        Rgb(30, 30, 36)
    } else if slot == 3 {
        Rgb(216, 216, 206)
    } else {
        Rgb(44, 84, 184)
    }
}

/// The colour of the `chip`-th chip of a stack from below.
pub fn chip_rgb(stack: u32, chip: u32) -> (c: Rgb)
    ensures
        c == chip_palette(
            chip_number(stack.wrapping_mul(101u32).wrapping_add(7u32), chip) as int % 5,
        ),
{
    match chip_hash(stack.wrapping_mul(101).wrapping_add(7), chip) % 5 {
        0 => Rgb(198, 44, 44),
        1 => Rgb(28, 140, 64),
        2 => Rgb(30, 30, 36),
        3 => Rgb(216, 216, 206),
        _ => Rgb(44, 84, 184),
    }
}

/// The most textures that are kept of one kind.
pub const MAX_TEXTURES: usize = 6;

/// The textures of one kind, by the colour that each was baked from, the oldest first.
#[derive(Debug)]
pub struct Shelf {
    pub slots: Vec<(Rgb, Texture)>,
}

impl Shelf {
    /// Whether no two textures were baked from one colour, and there are not too many.
    pub open spec fn wf(&self) -> bool {
        &&& self.slots@.len() <= MAX_TEXTURES
        &&& forall|i: int, j: int|
            0 <= i < j < self.slots@.len() ==> self.slots@[i].0 != self.slots@[j].0
    }

    /// Whether the texture of a colour stands at `k`.
    pub open spec fn holds(&self, base: Rgb, k: int) -> bool {
        0 <= k < self.slots@.len() && self.slots@[k].0 == base
    }

    /// Whether the texture of a colour is kept.
    pub open spec fn has(&self, base: Rgb) -> bool {
        exists|k: int| self.holds(base, k)
    }

    pub fn new() -> (s: Shelf)
        ensures
            s.slots@.len() == 0,
            s.wf(),
    {
        Shelf { slots: Vec::new() }
    }

    /// Where the texture of a colour stands.
    pub fn find(&self, base: Rgb) -> (r: Option<usize>)
        requires
            self.wf(),
        ensures
            match r {
                Some(k) => self.holds(base, k as int),
                None => !self.has(base),
            },
    {
        let mut k: usize = 0;
        while k < self.slots.len()
            invariant
                k <= self.slots@.len(),
                forall|j: int| 0 <= j < k ==> !self.holds(base, j),
            decreases self.slots@.len() - k,
        {
            if self.slots[k].0 == base {
                return Some(k);
            }
            k += 1;
        }
        None
    }

    /// What is kept once a texture is added: all but the oldest where there would be
    /// too many.
    pub open spec fn with(&self, base: Rgb, t: Texture) -> Seq<(Rgb, Texture)> {
        let all = self.slots@.push((base, t));
        if all.len() > MAX_TEXTURES {
            all.remove(0)
        } else {
            all
        }
    }
}

/// Where the texture of a colour stands, baking it where it is not kept yet.
pub fn cached_texture<F: FnOnce() -> Texture>(shelf: &mut Shelf, base: Rgb, bake: F) -> (at: usize)
    requires
        old(shelf).wf(),
        bake.requires(()),
    ensures
        final(shelf).wf(),
        final(shelf).holds(base, at as int),
        old(shelf).has(base) ==> *final(shelf) == *old(shelf),
        !old(shelf).has(base) ==> bake.ensures((), final(shelf).slots@[at as int].1)
            && final(shelf).slots@ == old(shelf).with(base, final(shelf).slots@[at as int].1),
{
    match shelf.find(base) {
        Some(k) => k,
        None => {
            let t = bake();
            let ghost before = *shelf;
            assert forall|j: int| 0 <= j < before.slots@.len() implies before.slots@[j].0 != base by {
                assert(!before.holds(base, j));
            }
            shelf.slots.push((base, t));
            if shelf.slots.len() > MAX_TEXTURES {
                shelf.slots.remove(0);
            }
            assert(shelf.slots@ == before.with(base, t));
            shelf.slots.len() - 1
        },
    }
}

/// The grain of a place depends on its column and its row by large steps, whose bits are
/// scattered.
pub proof fn grain_follows_the_place(x: u32, y: u32)
    ensures
        grain_at(x, y) == mixed(
            x.wrapping_mul(1973u32).wrapping_add(y.wrapping_mul(9277u32)).wrapping_add(26699u32),
        ),
{
}

/// A scattered number lies below a hundred thousand and comes of one multiplication and two
/// folds.
pub proof fn scattered_numbers_are_small(n: u32)
    ensures
        scattered(n) < 100_000,
        ({
            let a = n.wrapping_mul(747_796_405u32).wrapping_add(2_891_336_453u32);
            let b = (a ^ (a >> 16u32)).wrapping_mul(0x7feb_352du32);
            scattered(n) == (b ^ (b >> 15u32)) % 100_000
        }),
{
}

/// Noise steps by three shifts, of which none loses a bit: two numbers that differ have
/// successors that differ.
pub proof fn noise_never_meets(x: u32, y: u32)
    requires
        x != y,
    ensures
        hissed(x) != hissed(y),
{
    let a = x ^ (x << 13u32);
    let c = y ^ (y << 13u32);
    assert(a != c) by (bit_vector)
        requires
            x != y,
            a == x ^ (x << 13u32),
            c == y ^ (y << 13u32),
    ;
    let b = a ^ (a >> 17u32);
    let d = c ^ (c >> 17u32);
    assert(b != d) by (bit_vector)
        requires
            a != c,
            b == a ^ (a >> 17u32),
            d == c ^ (c >> 17u32),
    ;
    assert(b ^ (b << 5u32) != d ^ (d << 5u32)) by (bit_vector)
        requires
            b != d,
    ;
}

/// A step of noise folds the number thirteen bits up, seventeen down and five up.
pub proof fn noise_folds_three_times(x: u32)
    ensures
        ({
            let a = x ^ (x << 13u32);
            let b = a ^ (a >> 17u32);
            hissed(x) == b ^ (b << 5u32)
        }),
{
}

/// The chips of a stack are picked by the number of the stack and their own.
pub proof fn chips_are_picked_by_stack_and_place(stack: u32, k: u32)
    ensures
        chip_number(stack, k) == mixed(
            stack.wrapping_mul(0x9E37_79B1u32).wrapping_add(
                k.wrapping_mul(2_246_822_519u32),
            ).wrapping_add(1u32),
        ),
        chip_palette(0) == Rgb(198, 44, 44),
        chip_palette(1) == Rgb(28, 140, 64),
        chip_palette(2) == Rgb(30, 30, 36),
        chip_palette(3) == Rgb(216, 216, 206),
        chip_palette(4) == Rgb(44, 84, 184),
{
}

/// A shelf keeps six textures, no two of one colour. One more joins at its end, and where
/// there would be seven the oldest goes.
pub proof fn shelves_keep_the_newest(shelf: Shelf, base: Rgb, t: Texture, k: int)
    requires
        shelf.wf(),
    ensures
        shelf.slots@.len() <= 6,
        shelf.holds(base, k) <==> 0 <= k < shelf.slots@.len() && shelf.slots@[k].0 == base,
        shelf.has(base) ==> exists|j: int|
            0 <= j < shelf.slots@.len() && (#[trigger] shelf.slots@[j]).0 == base,
        0 <= k < shelf.slots@.len() && shelf.slots@[k].0 == base ==> shelf.has(base),
        shelf.slots@.len() < 6 ==> shelf.with(base, t) == shelf.slots@.push((base, t)),
        shelf.slots@.len() == 6 ==> shelf.with(base, t) == shelf.slots@.drop_first().push(
            (base, t),
        ),
{
    if 0 <= k < shelf.slots@.len() && shelf.slots@[k].0 == base {
        assert(shelf.holds(base, k));
    }
    if shelf.has(base) {
        let j = choose|j: int| shelf.holds(base, j);
        assert(shelf.slots@[j].0 == base);
    }
    if shelf.slots@.len() == 6 {
        let all = shelf.slots@.push((base, t));
        assert(all.remove(0) =~= shelf.slots@.drop_first().push((base, t)));
    }
}

} // verus!
