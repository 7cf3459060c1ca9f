//! The solids that dice are made as, and the cup: which corners make up each face, and
//! the triangles that the faces are cut into.

use vstd::prelude::*;

verus! {

/// The solids that dice are made as.
#[derive(Debug, Clone, Copy, PartialEq, Eq, Structural)]
pub enum Solid {
    D4,
    D6,
    D8,
    D10,
    D12,
    D20,
}

/// The solid of a die: a cube where no solid has as many faces.
pub open spec fn solid_of(sides: int) -> Solid {
    if sides == 4 {
        Solid::D4
    } else if sides == 8 {
        Solid::D8
    } else if sides == 10 {
        Solid::D10
    } else if sides == 12 {
        Solid::D12
    } else if sides == 20 {
        Solid::D20
    } else {
        Solid::D6
    }
}

pub fn solid_for(sides: u32) -> (s: Solid)
    ensures
        s == solid_of(sides as int),
{
    match sides {
        4 => Solid::D4,
        8 => Solid::D8,
        10 => Solid::D10,
        12 => Solid::D12,
        20 => Solid::D20,
        _ => Solid::D6,
    }
}

/// The number of faces.
pub open spec fn face_count(s: Solid) -> int {
    match s {
        Solid::D4 => 4,
        Solid::D6 => 6,
        Solid::D8 => 8,
        Solid::D10 => 10,
        Solid::D12 => 12,
        Solid::D20 => 20,
    }
}

/// The number of corners.
pub open spec fn corner_count(s: Solid) -> int {
    match s {
        Solid::D4 => 4,
        Solid::D6 => 8,
        Solid::D8 => 6,
        Solid::D10 => 7,
        Solid::D12 => 20,
        Solid::D20 => 12,
    }
}

/// The corners of the `k`-th face of the icosahedron.
pub open spec fn ico_face(k: int) -> (int, int, int) {
    if k == 0 {
        (0, 11, 5)
    } else if k == 1 {
        (0, 5, 1)
    } else if k == 2 {
        (0, 1, 7)
    } else if k == 3 {
        (0, 7, 10)
    } else if k == 4 {
        (0, 10, 11)
    } else if k == 5 {
        (1, 5, 9)
    } else if k == 6 {
        (5, 11, 4)
    } else if k == 7 {
        (11, 10, 2)
    } else if k == 8 {
        (10, 7, 6)
    } else if k == 9 {
        (7, 1, 8)
    } else if k == 10 {
        (3, 9, 4)
    } else if k == 11 {
        (3, 4, 2)
    } else if k == 12 {
        (3, 2, 6)
    } else if k == 13 {
        (3, 6, 8)
    } else if k == 14 {
        (3, 8, 9)
    } else if k == 15 {
        (4, 9, 5)
    } else if k == 16 {
        (2, 4, 11)
    } else if k == 17 {
        (6, 2, 10)
    } else if k == 18 {
        (8, 6, 7)
    } else {
        (9, 8, 1)
    }
}

fn ico(k: usize) -> (f: (usize, usize, usize))
    requires
        k < 20,
    ensures
        f.0 == ico_face(k as int).0,
        f.1 == ico_face(k as int).1,
        f.2 == ico_face(k as int).2,
{
    match k {
        0 => (0, 11, 5),
        1 => (0, 5, 1),
        2 => (0, 1, 7),
        3 => (0, 7, 10),
        4 => (0, 10, 11),
        5 => (1, 5, 9),
        6 => (5, 11, 4),
        7 => (11, 10, 2),
        8 => (10, 7, 6),
        9 => (7, 1, 8),
        10 => (3, 9, 4),
        11 => (3, 4, 2),
        12 => (3, 2, 6),
        13 => (3, 6, 8),
        14 => (3, 8, 9),
        15 => (4, 9, 5),
        16 => (2, 4, 11),
        17 => (6, 2, 10),
        18 => (8, 6, 7),
        _ => (9, 8, 1),
    }
}

/// Whether a corner belongs to the `k`-th face of the icosahedron.
pub open spec fn ico_meets(k: int, corner: int) -> bool {
    ico_face(k).0 == corner || ico_face(k).1 == corner || ico_face(k).2 == corner
}

/// Those of the first `n` faces of the icosahedron that meet in a corner, in order.
pub open spec fn around(corner: int, n: int) -> Seq<int>
    decreases n,
{
    if n <= 0 {
        Seq::empty()
    } else if ico_meets(n - 1, corner) {
        around(corner, n - 1).push(n - 1)
    } else {
        around(corner, n - 1)
    }
}

/// What the side of a cube's corner on one axis adds to its number.
pub open spec fn axis_weight(axis: int) -> int {
    if axis == 0 {
        1
    } else if axis == 1 {
        2
    } else {
        4
    }
}

/// The corner of a cube on the side `s` of one axis, `a` of the next and `b` of the
/// one after, each 0 or 1.
pub open spec fn cube_corner(axis: int, s: int, a: int, b: int) -> int {
    axis_weight(axis) * s + axis_weight((axis + 1) % 3) * a + axis_weight((axis + 2) % 3) * b
}

/// The corners of a face, by their numbers. The dodecahedron's corners are the faces
/// of the icosahedron, and its faces the corners.
pub open spec fn face(s: Solid, k: int) -> Seq<int> {
    match s {
        Solid::D4 => if k == 0 {
            seq![0, 1, 2]
        } else if k == 1 {
            seq![0, 1, 3]
        } else if k == 2 {
            seq![0, 2, 3]
        } else {
            seq![1, 2, 3]
        },
        Solid::D6 => seq![
            cube_corner(k / 2, k % 2, 0, 0),
            cube_corner(k / 2, k % 2, 0, 1),
            cube_corner(k / 2, k % 2, 1, 0),
            cube_corner(k / 2, k % 2, 1, 1),
        ],
        Solid::D8 => seq![k / 4, 2 + k / 2 % 2, 4 + k % 2],
        Solid::D10 => seq![k % 2, 2 + k / 2, 2 + (k / 2 + 1) % 5],
        Solid::D12 => around(k, 20),
        Solid::D20 => seq![ico_face(k).0, ico_face(k).1, ico_face(k).2],
    }
}

pub open spec fn places(v: Seq<usize>) -> Seq<int> {
    Seq::new(v.len(), |k: int| v[k] as int)
}

pub open spec fn numbers(v: Seq<u32>) -> Seq<int> {
    Seq::new(v.len(), |k: int| v[k] as int)
}

fn faces_around(corner: usize) -> (v: Vec<usize>)
    ensures
        places(v@) == around(corner as int, 20),
{
    let mut v: Vec<usize> = Vec::new();
    let mut k: usize = 0;
    while k < 20
        invariant
            k <= 20,
            places(v@) == around(corner as int, k as int),
        decreases 20 - k,
    {
        let f: (usize, usize, usize) = ico(k);
        if f.0 == corner || f.1 == corner || f.2 == corner {
            v.push(k);
            assert(places(v@) == around(corner as int, k as int).push(k as int));
        }
        k += 1;
    }
    v
}

fn weight(axis: usize) -> (w: usize)
    ensures
        w == axis_weight(axis as int),
{
    match axis {
        0 => 1,
        1 => 2,
        _ => 4,
    }
}

fn corner_of_cube(axis: usize, s: usize, a: usize, b: usize) -> (c: usize)
    requires
        axis < 3,
        s < 2,
        a < 2,
        b < 2,
    ensures
        c == cube_corner(axis as int, s as int, a as int, b as int),
{
    let mut c: usize = 0;
    if s == 1 {
        c += weight(axis);
    }
    if a == 1 {
        c += weight((axis + 1) % 3);
    }
    if b == 1 {
        c += weight((axis + 2) % 3);
    }
    proof {
        let w = axis_weight(axis as int);
        let v = axis_weight((axis + 1) % 3);
        let u = axis_weight((axis + 2) % 3);
        assert(w * 0 == 0 && v * 0 == 0 && u * 0 == 0);
        assert(w * 1 == w && v * 1 == v && u * 1 == u);
    }
    c
}

/// The corners of a face, by their numbers.
pub fn face_corners(s: Solid, k: usize) -> (v: Vec<usize>)
    requires
        k < face_count(s),
    ensures
        places(v@) == face(s, k as int),
{
    let v: Vec<usize> = match s {
        Solid::D4 => match k {
            0 => vec![0, 1, 2],
            1 => vec![0, 1, 3],
            2 => vec![0, 2, 3],
            _ => vec![1, 2, 3],
        },
        Solid::D6 => vec![
            corner_of_cube(k / 2, k % 2, 0, 0),
            corner_of_cube(k / 2, k % 2, 0, 1),
            corner_of_cube(k / 2, k % 2, 1, 0),
            corner_of_cube(k / 2, k % 2, 1, 1),
        ],
        Solid::D8 => vec![k / 4, 2 + k / 2 % 2, 4 + k % 2],
        Solid::D10 => vec![k % 2, 2 + k / 2, 2 + (k / 2 + 1) % 5],
        Solid::D12 => faces_around(k),
        Solid::D20 => {
            let f: (usize, usize, usize) = ico(k);
            vec![f.0, f.1, f.2]
        },
    };
    assert(places(v@) == face(s, k as int));
    v
}

/// The triangles that a face of `n` corners is cut into, as the vertices that they
/// join: its corners stand one after the other from `base` on.
pub open spec fn fan(base: int, n: int) -> Seq<int>
    decreases n,
{
    if n <= 2 {
        Seq::empty()
    } else {
        fan(base, n - 1) + seq![base, base + n - 2, base + n - 1]
    }
}

/// The vertices of the first `k` faces.
pub open spec fn laid(s: Solid, k: int) -> int
    decreases k,
{
    if k <= 0 {
        0
    } else {
        laid(s, k - 1) + face(s, k - 1).len()
    }
}

/// The triangles of the first `k` faces. Each face has vertices of its own, so that
/// it can be shaded flat.
pub open spec fn cut(s: Solid, k: int) -> Seq<int>
    decreases k,
{
    if k <= 0 {
        Seq::empty()
    } else {
        cut(s, k - 1) + fan(laid(s, k - 1), face(s, k - 1).len() as int)
    }
}

/// A solid: the corners of each face, and the triangles over the vertices that the
/// faces lay down one after the other.
#[derive(Debug)]
pub struct Mesh {
    pub faces: Vec<Vec<usize>>,
    pub indices: Vec<u32>,
}

pub open spec fn corner_lists(faces: Seq<Vec<usize>>) -> Seq<Seq<int>> {
    Seq::new(faces.len(), |k: int| places(faces[k]@))
}

impl Mesh {
    /// Whether this is the mesh of a solid.
    pub open spec fn is_of(&self, s: Solid) -> bool {
        &&& corner_lists(self.faces@) == Seq::new(face_count(s) as nat, |k: int| face(s, k))
        &&& numbers(self.indices@) == cut(s, face_count(s))
    }

    /// The number of triangles.
    pub fn triangle_count(&self) -> (n: usize)
        ensures
            n == self.indices@.len() / 3,
    {
        self.indices.len() / 3
    }
}

proof fn lemma_around_is_short(corner: int, n: int)
    requires
        0 <= n,
    ensures
        around(corner, n).len() <= n,
        forall|i: int| 0 <= i < around(corner, n).len() ==> 0 <= #[trigger] around(corner, n)[i] < n,
        forall|i: int, j: int|
            0 <= i < j < around(corner, n).len() ==> around(corner, n)[i] < around(corner, n)[j],
    decreases n,
{
    if n > 0 {
        lemma_around_is_short(corner, n - 1);
    }
}

proof fn lemma_few_vertices(s: Solid, k: int)
    requires
        0 <= k,
    ensures
        0 <= laid(s, k) <= 20 * k,
        face(s, k).len() <= 20,
    decreases k,
{
    lemma_around_is_short(k, 20);
    if k > 0 {
        lemma_few_vertices(s, k - 1);
    }
}

fn push_fan(out: &mut Vec<u32>, base: u32, n: u32)
    requires
        base + n <= u32::MAX,
    ensures
        numbers(final(out)@) == numbers(old(out)@) + fan(base as int, n as int),
{
    let mut k: u32 = 2;
    assert(numbers(out@) == numbers(old(out)@) + fan(base as int, 2));
    while k < n
        invariant
            2 <= k,
            if n < 2 {
                k == 2
            } else {
                k <= n
            },
            base + n <= u32::MAX,
            numbers(out@) == numbers(old(out)@) + fan(base as int, k as int),
        decreases n - k,
    {
        out.push(base);
        out.push(base + (k - 1));
        out.push(base + k);
        assert(numbers(out@) == numbers(old(out)@) + fan(base as int, k as int) + seq![
            base as int,
            base + k - 1,
            base + k as int,
        ]);
        k += 1;
    }
    assert(n < 2 ==> fan(base as int, n as int) == fan(base as int, 2));
}

/// The mesh of the solid that a die of this many sides is made as.
pub fn mesh_for(sides: u32) -> (m: Mesh)
    ensures
        m.is_of(solid_of(sides as int)),
{
    let s = solid_for(sides);
    let count: usize = match s {
        Solid::D4 => 4,
        Solid::D6 => 6,
        Solid::D8 => 8,
        Solid::D10 => 10,
        Solid::D12 => 12,
        Solid::D20 => 20,
    };
    let mut faces: Vec<Vec<usize>> = Vec::new();
    let mut indices: Vec<u32> = Vec::new();
    let mut base: u32 = 0;
    let mut k: usize = 0;
    while k < count
        invariant
            k <= count,
            count == face_count(s),
            base == laid(s, k as int),
            corner_lists(faces@) == Seq::new(k as nat, |j: int| face(s, j)),
            numbers(indices@) == cut(s, k as int),
        decreases count - k,
    {
        proof {
            lemma_few_vertices(s, k as int);
        }
        let corners = face_corners(s, k);
        let n: u32 = corners.len() as u32;
        assert(places(corners@).len() == n);
        push_fan(&mut indices, base, n);
        base += n;
        let ghost before = faces@;
        faces.push(corners);
        assert(corner_lists(faces@) == corner_lists(before).push(face(s, k as int)));
        k += 1;
        assert(corner_lists(faces@) == Seq::new(k as nat, |j: int| face(s, j)));
    }
    Mesh { faces, indices }
}

/// Twelve vertices that show four corners from both sides: two triangles, and the
/// same two turned over.
pub open spec fn quad(base: int) -> Seq<int> {
    seq![
        base,
        base + 1,
        base + 2,
        base,
        base + 2,
        base + 3,
        base,
        base + 2,
        base + 1,
        base,
        base + 3,
        base + 2,
    ]
}

/// Adds four corners, seen from both sides.
pub fn push_quad(out: &mut Vec<u32>, base: u32)
    requires
        base + 3 <= u32::MAX,
    ensures
        numbers(final(out)@) == numbers(old(out)@) + quad(base as int),
{
    out.push(base);
    out.push(base + 1);
    out.push(base + 2);
    out.push(base);
    out.push(base + 2);
    out.push(base + 3);
    out.push(base);
    out.push(base + 2);
    out.push(base + 1);
    out.push(base);
    out.push(base + 3);
    out.push(base + 2);
    assert(numbers(out@) == numbers(old(out)@) + quad(base as int));
}

/// The first `n` of the segments of a disc around the vertex `base`, seen from both
/// sides; its rim of `seg` vertices follows the middle.
pub open spec fn disc(base: int, seg: int, n: int) -> Seq<int>
    decreases n,
{
    if n <= 0 {
        Seq::empty()
    } else {
        disc(base, seg, n - 1) + seq![
            base,
            base + n,
            base + 1 + n % seg,
            base,
            base + 1 + n % seg,
            base + n,
        ]
    }
}

/// Adds a disc, seen from both sides.
pub fn push_disc(out: &mut Vec<u32>, base: u32, seg: u32)
    requires
        base + seg + 1 <= u32::MAX,
    ensures
        numbers(final(out)@) == numbers(old(out)@) + disc(base as int, seg as int, seg as int),
{
    let mut i: u32 = 0;
    assert(numbers(out@) == numbers(old(out)@) + disc(base as int, seg as int, 0));
    while i < seg
        invariant
            i <= seg,
            base + seg + 1 <= u32::MAX,
            numbers(out@) == numbers(old(out)@) + disc(base as int, seg as int, i as int),
        decreases seg - i,
    {
        let j: u32 = (i + 1) % seg;
        out.push(base);
        out.push(base + 1 + i);
        out.push(base + 1 + j);
        out.push(base);
        out.push(base + 1 + j);
        out.push(base + 1 + i);
        assert(numbers(out@) == numbers(old(out)@) + disc(base as int, seg as int, i as int) + seq![
            base as int,
            base + 1 + i,
            base + 1 + j,
            base as int,
            base + 1 + j,
            base + 1 + i,
        ]);
        i += 1;
    }
}

/// The first `n` triangles of a mesh, turned over.
pub open spec fn turned_over(indices: Seq<int>, n: int) -> Seq<int>
    decreases n,
{
    if n <= 0 {
        Seq::empty()
    } else {
        turned_over(indices, n - 1) + seq![
            indices[3 * n - 3],
            indices[3 * n - 1],
            indices[3 * n - 2],
        ]
    }
}

/// The triangles of a mesh, and all of them again turned over, so that it shows from
/// both sides.
pub fn both_ways(indices: &Vec<u32>) -> (out: Vec<u32>)
    ensures
        numbers(out@) == numbers(indices@) + turned_over(
            numbers(indices@),
            indices@.len() as int / 3,
        ),
{
    let mut out: Vec<u32> = Vec::new();
    let mut k: usize = 0;
    assert(numbers(out@) == numbers(indices@).take(0));
    while k < indices.len()
        invariant
            k <= indices@.len(),
            numbers(out@) == numbers(indices@).take(k as int),
        decreases indices@.len() - k,
    {
        let ghost before = numbers(out@);
        out.push(indices[k]);
        assert(numbers(out@) == before.push(numbers(indices@)[k as int]));
        k += 1;
        assert(numbers(indices@).take(k as int) == before.push(numbers(indices@)[k - 1]));
    }
    let n: usize = indices.len() / 3;
    let mut t: usize = 0;
    assert(numbers(out@) == numbers(indices@) + turned_over(numbers(indices@), 0));
    while t < n
        invariant
            t <= n,
            n == indices@.len() / 3,
            numbers(out@) == numbers(indices@) + turned_over(numbers(indices@), t as int),
        decreases n - t,
    {
        let len: usize = indices.len();
        let ghost before = numbers(out@);
        out.push(indices[3 * t]);
        out.push(indices[3 * t + 2]);
        out.push(indices[3 * t + 1]);
        assert(numbers(out@) == before + seq![
            numbers(indices@)[3 * t as int],
            numbers(indices@)[3 * t + 2],
            numbers(indices@)[3 * t + 1],
        ]);
        t += 1;
        assert(numbers(out@) == numbers(indices@) + turned_over(numbers(indices@), t as int));
    }
    out
}

/// The segments of the cup's rings.
pub const SEGMENTS: u32 = 16;

/// The bands of the cup, each a ring of quads: four up the outer wall, the rim, and
/// the inner wall.
pub const BANDS: u32 = 6;

/// The first `n` of quads that stand one after the other.
pub open spec fn quads(n: int) -> Seq<int>
    decreases n,
{
    if n <= 0 {
        Seq::empty()
    } else {
        quads(n - 1) + quad(4 * (n - 1))
    }
}

/// The triangles of the cup: its bands, then the inner floor and the foot.
pub fn cup_indices() -> (v: Vec<u32>)
    ensures
        numbers(v@) == quads(96) + disc(384, 16, 16) + disc(401, 16, 16),
{
    let mut v: Vec<u32> = Vec::new();
    let count: u32 = SEGMENTS * BANDS;
    let mut k: u32 = 0;
    assert(numbers(v@) == quads(0));
    while k < count
        invariant
            k <= count,
            count == 96,
            numbers(v@) == quads(k as int),
        decreases count - k,
    {
        push_quad(&mut v, 4 * k);
        k += 1;
    }
    push_disc(&mut v, 4 * count, SEGMENTS);
    push_disc(&mut v, 4 * count + SEGMENTS + 1, SEGMENTS);
    v
}

/// A face is made of distinct corners of its solid.
pub proof fn faces_join_distinct_corners(s: Solid, k: int)
    requires
        0 <= k < face_count(s),
    ensures
        face(s, k).len() >= 3,
        forall|i: int| 0 <= i < face(s, k).len() ==> 0 <= #[trigger] face(s, k)[i] < corner_count(s),
        face(s, k).no_duplicates(),
{
    lemma_around_is_short(k, 20);
    lemma_five_meet(k);
}

proof fn lemma_five_meet(corner: int)
    ensures
        0 <= corner < 12 ==> around(corner, 20).len() == 5,
{
    reveal_with_fuel(around, 21);
}

/// The triangles of the first `k` faces, two less than the corners of each.
pub open spec fn triangles(s: Solid, k: int) -> int
    decreases k,
{
    if k <= 0 {
        0
    } else {
        triangles(s, k - 1) + face(s, k - 1).len() - 2
    }
}

proof fn lemma_fan_length(base: int, n: int)
    requires
        2 <= n,
    ensures
        fan(base, n).len() == 3 * (n - 2),
    decreases n,
{
    if n > 2 {
        lemma_fan_length(base, n - 1);
    }
}

/// A face of `n` corners is cut into `n - 2` triangles, so a solid of triangles has as
/// many as faces, a cube two for each face, and a dodecahedron three.
pub proof fn faces_are_cut_into_triangles(s: Solid, k: int)
    requires
        0 <= k <= face_count(s),
    ensures
        cut(s, k).len() == 3 * triangles(s, k),
        triangles(s, k) == k * (if s == Solid::D6 {
            2int
        } else if s == Solid::D12 {
            3
        } else {
            1
        }),
    decreases k,
{
    if k > 0 {
        faces_are_cut_into_triangles(s, k - 1);
        faces_join_distinct_corners(s, k - 1);
        lemma_five_meet(k - 1);
        lemma_fan_length(laid(s, k - 1), face(s, k - 1).len() as int);
    }
}

/// What is seen from one side is seen from the other: each triangle of a quad has its
/// like with two corners exchanged.
pub proof fn quads_face_both_ways(base: int, t: int)
    requires
        0 <= t < 2,
    ensures
        quad(base)[6 + 3 * t] == quad(base)[3 * t],
        quad(base)[6 + 3 * t + 1] == quad(base)[3 * t + 2],
        quad(base)[6 + 3 * t + 2] == quad(base)[3 * t + 1],
{
    assert(t == 0 || t == 1);
}

/// Each of the usual dice has its own solid, and any other that of a d6. Each solid has as
/// many faces as the die has sides.
pub proof fn dice_have_their_solids(sides: int)
    ensures
        solid_of(4) == Solid::D4,
        solid_of(6) == Solid::D6,
        solid_of(8) == Solid::D8,
        solid_of(10) == Solid::D10,
        solid_of(12) == Solid::D12,
        solid_of(20) == Solid::D20,
        sides == 4 || sides == 6 || sides == 8 || sides == 10 || sides == 12 || sides == 20
            ==> face_count(solid_of(sides)) == sides,
        sides != 4 && sides != 8 && sides != 10 && sides != 12 && sides != 20 ==> solid_of(sides)
            == Solid::D6,
{
}

/// The solids close: their corners and faces outnumber their edges by two, where each edge
/// is shared by two faces.
pub proof fn solids_close(s: Solid)
    ensures
        2 * corner_count(s) + 2 * face_count(s) - laid(s, face_count(s)) == 4,
{
    reveal_with_fuel(laid, 21);
    lemma_five_meet(0);
    lemma_five_meet(1);
    lemma_five_meet(2);
    lemma_five_meet(3);
    lemma_five_meet(4);
    lemma_five_meet(5);
    lemma_five_meet(6);
    lemma_five_meet(7);
    lemma_five_meet(8);
    lemma_five_meet(9);
    lemma_five_meet(10);
    lemma_five_meet(11);
}

/// The faces of the d20, corner by corner.
pub proof fn the_d20_has_its_faces()
    ensures
        face(Solid::D20, 0) == seq![0int, 11, 5],
        face(Solid::D20, 1) == seq![0int, 5, 1],
        face(Solid::D20, 2) == seq![0int, 1, 7],
        face(Solid::D20, 3) == seq![0int, 7, 10],
        face(Solid::D20, 4) == seq![0int, 10, 11],
        face(Solid::D20, 5) == seq![1int, 5, 9],
        face(Solid::D20, 6) == seq![5int, 11, 4],
        face(Solid::D20, 7) == seq![11int, 10, 2],
        face(Solid::D20, 8) == seq![10int, 7, 6],
        face(Solid::D20, 9) == seq![7int, 1, 8],
        face(Solid::D20, 10) == seq![3int, 9, 4],
        face(Solid::D20, 11) == seq![3int, 4, 2],
        face(Solid::D20, 12) == seq![3int, 2, 6],
        face(Solid::D20, 13) == seq![3int, 6, 8],
        face(Solid::D20, 14) == seq![3int, 8, 9],
        face(Solid::D20, 15) == seq![4int, 9, 5],
        face(Solid::D20, 16) == seq![2int, 4, 11],
        face(Solid::D20, 17) == seq![6int, 2, 10],
        face(Solid::D20, 18) == seq![8int, 6, 7],
        face(Solid::D20, 19) == seq![9int, 8, 1],
{
}

/// The corners of the d12 are the faces of the d20: a face of the one joins, in order, all
/// faces of the other that meet at one corner.
pub proof fn the_d12_is_dual_to_the_d20(k: int, n: int, i: int)
    requires
        0 <= n,
    ensures
        face(Solid::D12, k) == around(k, 20),
        around(k, 0).len() == 0,
        face(Solid::D20, n).contains(k) ==> around(k, n + 1) == around(k, n).push(n),
        !face(Solid::D20, n).contains(k) ==> around(k, n + 1) == around(k, n),
{
    let f = face(Solid::D20, n);
    assert(f[0] == ico_face(n).0 && f[1] == ico_face(n).1 && f[2] == ico_face(n).2);
}

/// The faces of the d4, of the d8 and of the d10, corner by corner. Those of the d8 and of
/// the d10 join an end of an axis to neighbours around it.
pub proof fn small_solids_have_their_faces(k: int)
    ensures
        face(Solid::D4, 0) == seq![0int, 1, 2],
        face(Solid::D4, 1) == seq![0int, 1, 3],
        face(Solid::D4, 2) == seq![0int, 2, 3],
        face(Solid::D4, 3) == seq![1int, 2, 3],
        0 <= k < 8 ==> {
            let f = face(Solid::D8, k);
            &&& f.len() == 3
            &&& k == 4 * f[0] + 2 * (f[1] - 2) + (f[2] - 4)
            &&& 0 <= f[0] <= 1 && 2 <= f[1] <= 3 && 4 <= f[2] <= 5
        },
        0 <= k < 10 ==> {
            let f = face(Solid::D10, k);
            &&& f.len() == 3
            &&& 0 <= f[0] <= 1 && 2 <= f[1] <= 6 && 2 <= f[2] <= 6
            &&& k == 2 * (f[1] - 2) + f[0]
            &&& f[2] == if f[1] == 6 {
                2
            } else {
                f[1] + 1
            }
        },
{
}

/// A corner of the d6 counts as the sum of 1, 2 and 4 for those of its axes on which it
/// lies at the far end. A face holds the four corners that lie on its side of its axis.
pub proof fn cubes_count_their_corners_by_axis(k: int, i: int)
    requires
        0 <= k < 6,
        0 <= i < 4,
    ensures
        face(Solid::D6, k).len() == 4,
        ({
            let c = face(Solid::D6, k)[i];
            &&& 0 <= c < 8
            &&& k / 2 == 0 ==> c % 2 == k % 2
            &&& k / 2 == 1 ==> c / 2 % 2 == k % 2
            &&& k / 2 == 2 ==> c / 4 == k % 2
        }),
        face(Solid::D6, 0) == seq![0int, 4, 2, 6],
        face(Solid::D6, 1) == seq![1int, 5, 3, 7],
        face(Solid::D6, 2) == seq![0int, 1, 4, 5],
        face(Solid::D6, 3) == seq![2int, 3, 6, 7],
        face(Solid::D6, 4) == seq![0int, 2, 1, 3],
        face(Solid::D6, 5) == seq![4int, 6, 5, 7],
{
    assert(k / 2 == 0 || k / 2 == 1 || k / 2 == 2);
    assert(i == 0 || i == 1 || i == 2 || i == 3);
}

/// A face is cut into a fan of triangles around its first corner.
pub proof fn faces_are_cut_into_fans(base: int, n: int, j: int)
    requires
        0 <= j < n - 2,
    ensures
        fan(base, n).len() == 3 * (n - 2),
        fan(base, n)[3 * j] == base,
        fan(base, n)[3 * j + 1] == base + j + 1,
        fan(base, n)[3 * j + 2] == base + j + 2,
    decreases n,
{
    lemma_fan_length(base, n);
    lemma_fan_length(base, n - 1);
    if j < n - 3 {
        faces_are_cut_into_fans(base, n - 1, j);
    }
}

/// The corners of the faces are laid out one face after the other, and each face is cut
/// where it was laid.
pub proof fn faces_are_laid_out_in_order(s: Solid, k: int)
    requires
        0 <= k,
    ensures
        laid(s, 0) == 0,
        laid(s, k + 1) == laid(s, k) + face(s, k).len(),
        cut(s, 0).len() == 0,
        cut(s, k + 1) == cut(s, k) + fan(laid(s, k), face(s, k).len() as int),
{
}

/// Views of numbers and lists are those of each, in order.
pub proof fn places_go_one_by_one(v: Seq<usize>, u: Seq<u32>, faces: Seq<Vec<usize>>, k: int)
    ensures
        places(v).len() == v.len(),
        0 <= k < v.len() ==> places(v)[k] == v[k],
        numbers(u).len() == u.len(),
        0 <= k < u.len() ==> numbers(u)[k] == u[k],
        corner_lists(faces).len() == faces.len(),
        0 <= k < faces.len() ==> corner_lists(faces)[k] == places(faces[k]@),
{
}

/// A quad is two triangles that share the diagonal from its first corner to its third.
pub proof fn quads_are_two_triangles(base: int, n: int)
    requires
        0 <= n,
    ensures
        quad(base).len() == 12,
        quad(base)[0] == base && quad(base)[1] == base + 1 && quad(base)[2] == base + 2,
        quad(base)[3] == base && quad(base)[4] == base + 2 && quad(base)[5] == base + 3,
        quads(0).len() == 0,
        quads(n + 1) == quads(n) + quad(4 * n),
{
}

/// A disc is a wheel of triangles between its middle and each two neighbours on its rim,
/// the last of which is next to the first, and each is seen from both sides.
pub proof fn discs_go_all_round(base: int, seg: int, n: int)
    requires
        0 <= n < seg,
    ensures
        ({
            let before = disc(base, seg, n);
            let after = disc(base, seg, n + 1);
            let next = if n + 1 == seg {
                base + 1
            } else {
                base + n + 2
            };
            after == before + seq![base, base + n + 1, next, base, next, base + n + 1]
        }),
        disc(base, seg, 0).len() == 0,
{
    if n + 1 == seg {
        vstd::arithmetic::div_mod::lemma_mod_self_0(seg);
    } else {
        vstd::arithmetic::div_mod::lemma_small_mod((n + 1) as nat, seg as nat);
    }
}

/// Turning triangles over swaps the last two corners of each.
pub proof fn triangles_are_turned_over(indices: Seq<int>, n: int)
    requires
        0 <= n,
    ensures
        turned_over(indices, 0).len() == 0,
        turned_over(indices, n + 1) == turned_over(indices, n) + seq![
            indices[3 * n],
            indices[3 * n + 2],
            indices[3 * n + 1],
        ],
{
}

/// A mesh is that of a solid where it lists its faces in order and cuts each of them.
pub proof fn meshes_list_every_face(m: Mesh, s: Solid, k: int)
    requires
        m.is_of(s),
        0 <= k < face_count(s),
    ensures
        m.faces@.len() == face_count(s),
        places(m.faces@[k]@) == face(s, k),
        numbers(m.indices@) == cut(s, face_count(s)),
{
    assert(corner_lists(m.faces@)[k] == face(s, k));
    assert(corner_lists(m.faces@).len() == face_count(s));
}

} // verus!
