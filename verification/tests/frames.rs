use tinhorn::bake::{
    cached_texture, chip_rgb, grain, hiss, scatter, stack_height, Shelf, MAX_TEXTURES,
};
use tinhorn::frame::{
    color_rgb, frame_pixels, frame_text, rates_overlay, snap_step, FrameCell, Rates, SnapStep, Tint,
};
use tinhorn::graphics::GraphicsMode;
use tinhorn::paint::{hash32, Rgb, Texture};
use tinhorn::solids::{
    both_ways, cup_indices, face_corners, mesh_for, push_disc, push_quad, solid_for, Solid,
};

#[test]
fn every_die_has_the_right_face_count() {
    // triangle_count = faces × (corners − 2): triangles as-is, squares ×2,
    // pentagons ×3.
    assert_eq!(mesh_for(4).triangle_count(), 4);
    assert_eq!(mesh_for(6).triangle_count(), 12);
    assert_eq!(mesh_for(8).triangle_count(), 8);
    assert_eq!(mesh_for(10).triangle_count(), 10);
    assert_eq!(mesh_for(12).triangle_count(), 36);
    assert_eq!(mesh_for(20).triangle_count(), 20);
    assert_eq!(mesh_for(100).triangle_count(), 12, "fallback is the cube");
}

#[test]
fn odd_dice_are_cubes() {
    assert_eq!(solid_for(4), Solid::D4);
    assert_eq!(solid_for(20), Solid::D20);
    assert_eq!(solid_for(6), Solid::D6);
    assert_eq!(solid_for(100), Solid::D6);
    assert_eq!(solid_for(1), Solid::D6);
}

#[test]
fn solids_are_closed() {
    // Every edge belongs to two faces. The corners of a square stand as those of a
    // letter Z, and those of a pentagon in no order, so only triangles are asked.
    for sides in [4, 8, 10, 20] {
        let mesh = mesh_for(sides);
        let mut edges = Vec::new();
        for f in &mesh.faces {
            assert_eq!(f.len(), 3);
            for k in 0..3 {
                let (a, b) = (f[k], f[(k + 1) % 3]);
                edges.push((a.min(b), a.max(b)));
            }
        }
        for e in &edges {
            assert_eq!(edges.iter().filter(|o| *o == e).count(), 2, "d{sides}: {e:?}");
        }
    }
    // Each corner of a cube belongs to three faces, and of a dodecahedron too.
    for (sides, corners) in [(6, 8), (12, 20)] {
        let mesh = mesh_for(sides);
        for c in 0..corners {
            assert_eq!(mesh.faces.iter().filter(|f| f.contains(&c)).count(), 3);
        }
    }
}

#[test]
fn faces_by_their_corners() {
    assert_eq!(face_corners(Solid::D6, 0), [0, 4, 2, 6]);
    assert_eq!(face_corners(Solid::D6, 5), [4, 6, 5, 7]);
    assert_eq!(face_corners(Solid::D8, 5), [1, 2, 5]);
    assert_eq!(face_corners(Solid::D10, 9), [1, 6, 2]);
    assert_eq!(face_corners(Solid::D12, 0), [0, 1, 2, 3, 4]);
    assert_eq!(face_corners(Solid::D12, 11), [0, 4, 6, 7, 16]);
    assert_eq!(face_corners(Solid::D20, 7), [11, 10, 2]);
    assert_eq!(mesh_for(6).indices[..9], [0, 1, 2, 0, 2, 3, 4, 5, 6]);
}

#[test]
fn the_cup_is_seen_from_inside_and_outside() {
    let mut quad = Vec::new();
    push_quad(&mut quad, 8);
    assert_eq!(quad, [8, 9, 10, 8, 10, 11, 8, 10, 9, 8, 11, 10]);
    let mut disc = Vec::new();
    push_disc(&mut disc, 5, 3);
    assert_eq!(disc, [5, 6, 7, 5, 7, 6, 5, 7, 8, 5, 8, 7, 5, 8, 6, 5, 6, 8]);
    let cup = cup_indices();
    assert_eq!(cup.len(), 96 * 12 + 2 * 16 * 6);
    let triangles: Vec<&[u32]> = cup.chunks(3).collect();
    for t in &triangles {
        assert!(triangles.contains(&&[t[0], t[2], t[1]][..]));
    }
    assert_eq!(cup.iter().max(), Some(&417));
}

fn texture(k: u8) -> Texture {
    Texture::from_rgba(1, 1, vec![k; 4])
}

#[test]
fn textures_are_baked_once_and_the_oldest_goes() {
    let mut shelf = Shelf::new();
    for k in 0..6u8 {
        assert_eq!(cached_texture(&mut shelf, Rgb(k, 0, 0), || texture(k)), k as usize);
    }
    assert_eq!(cached_texture(&mut shelf, Rgb(2, 0, 0), || panic!("baked twice")), 2);
    assert_eq!(cached_texture(&mut shelf, Rgb(9, 0, 0), || texture(9)), 5);
    assert_eq!(shelf.slots.len(), MAX_TEXTURES);
    assert_eq!(shelf.slots[5].1.data, [9; 4]);
    assert_eq!(shelf.find(Rgb(0, 0, 0)), None);
    assert_eq!(shelf.find(Rgb(1, 0, 0)), Some(0));
}

#[test]
fn grain_and_noise() {
    assert_eq!(grain(3, 4), hash32(3 * 1973 + 4 * 9277 + 26699));
    let mut x = 0x9e37_79b9u32;
    for _ in 0..1000 {
        let mut y = x;
        y ^= y << 13;
        y ^= y >> 17;
        y ^= y << 5;
        assert_eq!(hiss(x), y);
        assert_ne!(y, 0);
        x = y;
    }
    assert_eq!(hiss(1), 270369);
    for n in [0u32, 1, 2, 77, u32::MAX] {
        let mut x = n.wrapping_mul(747_796_405).wrapping_add(2_891_336_453);
        x ^= x >> 16;
        x = x.wrapping_mul(0x7feb_352d);
        x ^= x >> 15;
        assert_eq!(scatter(n), x % 100_000);
    }
}

fn rates(fps: &str) -> Rates {
    Rates {
        fps: fps.into(),
        rest: "1".into(),
        pack: "3".into(),
        zip: "78".into(),
        b64: "4".into(),
        wr: "5".into(),
    }
}

#[test]
fn fps_overlay_shows_kitty_stage_breakdown() {
    let kitty = GraphicsMode::Kitty { scale: 12 };
    let (column, row) = rates_overlay(kitty, 80, &rates("11"), 1440, 1080).unwrap();
    assert!(row.contains("11fps"), "frame rate missing: {row:?}");
    assert!(row.contains("1440×1080"), "render size missing: {row:?}");
    assert!(row.contains("zip 78"), "the zlib stage time must show: {row:?}");
    assert!(row.contains("wr 5"), "the write stage time must show: {row:?}");
    assert_eq!(row, " 11fps 1440×1080  rest 1 pack 3 zip 78 b64 4 wr 5 ms ");
    assert_eq!(column as usize, 80 - row.chars().count() - 1);
}

#[test]
fn fps_overlay_falls_back_and_skips() {
    // Blocks short form fits a modest width…
    let blocks = GraphicsMode::Blocks { half_block: false };
    let (_, wide) = rates_overlay(blocks, 40, &rates("60"), 240, 180).unwrap();
    assert!(wide.contains("60 fps"), "{wide:?}");
    assert_eq!(wide, "   60 fps · blocks 240×180 ");
    // …but a tiny frame is skipped, not panicking or corrupting the row.
    assert!(rates_overlay(blocks, 10, &rates("30"), 200, 160).is_none());
    // A border too narrow for the breakdown gets the short form.
    let kitty = GraphicsMode::Kitty { scale: 8 };
    let (_, short) = rates_overlay(kitty, 40, &rates("12345"), 240, 180).unwrap();
    assert_eq!(short, " 12345 fps · kitty 240×180 ");
    assert!(rates_overlay(kitty, 1, &rates("1"), 1, 1).is_none());
}

#[test]
fn snapshots_wait_for_the_roll() {
    assert_eq!(snap_step(19, None, true, true), SnapStep::Wait);
    assert_eq!(snap_step(20, None, true, true), SnapStep::Take);
    assert_eq!(snap_step(20, None, false, true), SnapStep::Wait);
    assert_eq!(snap_step(20, None, true, false), SnapStep::Wait);
    assert_eq!(snap_step(5, Some(5), true, false), SnapStep::Take);
    assert_eq!(snap_step(5, Some(5), false, true), SnapStep::Wait);
    assert_eq!(snap_step(600, None, false, false), SnapStep::TakeLate);
}

fn cell(symbol: &str, fg: Tint, bg: Tint) -> FrameCell {
    FrameCell { symbol: symbol.into(), fg, bg }
}

#[test]
fn frames_become_pictures_and_text() {
    let red = Tint::Exact(Rgb(1, 2, 3));
    let cells = vec![
        cell("▀", red, Tint::Black),
        cell("a", Tint::White, Tint::Black),
        cell("▀", Tint::Plain, red),
        cell("é", Tint::DarkGray, red),
    ];
    let px = frame_pixels(&cells, 2, 2);
    let want: [[u8; 4]; 8] = [
        [1, 2, 3, 255],
        [230, 230, 230, 255],
        [0, 0, 0, 255],
        [230, 230, 230, 255],
        [13, 17, 23, 255],
        [90, 90, 90, 255],
        [1, 2, 3, 255],
        [90, 90, 90, 255],
    ];
    assert_eq!(px, want.concat());
    assert_eq!(frame_text(&cells, 2, 2), "\n a\n é\n");
    assert_eq!(color_rgb(Tint::LightBlue), Rgb(130, 170, 240));
    assert!(frame_pixels(&Vec::new(), 0, 3).is_empty());
}

#[test]
fn the_stacks_end_in_chips_of_different_colours() {
    // No red on top of the four stacks, which would draw the eye off the dice.
    let tops: Vec<Rgb> = (0..4).map(|s| chip_rgb(s, stack_height(s) as u32 - 1)).collect();
    for (k, c) in tops.iter().enumerate() {
        assert_ne!(*c, Rgb(198, 44, 44));
        assert!(!tops[..k].contains(c));
    }
    let number = |s: u32, k: u32| {
        hash32(s.wrapping_mul(0x9E37_79B1).wrapping_add(k.wrapping_mul(2_246_822_519)).wrapping_add(1))
    };
    for s in 0..9 {
        assert_eq!(stack_height(s), 3 + (number(s, 7) % 5) as usize);
    }
}

#[test]
fn meshes_turned_over() {
    assert_eq!(both_ways(&vec![1, 2, 3, 4, 5, 6]), [1, 2, 3, 4, 5, 6, 1, 3, 2, 4, 6, 5]);
    assert!(both_ways(&Vec::new()).is_empty());
}
