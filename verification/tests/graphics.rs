use base64::prelude::{Engine, BASE64_STANDARD};
use std::io::Read;
use tinhorn::paint::Rgb;
use tinhorn::graphics::{
    capped_scale, choose_mode, compress, delete_all_apc, delete_placement_apc, encode_apc,
    encode_apc_path, kitty_capable, quadrants_tile_cleanly, readback_cell, readback_stride,
    scale_for, strip_rows, GraphicsArg, GraphicsMode, CHUNK,
};

#[test]
fn kitty_capable_truth_table() {
    // Positive detections.
    assert!(kitty_capable("xterm-kitty", "", false, false));
    assert!(kitty_capable("xterm-ghostty", "", false, false));
    assert!(kitty_capable("xterm-256color", "", true, false)); // KITTY_WINDOW_ID
    assert!(kitty_capable("xterm-256color", "ghostty", false, false));
    assert!(kitty_capable("xterm-256color", "WezTerm", false, false)); // case-insensitive

    // Plain terminals are not capable.
    assert!(!kitty_capable(
        "xterm-256color",
        "Apple_Terminal",
        false,
        false
    ));
    assert!(!kitty_capable("", "", false, false));

    // The tmux/screen veto wins even when the multiplexer inherited the host's
    // KITTY_WINDOW_ID or a kitty TERM — the APC would be swallowed.
    assert!(!kitty_capable("xterm-kitty", "", true, true)); // $TMUX set
    assert!(!kitty_capable("screen", "", true, false)); // TERM=screen*
    assert!(!kitty_capable("tmux-256color", "", true, false)); // TERM=tmux*
    assert!(!kitty_capable("xterm-kitty", "ghostty", false, true)); // $TMUX vetoes kitty TERM
}

#[test]
fn quadrants_tile_cleanly_except_apple_terminal() {
    // Modern terminals tile the 2×2 glyphs pixel-perfect; macOS Terminal.app is
    // the one that seams them, so it (and only it) falls back to half-blocks.
    for tp in ["ghostty", "iTerm.app", "WezTerm", "vscode", ""] {
        assert!(quadrants_tile_cleanly(tp), "{tp} should tile quadrants");
    }
    assert!(!quadrants_tile_cleanly("Apple_Terminal"));
}

#[test]
fn scale_for_clamps_and_falls_back() {
    assert_eq!(scale_for(0), 8, "unreported pixel size falls back to 8");
    assert_eq!(scale_for(1), 2, "clamped up to the floor");
    assert_eq!(scale_for(2), 2); // round(1.0) = 1 -> clamped to 2
    assert_eq!(scale_for(16), 8, "a 16px cell -> 8 px per sub-pixel");
    assert_eq!(scale_for(20), 10);
    assert_eq!(scale_for(100), 12, "clamped down to the ceiling");
}

/// Build a row-padded RGBA buffer (wgpu layout) with a recognisable pattern in
/// the pixels and sentinel `0xAB` bytes filling the row padding, so a test can
/// prove that the pad is never read.
fn padded_rgba(img_w: u32, img_h: u32) -> Vec<u8> {
    let stride = readback_stride(img_w);
    let mut buf = vec![0xABu8; stride * img_h as usize]; // pad sentinel everywhere
    for y in 0..img_h as usize {
        for x in 0..img_w as usize {
            let i = y * stride + x * 4;
            buf[i] = (x * 7 + y * 3) as u8;
            buf[i + 1] = (x * 5 + y * 11) as u8;
            buf[i + 2] = (x * 13 + y * 17) as u8;
            buf[i + 3] = 255;
        }
    }
    buf
}

/// Parse an APC escape stream back into `(control-string, payload-bytes)` per
/// chunk. Each chunk is `ESC _ G <control> ; <payload> ESC \`.
fn parse_apcs(stream: &[u8]) -> Vec<(String, Vec<u8>)> {
    let mut chunks = Vec::new();
    let mut i = 0;
    while i < stream.len() {
        assert_eq!(&stream[i..i + 3], b"\x1b_G", "chunk must open with ESC _ G");
        i += 3;
        let semi = i + stream[i..].iter().position(|&b| b == b';').unwrap();
        let control = String::from_utf8(stream[i..semi].to_vec()).unwrap();
        i = semi + 1;
        // Payload runs to the ST terminator ESC \.
        let mut j = i;
        while !(stream[j] == 0x1b && stream[j + 1] == b'\\') {
            j += 1;
        }
        let payload = stream[i..j].to_vec();
        chunks.push((control, payload));
        i = j + 2; // skip ESC \
    }
    chunks
}

/// Inflate zlib bytes back to raw.
fn inflate(data: &[u8]) -> Vec<u8> {
    let mut out = Vec::new();
    flate2::read::ZlibDecoder::new(data)
        .read_to_end(&mut out)
        .unwrap();
    out
}

#[test]
fn encode_frame_round_trips_multi_chunk() {
    // Incompressible-ish RGB big enough to force several base64 chunks: a hash
    // pattern zlib can't shrink below the 4096-byte chunk size.
    let n = 9000usize;
    let rgb: Vec<u8> = (0..n)
        .map(|i| {
            let mut h = (i as u32).wrapping_mul(2_654_435_761);
            h ^= h >> 15;
            h as u8
        })
        .collect();
    let stream = encode_apc(&compress(&rgb), 60, 50, 30, 25);
    let chunks = parse_apcs(&stream);
    assert!(chunks.len() >= 2, "the payload should span multiple chunks");

    // Header lives on the first chunk only, with all the load-bearing keys.
    let head = &chunks[0].0;
    for key in [
        "a=T",
        "f=24",
        "o=z",
        "i=1",
        "p=1",
        "z=-1073741825",
        "C=1",
        "q=2",
        "s=60",
        "v=50",
        "c=30",
        "r=25",
    ] {
        assert!(
            head.contains(key),
            "first chunk header missing {key}: {head}"
        );
    }

    // m flags: 1 on every chunk but the last, 0 on the last. Middle/last chunks
    // carry only the m key.
    for (idx, (control, payload)) in chunks.iter().enumerate() {
        assert!(payload.len() <= CHUNK, "chunk {idx} payload exceeds 4096");
        let is_last = idx == chunks.len() - 1;
        assert!(
            control.contains(if is_last { "m=0" } else { "m=1" }),
            "chunk {idx} wrong m flag: {control}"
        );
        if idx > 0 {
            assert_eq!(control, if is_last { "m=0" } else { "m=1" });
        }
    }

    // Strip wrappers → base64-decode → inflate → byte-identical RGB.
    let b64: Vec<u8> = chunks.iter().flat_map(|(_, p)| p.clone()).collect();
    let compressed = BASE64_STANDARD.decode(b64).unwrap();
    assert_eq!(
        inflate(&compressed),
        rgb,
        "round-trip must reproduce the RGB"
    );
}

#[test]
fn encode_frame_single_chunk() {
    // A tiny, compressible frame fits one chunk: full header AND m=0.
    let rgb = vec![7u8; 30];
    let stream = encode_apc(&compress(&rgb), 5, 2, 5, 1);
    let chunks = parse_apcs(&stream);
    assert_eq!(chunks.len(), 1, "small frames fit a single chunk");
    assert!(chunks[0].0.contains("a=T"));
    assert!(
        chunks[0].0.contains("m=0"),
        "the sole chunk is the last chunk"
    );
    let compressed = BASE64_STANDARD.decode(chunks[0].1.clone()).unwrap();
    assert_eq!(inflate(&compressed), rgb);
}

#[test]
fn delete_escapes_are_exact() {
    assert_eq!(delete_placement_apc(), b"\x1b_Ga=d,d=i,i=1,p=1,q=2;\x1b\\");
    assert_eq!(delete_all_apc(), b"\x1b_Ga=d,d=I,i=1,q=2;\x1b\\");
}

#[test]
fn file_apc_carries_the_base64_path_and_t_f() {
    let apc = encode_apc_path("/tmp/tinhorn-42.rgb", 60, 50, 30, 25);
    let chunks = parse_apcs(&apc);
    assert_eq!(chunks.len(), 1, "a path fits one APC");
    let (control, payload) = &chunks[0];
    // File transfer, raw RGB (no o=z), our fixed ids, and the pixel/cell dims.
    for key in [
        "a=T", "f=24", "t=f", "i=1", "p=1", "s=60", "v=50", "c=30", "r=25",
    ] {
        assert!(control.contains(key), "header missing {key}: {control}");
    }
    assert!(!control.contains("o=z"), "the file holds raw RGB, no zlib");
    // The payload is the base64-encoded path.
    let decoded = BASE64_STANDARD.decode(payload).unwrap();
    assert_eq!(decoded, b"/tmp/tinhorn-42.rgb");
}

#[test]
fn pack_rgb_strips_padding_and_alpha() {
    let (w, h) = (70u32, 4u32);
    let stride = readback_stride(w);
    assert_eq!(stride, 512);
    let rgba = padded_rgba(w, h);
    let rgb = strip_rows(&rgba, w, h).expect("a full-size buffer packs");
    assert_eq!(rgb.len(), (w * h * 3) as usize);
    for (px, py) in [(0u32, 0u32), (w / 2, h / 2), (w - 1, h - 1), (w - 1, 0)] {
        let si = py as usize * stride + px as usize * 4;
        let di = (py * w + px) as usize * 3;
        assert_eq!(&rgb[di..di + 3], &rgba[si..si + 3]);
    }
    assert!(strip_rows(&rgba[..stride].to_vec(), w, h).is_none());
    assert!(strip_rows(&Vec::new(), w, h).is_none());
    assert!(strip_rows(&rgba, 0, h).is_none());
    assert!(strip_rows(&rgba, w, 0).is_none());
}

#[test]
fn the_stride_is_a_multiple_of_256() {
    assert_eq!(readback_stride(0), 0);
    assert_eq!(readback_stride(1), 256);
    assert_eq!(readback_stride(64), 256);
    assert_eq!(readback_stride(65), 512);
}

#[test]
fn the_flag_overrides_the_environment() {
    let blocks = GraphicsMode::Blocks { half_block: false };
    assert_eq!(
        choose_mode(GraphicsArg::Auto, "xterm-kitty", "", false, false, 8),
        GraphicsMode::Kitty { scale: 8 }
    );
    assert_eq!(
        choose_mode(GraphicsArg::Auto, "xterm", "", false, false, 8),
        blocks
    );
    assert_eq!(
        choose_mode(GraphicsArg::Blocks, "xterm-kitty", "", false, false, 8),
        blocks
    );
    assert_eq!(
        choose_mode(GraphicsArg::Kitty, "xterm", "", false, true, 5),
        GraphicsMode::Kitty { scale: 5 }
    );
    assert_eq!(
        choose_mode(GraphicsArg::Auto, "xterm", "Apple_Terminal", false, false, 8),
        GraphicsMode::Blocks { half_block: true }
    );
}

#[test]
fn an_empty_payload_is_one_empty_escape() {
    let stream = encode_apc(&[], 1, 2, 3, 4);
    assert_eq!(
        stream,
        b"\x1b_Ga=T,f=24,o=z,i=1,p=1,z=-1073741825,C=1,q=2,s=1,v=2,c=3,r=4,m=0;\x1b\\"
    );
}

#[test]
fn a_chunk_is_full_before_the_next_begins() {
    // 3072 bytes make exactly one chunk of base64.
    let one = encode_apc(&vec![9u8; 3072], 1, 1, 1, 1);
    let chunks = parse_apcs(&one);
    assert_eq!(chunks.len(), 1);
    assert_eq!(chunks[0].1.len(), CHUNK);
    let two = encode_apc(&vec![9u8; 3073], 1, 1, 1, 1);
    let chunks = parse_apcs(&two);
    assert_eq!(chunks.len(), 2);
    assert_eq!(chunks[0].1.len(), CHUNK);
    assert_eq!(chunks[1].1.len(), 4);
    assert_eq!(chunks[1].0, "m=0");
}

#[test]
fn cells_take_two_pixels_of_a_readback() {
    let rgba = padded_rgba(70, 5);
    // The pixels in column 3 of the rows 2 and 3.
    let want = (Rgb(27, 37, 73), Rgb(30, 48, 90));
    assert_eq!(readback_cell(&rgba, 70, 5, 3, 1), Some(want));
    // Beyond the edge, the last pixel before it.
    let last = Rgb((69 * 7 + 12) as u8, (69 * 5 + 44) as u8, (69 * 13 + 68) as u16 as u8);
    assert_eq!(readback_cell(&rgba, 70, 5, 99, 9), Some((last, last)));
    assert_eq!(readback_cell(&rgba[1..].to_vec(), 70, 5, 0, 0), None);
    assert_eq!(readback_cell(&rgba, 0, 5, 0, 0), None);
    assert_eq!(readback_cell(&rgba, 70, 0, 0, 0), None);
}

#[test]
fn payloads_are_standard_base64() {
    let carried = |payload: &[u8]| parse_apcs(&encode_apc(payload, 1, 1, 1, 1)).remove(0).1;
    assert_eq!(carried(b""), b"");
    assert_eq!(carried(b"f"), b"Zg==");
    assert_eq!(carried(b"fo"), b"Zm8=");
    assert_eq!(carried(b"foo"), b"Zm9v");
    assert_eq!(carried(b"foob"), b"Zm9vYg==");
    assert_eq!(carried(&[0xfb, 0xff, 0xbf, 0x00]), b"+/+/AA==");
    assert_eq!(carried(&[0x00, 0x10, 0x83, 0x10, 0x51, 0x87]), b"ABCDEFGH");
}

#[test]
fn the_filling_of_a_readback_does_not_count() {
    let plain = padded_rgba(70, 5);
    let mut other = plain.clone();
    let stride = readback_stride(70);
    for y in 0..5 {
        for x in 0..70 {
            other[y * stride + x * 4 + 3] ^= 0x5a;
        }
        for at in y * stride + 280..(y + 1) * stride {
            other[at] = 0xee;
        }
    }
    other.extend([1, 2, 3]);
    let rgb = strip_rows(&plain, 70, 5).unwrap();
    assert_eq!(rgb.len(), 3 * 70 * 5);
    assert_eq!(strip_rows(&other, 70, 5).unwrap(), rgb);
}

#[test]
fn the_image_scale_keeps_a_row_within_the_widest() {
    assert_eq!(capped_scale(100, 8), 8);
    assert_eq!(capped_scale(200, 8), 8);
    assert_eq!(capped_scale(201, 8), 7);
    assert_eq!(capped_scale(400, 12), 4);
    assert_eq!(capped_scale(1600, 12), 1);
    assert_eq!(capped_scale(5000, 12), 1, "never less than the picture itself");
    assert_eq!(capped_scale(10, 0), 1);
}
