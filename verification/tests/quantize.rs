use rusty_gif::quantize::quantize_frame;
use rusty_gif::route::{route_auto, Policy, Route};

fn rgba(colors: &[(u8, u8, u8)], reps: usize) -> Vec<u8> {
    let mut v = Vec::new();
    for _ in 0..reps {
        for &(r, g, b) in colors {
            v.extend_from_slice(&[r, g, b, 0xFF]);
        }
    }
    v
}

/// At most 256 unique colors must take the exact route and reproduce the
/// input losslessly through palette + indices.
#[test]
fn exact_route_fires_and_is_lossless() {
    let colors: Vec<(u8, u8, u8)> =
        (0..64u16).map(|i| (i as u8, (i * 2) as u8, 255 - i as u8)).collect();
    let px = rgba(&colors, 16); // 1024 px, 64 unique
    let frame = quantize_frame(32, 32, &px, 1, None, Policy::Auto).frame;
    let pal = frame.palette.as_ref().unwrap();
    assert_eq!(pal.len(), 64 * 3);
    for (i, p) in px.chunks_exact(4).enumerate() {
        let idx = frame.buffer[i] as usize;
        assert_eq!(&pal[idx * 3..idx * 3 + 3], &p[..3], "pixel {i} not lossless");
    }
}

/// The shipped auto-routing tiers, pinned at their boundaries.
#[test]
fn auto_route_boundaries() {
    assert_eq!(route_auto(257, 100_000, 1), Route::Histogram { iters: 3 });
    assert_eq!(route_auto(32_768, 100_000, 1), Route::Histogram { iters: 3 });
    assert_eq!(route_auto(32_769, 100_000, 1), Route::Histogram { iters: 2 });
    assert_eq!(route_auto(49_152, 100_000, 1), Route::Histogram { iters: 2 });
    assert_eq!(route_auto(49_153, 100_000, 1), Route::Histogram { iters: 1 });
    assert_eq!(route_auto(65_536, 100_000, 1), Route::Histogram { iters: 1 });
    // High diversity goes to budget-sampled NeuQuant, samplefac from pixel count.
    assert_eq!(route_auto(65_537, 2_073_600, 1), Route::PixelStream { samplefac: 17 });
    assert_eq!(route_auto(65_537, 100_000, 1), Route::PixelStream { samplefac: 1 });
}

/// Every auto arm must actually execute end-to-end: exact, k-means
/// histogram, and NeuQuant pixel-stream.
#[test]
fn all_auto_arms_execute() {
    // Exact: 2 colors.
    let px = rgba(&[(0, 0, 0), (255, 255, 255)], 64);
    let f = quantize_frame(16, 8, &px, 1, None, Policy::Auto).frame;
    assert_eq!(f.palette.as_ref().unwrap().len(), 2 * 3);

    // Histogram (k-means): ~1k unique colors.
    let colors: Vec<(u8, u8, u8)> =
        (0..1024u32).map(|i| ((i % 256) as u8, (i / 4) as u8, 77)).collect();
    let px = rgba(&colors, 1);
    let f = quantize_frame(32, 32, &px, 1, None, Policy::Auto).frame;
    assert!(f.palette.as_ref().unwrap().len() <= 256 * 3);
    assert_eq!(f.buffer.len(), 1024);

    // PixelStream (NeuQuant): more than 65_536 unique colors.
    let mut px = Vec::with_capacity(66_000 * 4);
    for i in 0..66_000u32 {
        // Distinct RGB per pixel.
        px.extend_from_slice(&[
            (i & 0xFF) as u8,
            ((i >> 8) & 0xFF) as u8,
            ((i >> 16) as u8) | 0x40,
            0xFF,
        ]);
    }
    let f = quantize_frame(300, 220, &px, 1, None, Policy::Auto).frame;
    assert!(f.palette.as_ref().unwrap().len() <= 256 * 3);
    assert_eq!(f.buffer.len(), 66_000);
}

/// More than 256 unique colors must take the quantizer route and still map
/// every pixel to an in-range palette index.
#[test]
fn unique_stream_route_fires() {
    let colors: Vec<(u8, u8, u8)> =
        (0..512u16).map(|i| ((i / 2) as u8, (i % 256) as u8, (i / 3) as u8)).collect();
    let px = rgba(&colors, 2); // 1024 px, more than 256 unique
    let frame = quantize_frame(32, 32, &px, 1, None, Policy::Auto).frame;
    let pal_len = frame.palette.as_ref().unwrap().len() / 3;
    assert!(pal_len <= 256);
    assert!(frame.buffer.iter().all(|&i| (i as usize) < pal_len));
}
