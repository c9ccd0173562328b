use rusty_gif::census::color_census;
use rusty_gif::quantize::{exact_frame, mapped_frame, quantize_frame, train_network};
use rusty_gif::route::{Policy, Route};

fn rgba(colors: &[(u8, u8, u8)], reps: usize) -> Vec<u8> {
    let mut v = Vec::new();
    for _ in 0..reps {
        for &(r, g, b) in colors {
            v.extend_from_slice(&[r, g, b, 0xFF]);
        }
    }
    v
}

fn many_colours(n: u32) -> Vec<(u8, u8, u8)> {
    (0..n).map(|i| ((i * 7 % 256) as u8, (i * 13 / 3 % 256) as u8, (i / 2 % 256) as u8)).collect()
}

fn rgb_dist(a: &[u8], b: &[u8]) -> i64 {
    (0..3).map(|c| (a[c] as i64 - b[c] as i64).pow(2)).sum()
}

#[test]
fn exact_frame_palette_in_census_order() {
    let px = rgba(&[(9, 9, 9), (1, 2, 3), (9, 9, 9)], 1);
    let colors = color_census(&px);
    let f = exact_frame(3, 1, &px, &colors, Some([9, 9, 9, 0xFF]));
    assert_eq!(f.palette, Some(vec![1, 2, 3, 9, 9, 9]));
    assert_eq!(f.buffer, vec![1, 0, 1]);
    assert_eq!(f.transparent, Some(1));
    assert_eq!((f.width, f.height), (3, 1));
}

#[test]
fn exact_frame_absent_transparent_is_slot_zero() {
    let px = rgba(&[(9, 9, 9), (1, 2, 3)], 2);
    let colors = color_census(&px);
    let f = exact_frame(2, 2, &px, &colors, Some([50, 50, 50, 0]));
    assert_eq!(f.transparent, Some(0));
    let f = exact_frame(2, 2, &px, &colors, None);
    assert_eq!(f.transparent, None);
}

#[test]
fn exact_route_keeps_transparent_colour() {
    let px = rgba(&[(10, 20, 30), (40, 50, 60)], 8);
    let q = quantize_frame(4, 4, &px, 1, Some([40, 50, 60, 0xFF]), Policy::Upstream);
    assert_eq!(q.route, Route::Exact);
    assert_eq!(q.unique_colors, 2);
    assert_eq!(q.stream_samples, None);
    assert_eq!(q.frame.transparent, Some(1));
    assert_eq!(q.frame.palette, Some(vec![10, 20, 30, 40, 50, 60]));
}

#[test]
fn empty_frame_is_exact_and_empty() {
    let q = quantize_frame(0, 0, &[], 1, None, Policy::Auto);
    assert_eq!(q.route, Route::Exact);
    assert_eq!(q.unique_colors, 0);
    assert!(q.frame.buffer.is_empty());
    assert_eq!(q.frame.palette, Some(vec![]));
}

#[test]
fn kmeans_route_maps_each_pixel_to_nearest_entry() {
    let px = rgba(&many_colours(600), 2);
    let q = quantize_frame(40, 30, &px, 1, Some([0, 0, 0, 0xFF]), Policy::Kmeans { iters: 2 });
    assert_eq!(q.route, Route::Histogram { iters: 2 });
    let pal = q.frame.palette.as_ref().unwrap();
    assert!(pal.len() % 3 == 0 && pal.len() >= 3 && pal.len() <= 768);
    assert_eq!(q.frame.buffer.len(), 1200);
    for (i, p) in px.chunks_exact(4).enumerate() {
        let idx = q.frame.buffer[i] as usize;
        let best = (0..pal.len() / 3)
            .min_by_key(|&e| (rgb_dist(p, &pal[e * 3..e * 3 + 3]), e))
            .unwrap();
        assert_eq!(idx, best, "pixel {i} not mapped to its nearest entry");
    }
    let t = q.frame.transparent.unwrap() as usize;
    let best_t = (0..pal.len() / 3)
        .min_by_key(|&e| (rgb_dist(&[0, 0, 0], &pal[e * 3..e * 3 + 3]), e))
        .unwrap();
    assert_eq!(t, best_t);
}

#[test]
fn unique_stream_counts_capped_samples() {
    let colours = many_colours(300);
    let px = rgba(&colours, 3);
    let unique = color_census(&px).len();
    assert!(unique > 256);
    let q = quantize_frame(30, 30, &px, 1, None, Policy::Unique { cap: 2 });
    assert_eq!(q.route, Route::UniqueStream { cap: 2 });
    assert_eq!(q.unique_colors, unique);
    // Every colour occurs at least 3 times, so each contributes exactly 2 samples.
    assert_eq!(q.stream_samples, Some(2 * unique));
    let pal = q.frame.palette.as_ref().unwrap();
    assert_eq!(pal.len(), 256 * 3);
    assert!(q.frame.buffer.iter().all(|&i| (i as usize) < 256));
}

#[test]
fn pixel_stream_uses_trained_network() {
    let px = rgba(&many_colours(400), 1);
    let q = quantize_frame(20, 20, &px, 10, Some([0, 0, 0, 0xFF]), Policy::Upstream);
    assert_eq!(q.route, Route::PixelStream { samplefac: 10 });
    let nq = color_quant::NeuQuant::new(10, 256, &px);
    assert_eq!(q.frame.palette, Some(nq.color_map_rgb()));
    for (i, p) in px.chunks_exact(4).enumerate() {
        assert_eq!(q.frame.buffer[i] as usize, nq.index_of(p));
    }
    assert_eq!(q.frame.transparent, Some(nq.index_of(&[0, 0, 0, 0xFF]) as u8));
}

#[test]
fn mapped_frame_follows_network_search() {
    let px = rgba(&[(200, 10, 10), (10, 200, 10), (10, 10, 200), (250, 250, 250)], 16);
    let colors = color_census(&px);
    let nq = train_network(1, 256, &px);
    let f = mapped_frame(8, 8, &px, &colors, &nq, Some([10, 200, 10, 0xFF]));
    assert_eq!(f.palette, Some(nq.color_map_rgb()));
    assert_eq!(f.palette.as_ref().unwrap().len(), 768);
    assert_eq!(f.buffer[1], f.transparent.unwrap());
    for (i, p) in px.chunks_exact(4).enumerate() {
        let idx = f.buffer[i] as usize;
        assert_eq!(idx, nq.index_of(p));
        assert!(idx < 256);
    }
}

#[test]
fn quantizing_twice_gives_the_same_frame() {
    let px = rgba(&many_colours(700), 2);
    for policy in [Policy::Auto, Policy::Unique { cap: 1 }, Policy::Budget { pixels: 500 }] {
        let a = quantize_frame(35, 40, &px, 3, None, policy);
        let b = quantize_frame(35, 40, &px, 3, None, policy);
        assert_eq!(a.route, b.route);
        assert_eq!(a.frame.buffer, b.frame.buffer);
        assert_eq!(a.frame.palette, b.frame.palette);
    }
}

#[test]
fn exact_and_histogram_routes_ignore_speed() {
    let px = rgba(&[(1, 2, 3), (4, 5, 6)], 4);
    let a = quantize_frame(4, 2, &px, 0, None, Policy::Auto);
    let b = quantize_frame(4, 2, &px, 99, None, Policy::Upstream);
    assert_eq!(a.route, Route::Exact);
    assert_eq!(a.frame.palette, b.frame.palette);
    assert_eq!(a.frame.buffer, b.frame.buffer);

    let px = rgba(&many_colours(300), 1);
    let c = quantize_frame(20, 15, &px, 0, None, Policy::Auto);
    let d = quantize_frame(20, 15, &px, 1, None, Policy::Auto);
    assert_eq!(c.route, Route::Histogram { iters: 3 });
    assert_eq!(c.frame.palette, d.frame.palette);
    assert_eq!(c.frame.buffer, d.frame.buffer);
}

#[test]
fn neuquant_transparent_names_a_palette_entry() {
    let px = rgba(&many_colours(300), 1);
    let q = quantize_frame(20, 15, &px, 5, Some([255, 255, 255, 0]), Policy::Unique { cap: 3 });
    assert_eq!(q.frame.palette.as_ref().unwrap().len(), 768);
    assert!((q.frame.transparent.unwrap() as usize) < 256);
}
