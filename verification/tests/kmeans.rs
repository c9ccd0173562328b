use rusty_gif::kmeans::{palette_kmeans, WPoint};

#[test]
fn recovers_exact_clusters() {
    // 4 well-separated colors, heavily weighted: palette must contain
    // all of them exactly after refinement.
    let pts: Vec<WPoint> = [
        ([0, 0, 0, 255], 1000),
        ([255, 0, 0, 255], 800),
        ([0, 255, 0, 255], 600),
        ([0, 0, 255, 255], 400),
    ]
    .iter()
    .map(|&(c, w)| WPoint { c, w })
    .collect();
    let pal = palette_kmeans(&pts, 4, 3);
    for (pi, p) in pts.iter().enumerate() {
        let got = pal.colors[pal.assignment[pi] as usize].map(|v| v as i32);
        assert_eq!(got, p.c, "cluster {pi} not recovered");
    }
}

#[test]
fn weight_dominates_palette_placement() {
    // One massive flat color + a spray of rare colors: the flat color
    // must map to itself exactly.
    let mut pts = vec![WPoint { c: [40, 90, 200, 255], w: 1_000_000 }];
    for i in 0..1000u32 {
        pts.push(WPoint {
            c: [(i % 256) as i32, (i / 4 % 256) as i32, (i / 16 % 256) as i32, 255],
            w: 1,
        });
    }
    let pal = palette_kmeans(&pts, 256, 3);
    let got = pal.colors[pal.assignment[0] as usize].map(|v| v as i32);
    assert_eq!(got, [40, 90, 200, 255], "heavy flat color not preserved exactly");
}

#[test]
fn dist2_sums_squared_channel_differences() {
    assert_eq!(rusty_gif::kmeans::dist2([0, 0, 0, 0], [3, 4, 0, 0]), 25);
    assert_eq!(rusty_gif::kmeans::dist2([255, 0, 255, 0], [0, 255, 0, 255]), 4 * 255 * 255);
    assert_eq!(rusty_gif::kmeans::dist2([-5, 7, 1, 1], [5, 7, 1, 2]), 101);
}

#[test]
fn single_entry_palette_is_weighted_mean() {
    let pts = vec![
        WPoint { c: [0, 0, 0, 255], w: 3 },
        WPoint { c: [100, 0, 0, 255], w: 1 },
    ];
    let pal = palette_kmeans(&pts, 1, 1);
    assert_eq!(pal.colors, vec![[25, 0, 0, 255]]);
    assert_eq!(pal.assignment, vec![0, 0]);
}

#[test]
fn fewer_colours_than_k_keeps_each_colour() {
    let pts = vec![
        WPoint { c: [10, 20, 30, 255], w: 5 },
        WPoint { c: [200, 100, 0, 255], w: 1 },
    ];
    let pal = palette_kmeans(&pts, 4, 2);
    assert_eq!(pal.colors.len(), 2);
    for (i, p) in pts.iter().enumerate() {
        assert_eq!(pal.colors[pal.assignment[i] as usize].map(|v| v as i32), p.c);
    }
}

#[test]
fn mean_rounds_half_up() {
    // weighted mean red = (1 * 1 + 2 * 1) / 2 = 1.5 -> 2
    let pts = vec![
        WPoint { c: [1, 0, 0, 255], w: 1 },
        WPoint { c: [2, 0, 0, 255], w: 1 },
    ];
    let pal = palette_kmeans(&pts, 1, 1);
    assert_eq!(pal.colors, vec![[2, 0, 0, 255]]);
}

#[test]
fn at_most_k_colours_are_kept_exactly() {
    let pts: Vec<WPoint> = (0..200u32)
        .map(|i| WPoint {
            c: [(i * 37 % 256) as i32, (i * 11 % 251) as i32, (i % 7 * 30) as i32, 255],
            w: (i % 5 + 1) as u64,
        })
        .collect();
    let pal = palette_kmeans(&pts, 256, 3);
    assert!(pal.colors.len() <= 256);
    for (i, p) in pts.iter().enumerate() {
        assert_eq!(pal.colors[pal.assignment[i] as usize].map(|v| v as i32), p.c);
    }
}

#[test]
fn zero_iterations_run_one_round() {
    let pts: Vec<WPoint> = (0..40u32)
        .map(|i| WPoint { c: [(i * 6) as i32, (255 - i * 5) as i32, (i % 3 * 80) as i32, 255], w: (i % 4 + 1) as u64 })
        .collect();
    let a = palette_kmeans(&pts, 8, 0);
    let b = palette_kmeans(&pts, 8, 1);
    assert_eq!(a.colors, b.colors);
    assert_eq!(a.assignment, b.assignment);
    assert_eq!(a.colors.len(), 8);
}
