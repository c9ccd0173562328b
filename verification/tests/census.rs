use rusty_gif::census::{color_census, key, pixel_keys_of};

#[test]
fn key_is_little_endian() {
    assert_eq!(key(&[1, 2, 3, 4]), 0x0403_0201);
    assert_eq!(key(&[0xFF, 0, 0, 0x80]), 0x8000_00FF);
}

#[test]
fn pixel_keys_ignore_partial_pixel() {
    assert_eq!(pixel_keys_of(&[1, 2, 3, 4, 5, 6]), vec![0x0403_0201]);
    assert_eq!(pixel_keys_of(&[]), Vec::<u32>::new());
}

#[test]
fn census_sorted_by_rgba_with_counts() {
    let px: Vec<u8> = vec![
        2, 0, 0, 255, //
        1, 9, 9, 255, //
        2, 0, 0, 255, //
        1, 0, 0, 255, //
        2, 0, 0, 255, //
        1, 0, 0, 255, //
        7, 7, // partial pixel, ignored
    ];
    let census = color_census(&px);
    assert_eq!(
        census,
        vec![
            (key(&[1, 0, 0, 255]), 2),
            (key(&[1, 9, 9, 255]), 1),
            (key(&[2, 0, 0, 255]), 3),
        ]
    );
}

#[test]
fn census_orders_alpha_last() {
    let px: Vec<u8> = vec![5, 5, 5, 255, 5, 5, 5, 0, 4, 200, 200, 1];
    let census = color_census(&px);
    assert_eq!(
        census,
        vec![(key(&[4, 200, 200, 1]), 1), (key(&[5, 5, 5, 0]), 1), (key(&[5, 5, 5, 255]), 1)]
    );
}

#[test]
fn census_of_nothing_is_empty() {
    assert!(color_census(&[]).is_empty());
}

#[test]
fn census_ignores_pixel_order() {
    let a: Vec<u8> = vec![9, 9, 9, 9, 1, 1, 1, 1, 9, 9, 9, 9, 3, 2, 1, 0];
    let b: Vec<u8> = vec![3, 2, 1, 0, 9, 9, 9, 9, 1, 1, 1, 1, 9, 9, 9, 9];
    assert_eq!(color_census(&a), color_census(&b));
    assert_eq!(
        color_census(&a),
        vec![(key(&[1, 1, 1, 1]), 1), (key(&[3, 2, 1, 0]), 1), (key(&[9, 9, 9, 9]), 2)]
    );
}
