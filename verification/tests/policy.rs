use rusty_gif::route::{policy_from_setting, route_auto, select_route, Policy, PolicyError, Route};

#[test]
fn policy_words_parse() {
    assert_eq!(policy_from_setting(b"auto"), Ok(Policy::Auto));
    assert_eq!(policy_from_setting(b"upstream"), Ok(Policy::Upstream));
}

#[test]
fn policy_numbers_parse() {
    assert_eq!(policy_from_setting(b"kmeans:3"), Ok(Policy::Kmeans { iters: 3 }));
    assert_eq!(policy_from_setting(b"kmeans:0"), Ok(Policy::Kmeans { iters: 0 }));
    assert_eq!(policy_from_setting(b"unique:+16"), Ok(Policy::Unique { cap: 16 }));
    assert_eq!(policy_from_setting(b"unique:4294967295"), Ok(Policy::Unique { cap: u32::MAX }));
    assert_eq!(policy_from_setting(b"budget:125000"), Ok(Policy::Budget { pixels: 125_000 }));
    assert_eq!(policy_from_setting(b"budget:007"), Ok(Policy::Budget { pixels: 7 }));
}

#[test]
fn policy_bad_numbers_refused() {
    assert_eq!(policy_from_setting(b"kmeans:"), Err(PolicyError::BadKmeans));
    assert_eq!(policy_from_setting(b"kmeans:+"), Err(PolicyError::BadKmeans));
    assert_eq!(policy_from_setting(b"kmeans:-1"), Err(PolicyError::BadKmeans));
    assert_eq!(policy_from_setting(b"kmeans: 3"), Err(PolicyError::BadKmeans));
    assert_eq!(policy_from_setting(b"unique:4294967296"), Err(PolicyError::BadUnique));
    assert_eq!(policy_from_setting(b"unique:++1"), Err(PolicyError::BadUnique));
    assert_eq!(policy_from_setting(b"budget:12x"), Err(PolicyError::BadBudget));
    assert_eq!(
        policy_from_setting(b"budget:99999999999999999999999"),
        Err(PolicyError::BadBudget)
    );
}

#[test]
fn policy_unknown_refused() {
    assert_eq!(policy_from_setting(b""), Err(PolicyError::Unknown));
    assert_eq!(policy_from_setting(b"Auto"), Err(PolicyError::Unknown));
    assert_eq!(policy_from_setting(b"auto "), Err(PolicyError::Unknown));
    assert_eq!(policy_from_setting(b"kmeans"), Err(PolicyError::Unknown));
    assert_eq!(policy_from_setting(b"fast"), Err(PolicyError::Unknown));
}

#[test]
fn few_colours_always_exact() {
    assert_eq!(select_route(Policy::Auto, 256, 1_000_000, 1), Route::Exact);
    assert_eq!(select_route(Policy::Upstream, 1, 10, 1), Route::Exact);
    assert_eq!(select_route(Policy::Kmeans { iters: 9 }, 0, 0, 1), Route::Exact);
    assert_eq!(select_route(Policy::Unique { cap: 4 }, 200, 500, 1), Route::Exact);
}

#[test]
fn forced_policies_route() {
    assert_eq!(select_route(Policy::Upstream, 257, 1000, 7), Route::PixelStream { samplefac: 7 });
    assert_eq!(select_route(Policy::Kmeans { iters: 5 }, 300, 1000, 1), Route::Histogram { iters: 5 });
    assert_eq!(select_route(Policy::Unique { cap: 8 }, 300, 1000, 1), Route::UniqueStream { cap: 8 });
    assert_eq!(
        select_route(Policy::Auto, 70_000, 250_001, 1),
        Route::PixelStream { samplefac: 3 }
    );
}

#[test]
fn budget_samplefac_is_clamped_ceiling() {
    // ceil(10_001 / 1_000) = 11
    assert_eq!(
        select_route(Policy::Budget { pixels: 1_000 }, 300, 10_001, 1),
        Route::PixelStream { samplefac: 11 }
    );
    // ceil(1_000_000 / 10) = 100_000, clamped down to 30
    assert_eq!(
        select_route(Policy::Budget { pixels: 10 }, 300, 1_000_000, 1),
        Route::PixelStream { samplefac: 30 }
    );
    // ceil(10 / 1_000_000) = 1, clamped up to the speed
    assert_eq!(
        select_route(Policy::Budget { pixels: 1_000_000 }, 300, 10, 5),
        Route::PixelStream { samplefac: 5 }
    );
}

#[test]
fn auto_sampling_stays_within_budget() {
    for &(px, speed) in &[(3_000_000usize, 1i32), (125_000, 1), (125_001, 1), (100, 7), (10_000_000, 2)] {
        match route_auto(70_000, px, speed) {
            Route::PixelStream { samplefac } => {
                assert!(speed <= samplefac && samplefac <= 30);
                if samplefac < 30 {
                    assert!(px <= samplefac as usize * 125_000);
                }
            }
            other => panic!("unexpected route {other:?}"),
        }
    }
    assert_eq!(route_auto(70_000, 3_000_000, 1), Route::PixelStream { samplefac: 24 });
    assert_eq!(route_auto(70_000, 125_001, 1), Route::PixelStream { samplefac: 2 });
    assert_eq!(route_auto(70_000, 100, 7), Route::PixelStream { samplefac: 7 });
    assert_eq!(route_auto(70_000, 10_000_000, 2), Route::PixelStream { samplefac: 30 });
}

#[test]
fn histogram_tiers_accept_any_speed() {
    assert_eq!(route_auto(1_000, 100, 99), Route::Histogram { iters: 3 });
    assert_eq!(route_auto(65_536, 100, -4), Route::Histogram { iters: 1 });
}

#[test]
fn auto_factor_grows_with_pixels() {
    let mut last = 0;
    for px in [0usize, 1, 125_000, 125_001, 1_000_000, 2_073_600, 3_750_000, 9_000_000] {
        match route_auto(65_537, px, 1) {
            Route::PixelStream { samplefac } => {
                assert!(samplefac >= last);
                last = samplefac;
            }
            other => panic!("unexpected route {other:?}"),
        }
    }
    assert_eq!(last, 30);
}
