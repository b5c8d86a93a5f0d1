use mandelbrot::shade::{shade, ITERATION_LIMIT};

#[test]
fn bounded_points_are_black() {
    assert_eq!(shade(None), 0);
}

#[test]
fn early_escapes_are_bright() {
    assert_eq!(shade(Some(0)), 255);
    assert_eq!(shade(Some(1)), 254);
    assert_eq!(shade(Some(8)), 247);
    assert_eq!(shade(Some(127)), 128);
    assert_eq!(shade(Some(254)), 1);
}

#[test]
fn iteration_limit_is_255() {
    assert_eq!(ITERATION_LIMIT, 255);
}

#[test]
fn outcomes_within_the_budget_have_levels_of_their_own() {
    let mut seen = vec![false; 256];
    seen[shade(None) as usize] = true;
    for count in 0..ITERATION_LIMIT {
        let level = shade(Some(count));
        assert_eq!(level as u32, 255 - count);
        assert!(level > 0);
        assert!(!seen[level as usize]);
        seen[level as usize] = true;
    }
    assert!(seen.iter().all(|&hit| hit));
}

#[test]
fn counts_past_the_budget_wrap_around() {
    assert_eq!(shade(Some(255)), 0);
    assert_eq!(shade(Some(256)), 255);
    assert_eq!(shade(Some(257)), 254);
    assert_eq!(shade(Some(511)), 0);
    assert_eq!(shade(Some(u32::MAX)), 0);
}
