use mandelbrot::bounds::Bounds;

#[test]
fn new_accepts_image_sizes() {
    assert_eq!(Bounds::new(100, 75), Some(Bounds { width: 100, height: 75 }));
    assert_eq!(Bounds::new(1, 1), Some(Bounds { width: 1, height: 1 }));
    assert_eq!(
        Bounds::new(usize::MAX, 1),
        Some(Bounds { width: usize::MAX, height: 1 })
    );
}

#[test]
fn new_rejects_empty_grids() {
    assert_eq!(Bounds::new(0, 75), None);
    assert_eq!(Bounds::new(100, 0), None);
    assert_eq!(Bounds::new(0, 0), None);
}

#[test]
fn new_rejects_grids_too_large_to_address() {
    assert_eq!(Bounds::new(usize::MAX, 2), None);
    assert_eq!(Bounds::new(2, usize::MAX), None);
    assert_eq!(Bounds::new(usize::MAX / 2 + 1, 2), None);
    assert_eq!(
        Bounds::new(usize::MAX / 2, 2),
        Some(Bounds { width: usize::MAX / 2, height: 2 })
    );
}

#[test]
fn len_is_width_times_height() {
    assert_eq!(Bounds { width: 100, height: 75 }.len(), 7500);
    assert_eq!(Bounds { width: 1000, height: 750 }.len(), 750_000);
    assert_eq!(Bounds { width: 7, height: 0 }.len(), 0);
    assert_eq!(Bounds { width: 0, height: 7 }.len(), 0);
}

#[test]
fn index_of_is_row_major() {
    let bounds = Bounds { width: 100, height: 100 };
    assert_eq!(bounds.index_of(0, 0), 0);
    assert_eq!(bounds.index_of(99, 0), 99);
    assert_eq!(bounds.index_of(0, 1), 100);
    assert_eq!(bounds.index_of(25, 75), 7525);
    assert_eq!(bounds.index_of(99, 99), 9999);
}

#[test]
fn index_of_visits_every_position_once() {
    let bounds = Bounds { width: 7, height: 5 };
    let mut seen = vec![false; bounds.len()];
    let mut next = 0;
    for row in 0..bounds.height {
        for col in 0..bounds.width {
            let index = bounds.index_of(col, row);
            assert_eq!(index, next);
            assert!(!seen[index]);
            seen[index] = true;
            assert_eq!(index % bounds.width, col);
            assert_eq!(index / bounds.width, row);
            next += 1;
        }
    }
    assert!(seen.iter().all(|&hit| hit));
}
