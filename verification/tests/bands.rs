use mandelbrot::bands::{partition, Band, DEFAULT_WORKERS};
use mandelbrot::bounds::Bounds;

#[test]
fn partition_rounds_the_rows_per_band_up() {
    let bands = partition(Bounds { width: 4, height: 10 }, 4);
    assert_eq!(
        bands,
        vec![
            Band { top: 0, rows: 3, start: 0, end: 12 },
            Band { top: 3, rows: 3, start: 12, end: 24 },
            Band { top: 6, rows: 3, start: 24, end: 36 },
            Band { top: 9, rows: 1, start: 36, end: 40 },
        ]
    );
}

#[test]
fn partition_of_75_rows_among_8_workers() {
    let bands = partition(Bounds { width: 100, height: 75 }, 8);
    assert_eq!(bands.len(), 8);
    for (i, band) in bands.iter().enumerate() {
        assert_eq!(band.top, 10 * i);
        assert_eq!(band.rows, if i < 7 { 10 } else { 5 });
        assert_eq!(band.start, 1000 * i);
        assert_eq!(band.end, if i < 7 { 1000 * (i + 1) } else { 7500 });
    }
}

#[test]
fn partition_gives_trailing_workers_no_rows_when_rows_run_out() {
    let bands = partition(Bounds { width: 2, height: 5 }, 8);
    assert_eq!(bands.len(), 8);
    for i in 0..5 {
        assert_eq!(bands[i], Band { top: i, rows: 1, start: 2 * i, end: 2 * i + 2 });
    }
    for i in 5..8 {
        assert_eq!(bands[i], Band { top: 5, rows: 0, start: 10, end: 10 });
    }
}

#[test]
fn partition_can_leave_a_middle_worker_short_and_the_last_idle() {
    // 9 rows among 4 workers: 3 rows per band, so the fourth gets none.
    let bands = partition(Bounds { width: 1, height: 9 }, 4);
    assert_eq!(
        bands,
        vec![
            Band { top: 0, rows: 3, start: 0, end: 3 },
            Band { top: 3, rows: 3, start: 3, end: 6 },
            Band { top: 6, rows: 3, start: 6, end: 9 },
            Band { top: 9, rows: 0, start: 9, end: 9 },
        ]
    );
    // 10 rows among 6 workers: 2 rows per band, so the sixth gets none.
    let bands = partition(Bounds { width: 1, height: 10 }, 6);
    assert_eq!(bands[4], Band { top: 8, rows: 2, start: 8, end: 10 });
    assert_eq!(bands[5], Band { top: 10, rows: 0, start: 10, end: 10 });
}

#[test]
fn partition_for_one_worker_is_the_whole_image() {
    let bands = partition(Bounds { width: 100, height: 75 }, 1);
    assert_eq!(bands, vec![Band { top: 0, rows: 75, start: 0, end: 7500 }]);
}

#[test]
fn partition_of_an_image_without_rows() {
    let bands = partition(Bounds { width: 10, height: 0 }, 3);
    assert_eq!(bands, vec![Band { top: 0, rows: 0, start: 0, end: 0 }; 3]);
}

#[test]
fn bands_split_the_rows_for_all_heights_and_worker_counts() {
    for height in 0..60usize {
        for workers in 1..20u32 {
            let bounds = Bounds { width: 3, height };
            let bands = partition(bounds, workers);
            assert_eq!(bands.len(), workers as usize);
            let mut owners = vec![0u32; height];
            for band in &bands {
                assert!(band.top + band.rows <= height);
                for row in band.top..band.top + band.rows {
                    owners[row] += 1;
                }
            }
            assert!(owners.iter().all(|&count| count == 1));
        }
    }
}

#[test]
fn bands_split_the_buffer_in_order() {
    for height in 0..40usize {
        for workers in 1..12u32 {
            let bounds = Bounds { width: 7, height };
            let bands = partition(bounds, workers);
            let mut offset = 0;
            for band in &bands {
                assert_eq!(band.start, offset);
                assert_eq!(band.start, band.top * 7);
                assert_eq!(band.end, band.start + band.rows * 7);
                assert_eq!(band.len(), band.rows * 7);
                offset = band.end;
            }
            assert_eq!(offset, bounds.len());
        }
    }
}

#[test]
fn full_bands_are_as_equal_as_can_be() {
    for height in 1..50usize {
        for workers in 1..12u32 {
            let bands = partition(Bounds { width: 1, height }, workers);
            let per_band = (height + workers as usize - 1) / workers as usize;
            let mut short_seen = false;
            for band in &bands {
                assert!(band.rows <= per_band);
                if short_seen {
                    assert_eq!(band.rows, 0);
                }
                if band.rows < per_band {
                    short_seen = true;
                }
            }
        }
    }
}

#[test]
fn band_corners_and_sub_bounds() {
    let bounds = Bounds { width: 100, height: 75 };
    let bands = partition(bounds, 8);
    let band = bands[7];
    assert_eq!(band.upper_left_pixel(), (0, 70));
    assert_eq!(band.lower_right_pixel(bounds), (100, 75));
    assert_eq!(band.sub_bounds(bounds), Bounds { width: 100, height: 5 });
    assert_eq!(band.len(), 500);
    let first = bands[0];
    assert_eq!(first.upper_left_pixel(), (0, 0));
    assert_eq!(first.lower_right_pixel(bounds), (100, 10));
    assert_eq!(first.sub_bounds(bounds), Bounds { width: 100, height: 10 });
}

#[test]
fn default_worker_count_is_eight() {
    assert_eq!(DEFAULT_WORKERS, 8);
    let bands = partition(Bounds { width: 1000, height: 750 }, DEFAULT_WORKERS);
    assert_eq!(bands.len(), 8);
    assert_eq!(bands[0], Band { top: 0, rows: 94, start: 0, end: 94_000 });
    assert_eq!(bands[7], Band { top: 658, rows: 92, start: 658_000, end: 750_000 });
}
