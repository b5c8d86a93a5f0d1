use mandelbrot::escape::escapes;
use num::Complex;

fn mandelbrot(c: Complex<f64>, limit: u32) -> Option<u32> {
    escapes(
        Complex { re: 0.0, im: 0.0 },
        limit,
        |z: Complex<f64>| z * z + c,
        |z: &Complex<f64>| z.norm_sqr() > 4.0,
    )
}

#[test]
fn doubling_escapes_at_the_third_iteration() {
    // 1 -> 2 -> 4 -> 8: the first state above 4 comes out of iteration 2.
    let outcome = escapes(1u64, 10, |z: u64| z * 2, |z: &u64| *z > 4);
    assert_eq!(outcome, Some(2));
}

#[test]
fn budget_stops_the_run() {
    assert_eq!(escapes(1u64, 0, |z: u64| z * 2, |z: &u64| *z > 4), None);
    assert_eq!(escapes(1u64, 1, |z: u64| z * 2, |z: &u64| *z > 4), None);
    assert_eq!(escapes(1u64, 2, |z: u64| z * 2, |z: &u64| *z > 4), None);
    assert_eq!(escapes(1u64, 3, |z: u64| z * 2, |z: &u64| *z > 4), Some(2));
}

#[test]
fn state_is_judged_after_each_step_not_before() {
    // The start itself is above the threshold, but only states that come
    // out of a step are judged.
    assert_eq!(escapes(9u64, 5, |_z: u64| 0, |z: &u64| *z > 4), None);
    assert_eq!(escapes(0u64, 5, |_z: u64| 9, |z: &u64| *z > 4), Some(0));
}

#[test]
fn fixed_point_never_escapes() {
    for limit in [0u32, 1, 2, 255, 1000] {
        assert_eq!(escapes(0u64, limit, |z: u64| z * z, |z: &u64| *z > 4), None);
    }
}

#[test]
fn escapes_takes_each_step_once() {
    let steps = std::cell::Cell::new(0u32);
    let outcome = escapes(
        0u32,
        100,
        |z: u32| {
            steps.set(steps.get() + 1);
            z + 1
        },
        |z: &u32| *z >= 7,
    );
    assert_eq!(outcome, Some(6));
    assert_eq!(steps.get(), 7);
}

#[test]
fn origin_stays_bounded_for_any_limit() {
    let origin = Complex { re: 0.0, im: 0.0 };
    for limit in [0u32, 1, 2, 3, 255, 1000, 100_000] {
        assert_eq!(mandelbrot(origin, limit), None);
    }
}

#[test]
fn far_point_escapes_at_the_first_check() {
    let far = Complex { re: 5.0, im: 5.0 };
    assert_eq!(mandelbrot(far, 1), Some(0));
    assert_eq!(mandelbrot(far, 255), Some(0));
    assert_eq!(mandelbrot(far, 1000), Some(0));
}

#[test]
fn far_point_with_no_budget_is_reported_bounded() {
    assert_eq!(mandelbrot(Complex { re: 5.0, im: 5.0 }, 0), None);
}

#[test]
fn escape_times_of_points_on_the_real_axis() {
    // c = 1: 1, 2, 5; |5|^2 > 4 after iteration 2.
    let one = Complex { re: 1.0, im: 0.0 };
    assert_eq!(mandelbrot(one, 2), None);
    assert_eq!(mandelbrot(one, 3), Some(2));
    assert_eq!(mandelbrot(one, 255), Some(2));
    // c = 1/2: 0.5, 0.75, 1.0625, 1.62890625, 3.1533...; escapes after iteration 4.
    let half = Complex { re: 0.5, im: 0.0 };
    assert_eq!(mandelbrot(half, 4), None);
    assert_eq!(mandelbrot(half, 5), Some(4));
    // c = -1 cycles between -1 and 0; c = 1/4 creeps up to 1/2.
    assert_eq!(mandelbrot(Complex { re: -1.0, im: 0.0 }, 1000), None);
    assert_eq!(mandelbrot(Complex { re: 0.25, im: 0.0 }, 1000), None);
}

#[test]
fn escape_time_near_the_boundary() {
    let c = Complex { re: -0.75, im: 0.1 };
    assert_eq!(mandelbrot(c, 10), None);
    assert_eq!(mandelbrot(c, 32), None);
    assert_eq!(mandelbrot(c, 33), Some(32));
    assert_eq!(mandelbrot(c, 255), Some(32));
}
