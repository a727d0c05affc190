use skymask::arith::{div_floor, isqrt};
use skymask::geom::{angle_exec, project, Cand};

#[test]
fn isqrt_exact_and_floor() {
    assert_eq!(isqrt(0), 0);
    assert_eq!(isqrt(1), 1);
    assert_eq!(isqrt(2), 1);
    assert_eq!(isqrt(49), 7);
    assert_eq!(isqrt(50), 7);
    assert_eq!(isqrt(63), 7);
    assert_eq!(isqrt(64), 8);
    assert_eq!(isqrt(8_000_000_000_000), 2_828_427);
}

#[test]
fn div_floor_rounds_toward_negative_infinity() {
    assert_eq!(div_floor(7, 2), 3);
    assert_eq!(div_floor(-7, 2), -4);
    assert_eq!(div_floor(-6, 2), -3);
    assert_eq!(div_floor(0, 5), 0);
    assert_eq!(div_floor(-1, 1_000_000), -1);
}

#[test]
fn pseudo_angle_quadrants() {
    assert_eq!(angle_exec(10, 0), 0);
    assert_eq!(angle_exec(0, 10), 1_000_000);
    assert_eq!(angle_exec(-10, 0), 2_000_000);
    assert_eq!(angle_exec(0, -10), -1_000_000);
    assert_eq!(angle_exec(-10, -1), 2_090_910);
    assert_eq!(angle_exec(-3, 7), 1_300_000);
}

#[test]
fn project_orders_endpoints_with_their_elevations() {
    let c = project(10, 0, 5, 0, 10, 10);
    assert_eq!(
        c,
        Some(Cand { a0: 0, a1: 1_000_000, y0: 500_000, y1: 1_000_000 })
    );
    let swapped = project(0, 10, 10, 10, 0, 5);
    assert_eq!(swapped, c);
}

#[test]
fn project_degenerate_is_none() {
    assert_eq!(project(0, 0, 5, 10, 0, 5), None);
    assert_eq!(project(10, 0, 5, 0, 0, 5), None);
    assert_eq!(project(5, 0, 5, 10, 0, 7), None);
}
