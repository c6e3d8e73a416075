use road_graph::geometry::{isqrt, segment_length_of, LENGTH_SCALE};
use road_graph::LatLon;

fn at(lat: i32, lon: i32) -> LatLon {
    LatLon { lat, lon }
}

#[test]
fn isqrt_of_small_numbers() {
    let expected = [0u64, 1, 1, 1, 2, 2, 2, 2, 2, 3, 3];
    for (n, r) in expected.iter().enumerate() {
        assert_eq!(isqrt(n as u128), *r);
    }
    assert_eq!(isqrt(99), 9);
    assert_eq!(isqrt(100), 10);
    assert_eq!(isqrt(101), 10);
}

#[test]
fn isqrt_rounds_down_at_every_square() {
    for r in [1u128, 2, 3, 1000, 65_535, 65_536, 4_294_967_295, 4_294_967_296, 1 << 40] {
        assert_eq!(u128::from(isqrt(r * r)), r);
        assert_eq!(u128::from(isqrt(r * r - 1)), r - 1);
        assert_eq!(u128::from(isqrt(r * r + 1)), r);
    }
}

#[test]
fn isqrt_of_the_largest_number() {
    assert_eq!(isqrt(u128::MAX), u64::MAX);
    let r = u128::from(u64::MAX);
    assert_eq!(isqrt(r * r), u64::MAX);
    assert_eq!(isqrt(r * r - 1), u64::MAX - 1);
}

#[test]
fn length_scale_is_two_to_the_62() {
    assert_eq!(LENGTH_SCALE, 1u128 << 62);
}

#[test]
fn length_of_a_three_four_five_triangle() {
    assert_eq!(segment_length_of(at(0, 0), at(3, 4)), 5 << 31);
    assert_eq!(segment_length_of(at(3, 4), at(0, 0)), 5 << 31);
    assert_eq!(segment_length_of(at(-3, 10), at(0, 6)), 5 << 31);
}

#[test]
fn length_along_one_axis_is_exact() {
    assert_eq!(segment_length_of(at(0, 0), at(0, 1)), 1 << 31);
    assert_eq!(segment_length_of(at(0, 0), at(7, 0)), 7 << 31);
    assert_eq!(segment_length_of(at(5, 5), at(5, 5)), 0);
}

#[test]
fn length_of_a_diagonal_is_rounded_down() {
    // sqrt(2) * 2^31 = 3037000499.97...
    assert_eq!(segment_length_of(at(0, 0), at(1, 1)), 3_037_000_499);
    // One degree each way, in steps of 10^-7 degree.
    let len = segment_length_of(at(0, 0), at(10_000_000, 10_000_000));
    let exact = 2f64.sqrt() * 1e7 * (1u64 << 31) as f64;
    assert!((len as f64 - exact).abs() / exact < 1e-15);
}

#[test]
fn length_between_the_corners_of_the_grid() {
    let len = segment_length_of(at(i32::MIN, i32::MIN), at(i32::MAX, i32::MAX));
    let side = u128::from(u32::MAX);
    let squared = 2 * side * side * LENGTH_SCALE;
    let len = u128::from(len);
    assert!(len * len <= squared);
    assert!((len + 1) * (len + 1) > squared);
}
