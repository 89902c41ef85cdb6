use lazarust::distance::{
    chebyshev_distance, euclidean_distance, manhattan_distance, octile_distance, DistanceAlg,
    DIST_SCALE,
};
use lazarust::point::Point;

/// Distances come back in thousandths of an orthogonal step; the rounded
/// value must sit within one distance unit of the exact real one.
fn close_to(d: u64, expected: f64) -> bool {
    (d as f64 / DIST_SCALE as f64 - expected).abs() < 1.5e-3
}

#[test]
fn test_euclidean_distance() {
    assert!(close_to(
        euclidean_distance(&Point::new(0, 0), &Point::new(2, 1)),
        f64::sqrt(5.)
    ));
    assert!(close_to(
        euclidean_distance(&Point::new(0, 0), &Point::new(1, 1)),
        f64::sqrt(2.)
    ));
    assert!(close_to(
        euclidean_distance(&Point::new(-1, 2), &Point::new(-1, 2)),
        0.0
    ));
    assert!(close_to(
        euclidean_distance(&Point::new(2, -5), &Point::new(-5, 2)),
        7. * f64::sqrt(2.)
    ));
    assert!(close_to(
        euclidean_distance(&Point::new(-1, -1), &Point::new(1, -1)),
        2.0
    ));
    assert!(close_to(
        euclidean_distance(&Point::new(-1, -1), &Point::new(-1, 1)),
        2.0
    ));
}

#[test]
fn test_manhattan_distance() {
    assert!(close_to(
        manhattan_distance(&Point::new(0, 0), &Point::new(2, 1)),
        3.0
    ));
    assert!(close_to(
        manhattan_distance(&Point::new(0, 0), &Point::new(1, 1)),
        2.0
    ));
    assert!(close_to(
        manhattan_distance(&Point::new(-1, 2), &Point::new(-1, 2)),
        0.0
    ));
    assert!(close_to(
        manhattan_distance(&Point::new(2, -5), &Point::new(-5, 2)),
        14.0
    ));
    assert!(close_to(
        manhattan_distance(&Point::new(-1, -1), &Point::new(1, -1)),
        2.0
    ));
    assert!(close_to(
        manhattan_distance(&Point::new(-1, -1), &Point::new(-1, 1)),
        2.0
    ));
}

#[test]
fn test_chebyshev_distance() {
    assert!(close_to(
        chebyshev_distance(&Point::new(0, 0), &Point::new(2, 1)),
        2.0
    ));
    assert!(close_to(
        chebyshev_distance(&Point::new(0, 0), &Point::new(1, 1)),
        1.0
    ));
    assert!(close_to(
        chebyshev_distance(&Point::new(-1, 2), &Point::new(-1, 2)),
        0.0
    ));
    assert!(close_to(
        chebyshev_distance(&Point::new(2, -5), &Point::new(-5, 2)),
        7.0
    ));
    assert!(close_to(
        chebyshev_distance(&Point::new(-1, -1), &Point::new(1, -1)),
        2.0
    ));
    assert!(close_to(
        chebyshev_distance(&Point::new(-1, -1), &Point::new(-1, 1)),
        2.0
    ));
}

#[test]
fn test_octile_distance() {
    assert!(close_to(
        octile_distance(&Point::new(0, 0), &Point::new(2, 1)),
        1. + f64::sqrt(2.)
    ));
    assert!(close_to(
        octile_distance(&Point::new(0, 0), &Point::new(1, 1)),
        f64::sqrt(2.)
    ));
    assert!(close_to(
        octile_distance(&Point::new(-1, 2), &Point::new(-1, 2)),
        0.0
    ));
    assert!(close_to(
        octile_distance(&Point::new(2, -5), &Point::new(-5, 2)),
        7. * f64::sqrt(2.)
    ));
    assert!(close_to(
        octile_distance(&Point::new(-1, -1), &Point::new(1, -1)),
        2.0
    ));
    assert!(close_to(
        octile_distance(&Point::new(-1, -1), &Point::new(-1, 1)),
        2.0
    ));
}

#[test]
fn distance_zero_on_equal_points() {
    let algs = [
        DistanceAlg::Euclidean,
        DistanceAlg::Manhattan,
        DistanceAlg::Chebyshev,
        DistanceAlg::Octile,
    ];
    for alg in algs {
        assert_eq!(0, alg.distance(&Point::new(-7, 11), &Point::new(-7, 11)));
    }
}

#[test]
fn distance_symmetric() {
    let algs = [
        DistanceAlg::Euclidean,
        DistanceAlg::Manhattan,
        DistanceAlg::Chebyshev,
        DistanceAlg::Octile,
    ];
    let a = Point::new(3, -4);
    let b = Point::new(-2, 9);
    for alg in algs {
        assert_eq!(alg.distance(&a, &b), alg.distance(&b, &a));
    }
}

#[test]
fn manhattan_dominates_chebyshev() {
    let pairs = [
        (Point::new(0, 0), Point::new(2, 1)),
        (Point::new(-3, 5), Point::new(4, -1)),
        (Point::new(7, 7), Point::new(7, -7)),
    ];
    for (a, b) in pairs {
        assert!(manhattan_distance(&a, &b) >= chebyshev_distance(&a, &b));
    }
}

#[test]
fn octile_matches_euclidean_when_aligned() {
    // Pure diagonal and axis-aligned pairs agree exactly, even where the
    // rounded diagonal unit would drift from a naive multiple.
    let pairs = [
        (Point::new(0, 0), Point::new(1, 1)),
        (Point::new(0, 0), Point::new(5, 5)),
        (Point::new(2, -5), Point::new(-5, 2)),
        (Point::new(1, 2), Point::new(9, 2)),
        (Point::new(4, -3), Point::new(4, 6)),
    ];
    for (a, b) in pairs {
        assert_eq!(octile_distance(&a, &b), euclidean_distance(&a, &b));
    }
    assert_eq!(1414, octile_distance(&Point::new(0, 0), &Point::new(1, 1)));
}
