use lazarust::basemap::BaseMap;
use lazarust::distance::DistanceAlg;
use lazarust::grid::{SimpleMap, FLOOR_COST, IMPASSABLE};
use lazarust::pathfinding::{a_star_search, construct_path};
use lazarust::pmap::PointMap;
use lazarust::point::Point;

// A simple map from a matrix of 0s and 1s, where 0s are floors and 1s are
// walls.
fn simple_map() -> SimpleMap {
    SimpleMap::from_prefab(&vec![
        vec![0, 0, 0, 1, 0],
        vec![0, 1, 0, 0, 1],
        vec![1, 1, 1, 0, 1],
        vec![0, 0, 1, 0, 0],
        vec![0, 0, 0, 0, 1],
    ])
}

#[test]
fn a_star_with_diagonals() {
    let path = a_star_search(
        Point::new(1, 3),
        Point::new(0, 0),
        &simple_map(),
        DistanceAlg::Manhattan,
    )
    .unwrap(); // Path must exist
    assert_eq!(6, path.len());
    assert_eq!(Point::new(2, 4), path[0]);
    assert_eq!(Point::new(3, 3), path[1]);
    assert_eq!(Point::new(3, 2), path[2]);
    assert_eq!(Point::new(2, 1), path[3]);
    assert_eq!(Point::new(1, 0), path[4]);
    assert_eq!(Point::new(0, 0), path[5]);
}

#[test]
fn a_star_non_existant_path() {
    // Close off the path to (0, 0)
    let mut cloned_map = simple_map();
    let tile_idx = cloned_map.point_to_index(Point::new(1, 0));
    cloned_map.costs[tile_idx] = IMPASSABLE;
    let path = a_star_search(
        Point::new(1, 3),
        Point::new(0, 0),
        &cloned_map,
        DistanceAlg::Manhattan,
    );
    assert!(
        path.is_none(),
        "A path should not exist but the following path was returned: {:?}",
        path.unwrap()
    );
}

#[test]
fn a_star_with_varying_costs() {
    // Set cost 10 on (3, 3), so the pathfinder will avoid it even if it
    // requires more steps
    let mut cloned_map = simple_map();
    let tile_idx = cloned_map.point_to_index(Point::new(3, 3));
    cloned_map.costs[tile_idx] = 10 * FLOOR_COST;
    let path = a_star_search(
        Point::new(3, 2),
        Point::new(2, 4),
        &cloned_map,
        DistanceAlg::Manhattan,
    )
    .unwrap();
    assert_eq!(3, path.len());
    assert_eq!(Point::new(4, 3), path[0]);
    assert_eq!(Point::new(3, 4), path[1]);
    assert_eq!(Point::new(2, 4), path[2]);
}

#[test]
fn a_star_to_same_point() {
    let path = a_star_search(
        Point::new(3, 2),
        Point::new(3, 2),
        &simple_map(),
        DistanceAlg::Manhattan,
    )
    .unwrap(); // Path will exist but will be empty
    assert!(path.is_empty());
}

#[test]
fn a_star_under_every_heuristic() {
    let algs = [
        DistanceAlg::Euclidean,
        DistanceAlg::Manhattan,
        DistanceAlg::Chebyshev,
        DistanceAlg::Octile,
    ];
    for alg in algs {
        let path = a_star_search(Point::new(1, 3), Point::new(0, 0), &simple_map(), alg).unwrap();
        assert_eq!(6, path.len());
        assert_eq!(Point::new(2, 4), path[0]);
        assert_eq!(Point::new(0, 0), path[5]);
    }
}

#[test]
fn construct_path_follows_links() {
    let origin = Point::new(0, 0);
    let goal = Point::new(2, 2);
    let mut previous: PointMap<Point> = PointMap::new();
    previous.insert(Point::new(1, 1), origin);
    previous.insert(goal, Point::new(1, 1));
    let path = construct_path(origin, goal, &previous);
    assert_eq!(vec![Point::new(1, 1), goal], path);
}

#[test]
fn neighbours_skip_walls_and_borders() {
    let map = simple_map();
    // (0, 0) touches the wall at (1, 1) and the map border.
    let nbrs = map.neighbours(Point::new(0, 0));
    let points: Vec<Point> = nbrs.iter().map(|e| e.0).collect();
    assert_eq!(vec![Point::new(1, 0), Point::new(0, 1)], points);
    for e in &nbrs {
        assert_eq!(FLOOR_COST, e.1);
    }
}

#[test]
fn transparency_follows_walls() {
    let map = simple_map();
    assert!(map.is_transparent(Point::new(0, 0)));
    assert!(!map.is_transparent(Point::new(1, 1)));
}
