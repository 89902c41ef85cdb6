//! The capability interface a map must offer to the pathfinding and
//! field-of-view algorithms.

use vstd::prelude::*;
use crate::point::Point;

verus! {

/// Trait to make maps work with pathfinding and FOV algorithms.
///
/// A map reports, for any point, the walkable neighbours of that point
/// with their step costs, and whether light passes through a point. The
/// points a map can ever report are drawn from a finite universe, which
/// is what guarantees that a search over the map terminates.
pub trait BaseMap {
    /// The neighbour list of a point, as the specification sees it.
    spec fn spec_neighbours(&self, point: Point) -> Seq<(Point, u32)>;

    /// Every point the map can ever report as a neighbour.
    spec fn universe(&self) -> Set<Point>;

    /// The universe is finite and contains every reported neighbour.
    proof fn lemma_universe(&self, point: Point)
        ensures
            self.universe().finite(),
            forall|i: int|
                0 <= i < self.spec_neighbours(point).len() ==> self.universe().contains(
                    #[trigger] self.spec_neighbours(point)[i].0,
                ),
    ;

    /// Given a point in the map, return a list of pairs where each pair is
    /// a walkable neighbour point and the cost to go from the current point
    /// to that neighbour point, in the distance units of `DIST_SCALE`.
    fn neighbours(&self, point: Point) -> (r: Vec<(Point, u32)>)
        ensures
            r@ == self.spec_neighbours(point),
    ;

    /// Return whether the given point is transparent, that is, if light can
    /// pass through it. Non-transparent (opaque) points can be lit, but they
    /// will block light rays from going further.
    fn is_transparent(&self, point: Point) -> bool;
}

/// Whether the map offers a single step from `a` to `b`.
pub open spec fn is_edge<M: BaseMap>(map: &M, a: Point, b: Point) -> bool {
    exists|i: int| 0 <= i < map.spec_neighbours(a).len() && map.spec_neighbours(a)[i].0 == b
}

} // verus!
