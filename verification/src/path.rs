use vstd::prelude::*;
use crate::grid::{adjacent, manhattan, Coord, Grid};

verus! {

/// A route is valid when it starts at `start`, ends at `goal`, stays on
/// passable in-bounds cells, and every step moves one cell along one axis.
pub open spec fn is_valid_path(grid: Grid, path: Seq<Coord>, start: Coord, goal: Coord) -> bool {
    &&& path.len() >= 1
    &&& path[0] == start
    &&& path[path.len() - 1] == goal
    &&& forall|j: int|
        0 <= j < path.len() ==> grid.in_bounds_coord(#[trigger] path[j]) && grid.passable_coord(
            path[j],
        )
    &&& forall|j: int| 0 <= j < path.len() - 1 ==> adjacent(#[trigger] path[j], path[j + 1])
}

/// Some valid route between the two endpoints exists.
pub open spec fn has_path(grid: Grid, start: Coord, goal: Coord) -> bool {
    exists|path: Seq<Coord>| is_valid_path(grid, path, start, goal)
}

/// Every valid route makes at least the Manhattan distance many moves:
/// one axis-aligned unit step changes the Manhattan distance to the goal
/// by at most one. This is the lower-bound half of route optimality; on a
/// fully open grid the shortest route meets it with equality.
pub proof fn lemma_path_moves_at_least_manhattan(
    grid: Grid,
    path: Seq<Coord>,
    start: Coord,
    goal: Coord,
)
    requires
        is_valid_path(grid, path, start, goal),
    ensures
        path.len() - 1 >= manhattan(start, goal),
    decreases path.len(),
{
    if path.len() == 1 {
        assert(start == goal);
    } else {
        let rest = path.subrange(1, path.len() as int);
        assert(is_valid_path(grid, rest, path[1], goal)) by {
            assert forall|j: int|
                0 <= j < rest.len() implies grid.in_bounds_coord(#[trigger] rest[j])
                && grid.passable_coord(rest[j]) by {
                assert(rest[j] == path[j + 1]);
            }
            assert forall|j: int| 0 <= j < rest.len() - 1 implies adjacent(
                #[trigger] rest[j],
                rest[j + 1],
            ) by {
                assert(rest[j] == path[j + 1] && rest[j + 1] == path[j + 2]);
            }
        }
        lemma_path_moves_at_least_manhattan(grid, rest, path[1], goal);
        assert(adjacent(path[0], path[1]));
    }
}

} // verus!
