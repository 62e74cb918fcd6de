use astar_grid::{find_path, get_heuristic, pos_is_in_list, Cell, Coord, Grid, PathResult};

fn demo() -> [[i32; 8]; 8] {
    [
        [1, 1, 1, 1, 1, 0, 1, 1],
        [1, 0, 1, 0, 1, 1, 1, 0],
        [1, 1, 1, 1, 0, 0, 0, 0],
        [0, 1, 0, 1, 1, 0, 1, 0],
        [0, 1, 1, 1, 0, 0, 1, 0],
        [1, 0, 0, 1, 0, 1, 1, 0],
        [1, 0, 1, 1, 0, 1, 0, 1],
        [0, 1, 1, 1, 1, 1, 0, 1],
    ]
}

fn open8() -> [[i32; 8]; 8] {
    [[1; 8]; 8]
}

fn build(vals: &[[i32; 8]; 8]) -> Grid {
    let mut cells: Vec<Cell> = Vec::new();
    for row in vals.iter() {
        for v in row.iter() {
            cells.push(if *v == 0 { Cell::Blocked } else { Cell::Passable });
        }
    }
    Grid::new(8, 8, cells).unwrap()
}

fn at(row: i32, col: i32) -> Coord {
    Coord { row, col }
}

fn manhattan(a: Coord, b: Coord) -> i64 {
    ((a.row as i64) - (b.row as i64)).abs() + ((a.col as i64) - (b.col as i64)).abs()
}

fn check_valid_path(grid: &Grid, path: &[Coord], start: Coord, goal: Coord) {
    assert!(!path.is_empty());
    assert_eq!(path[0], start);
    assert_eq!(path[path.len() - 1], goal);
    for c in path.iter() {
        assert!(grid.is_valid(c.row, c.col));
        assert!(!grid.is_blocked(c.row, c.col));
    }
    for w in path.windows(2) {
        assert_eq!(manhattan(w[0], w[1]), 1);
    }
}

#[test]
fn blocked_start_rejected() {
    let grid = build(&demo());
    // (1, 1) is blocked
    let r = find_path(&grid, at(1, 1), at(3, 6));
    assert_eq!(r, PathResult::InvalidEndpoint);
}

#[test]
fn blocked_goal_rejected() {
    let grid = build(&demo());
    let r = find_path(&grid, at(0, 1), at(0, 5));
    assert_eq!(r, PathResult::InvalidEndpoint);
}

#[test]
fn out_of_bounds_rejected() {
    let grid = build(&demo());
    assert_eq!(find_path(&grid, at(-1, 0), at(3, 6)), PathResult::InvalidEndpoint);
    assert_eq!(find_path(&grid, at(0, -3), at(3, 6)), PathResult::InvalidEndpoint);
    assert_eq!(find_path(&grid, at(8, 0), at(3, 6)), PathResult::InvalidEndpoint);
    assert_eq!(find_path(&grid, at(0, 1), at(3, 8)), PathResult::InvalidEndpoint);
    assert_eq!(find_path(&grid, at(0, 1), at(-2, -2)), PathResult::InvalidEndpoint);
}

#[test]
fn open_grid_path_length_is_manhattan() {
    let grid = build(&open8());
    let start = at(0, 1);
    let goal = at(3, 6);
    match find_path(&grid, start, goal) {
        PathResult::Found(p) => {
            check_valid_path(&grid, &p, start, goal);
            // moves == Manhattan distance on a fully open grid
            assert_eq!((p.len() - 1) as i64, manhattan(start, goal));
        }
        other => panic!("expected a route, got {:?}", other),
    }
}

#[test]
fn open_grid_corner_to_corner() {
    let grid = build(&open8());
    let start = at(0, 0);
    let goal = at(7, 7);
    match find_path(&grid, start, goal) {
        PathResult::Found(p) => {
            check_valid_path(&grid, &p, start, goal);
            assert_eq!((p.len() - 1) as i64, 14);
        }
        other => panic!("expected a route, got {:?}", other),
    }
}

#[test]
fn demo_grid_route_is_valid() {
    let grid = build(&demo());
    let start = at(0, 1);
    let goal = at(3, 6);
    match find_path(&grid, start, goal) {
        PathResult::Found(p) => {
            check_valid_path(&grid, &p, start, goal);
            assert!((p.len() - 1) as i64 >= 7);
            assert!((p.len() - 1) as i64 >= manhattan(start, goal));
        }
        other => panic!("expected a route, got {:?}", other),
    }
}

#[test]
fn unreachable_when_disconnected() {
    // a full blocked column splits the grid in two
    let wall: [[i32; 8]; 8] = [
        [1, 1, 1, 0, 1, 1, 1, 1],
        [1, 1, 1, 0, 1, 1, 1, 1],
        [1, 1, 1, 0, 1, 1, 1, 1],
        [1, 1, 1, 0, 1, 1, 1, 1],
        [1, 1, 1, 0, 1, 1, 1, 1],
        [1, 1, 1, 0, 1, 1, 1, 1],
        [1, 1, 1, 0, 1, 1, 1, 1],
        [1, 1, 1, 0, 1, 1, 1, 1],
    ];
    let grid = build(&wall);
    let r = find_path(&grid, at(2, 1), at(2, 6));
    assert_eq!(r, PathResult::Unreachable);
}

#[test]
fn same_inputs_same_result() {
    let grid = build(&demo());
    let a = find_path(&grid, at(0, 1), at(3, 6));
    let b = find_path(&grid, at(0, 1), at(3, 6));
    assert_eq!(a, b);
    let c = find_path(&grid, at(2, 1), at(7, 1));
    let d = find_path(&grid, at(2, 1), at(7, 1));
    assert_eq!(c, d);
}

#[test]
fn start_equals_goal_single_cell() {
    let grid = build(&demo());
    let r = find_path(&grid, at(0, 1), at(0, 1));
    assert_eq!(r, PathResult::Found(vec![at(0, 1)]));
}

#[test]
fn start_equals_goal_blocked_rejected() {
    let grid = build(&demo());
    let r = find_path(&grid, at(1, 1), at(1, 1));
    assert_eq!(r, PathResult::InvalidEndpoint);
}

#[test]
fn corridor_unique_route() {
    // a 1x5 corridor admits exactly one route
    let grid = Grid::new(1, 5, vec![Cell::Passable; 5]).unwrap();
    match find_path(&grid, at(0, 0), at(0, 4)) {
        PathResult::Found(p) => {
            assert_eq!(p, vec![at(0, 0), at(0, 1), at(0, 2), at(0, 3), at(0, 4)]);
        }
        other => panic!("expected a route, got {:?}", other),
    }
}

#[test]
fn bent_corridor_unique_route() {
    // walls force the single route around the bottom row
    let rows: [[i32; 3]; 3] = [[1, 0, 1], [1, 0, 1], [1, 1, 1]];
    let mut cells: Vec<Cell> = Vec::new();
    for row in rows.iter() {
        for v in row.iter() {
            cells.push(if *v == 0 { Cell::Blocked } else { Cell::Passable });
        }
    }
    let grid = Grid::new(3, 3, cells).unwrap();
    match find_path(&grid, at(0, 0), at(0, 2)) {
        PathResult::Found(p) => {
            assert_eq!(
                p,
                vec![at(0, 0), at(1, 0), at(2, 0), at(2, 1), at(2, 2), at(1, 2), at(0, 2)]
            );
        }
        other => panic!("expected a route, got {:?}", other),
    }
}

#[test]
fn constructor_checks_dimensions() {
    assert!(Grid::new(0, 8, Vec::new()).is_none());
    assert!(Grid::new(8, 0, Vec::new()).is_none());
    assert!(Grid::new(2, 2, vec![Cell::Passable; 3]).is_none());
    assert!(Grid::new(2, 2, vec![Cell::Passable; 4]).is_some());
    assert!(Grid::new(40000, 1, vec![Cell::Passable; 40000]).is_none());
}

#[test]
fn bounds_queries() {
    let grid = build(&demo());
    assert!(grid.is_valid(0, 0));
    assert!(grid.is_valid(7, 7));
    assert!(!grid.is_valid(-1, 0));
    assert!(!grid.is_valid(0, -1));
    assert!(!grid.is_valid(8, 0));
    assert!(!grid.is_valid(0, 8));
    assert_eq!(grid.rows(), 8);
    assert_eq!(grid.cols(), 8);
    assert_eq!(grid.total_cells(), 64);
}

#[test]
fn occupancy_queries() {
    let grid = build(&demo());
    assert!(!grid.is_blocked(0, 0));
    assert!(grid.is_blocked(0, 5));
    assert!(grid.is_blocked(1, 1));
    assert!(!grid.is_blocked(3, 6));
}

#[test]
fn heuristic_is_manhattan_distance() {
    assert_eq!(get_heuristic(0, 1, at(3, 6)), 8);
    assert_eq!(get_heuristic(3, 6, at(0, 1)), 8);
    assert_eq!(get_heuristic(5, 5, at(5, 5)), 0);
    assert_eq!(get_heuristic(0, 0, at(7, 7)), 14);
}

#[test]
fn position_list_membership() {
    let list = vec![at(1, 2), at(3, 4)];
    assert!(pos_is_in_list(1, 2, &list));
    assert!(pos_is_in_list(3, 4, &list));
    assert!(!pos_is_in_list(2, 1, &list));
    assert!(!pos_is_in_list(0, 0, &list));
    let empty: Vec<Coord> = Vec::new();
    assert!(!pos_is_in_list(0, 0, &empty));
}
