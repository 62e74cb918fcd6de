use vstd::prelude::*;
use vstd::set_lib::{lemma_int_range, lemma_len_subset, set_int_range};
use crate::grid::{
    adjacent, adjacent_rc, lemma_flat_index_bounds, lemma_flat_index_injective, manhattan_rc,
    Coord, Grid, MAX_DIM,
};
use crate::path::{has_path, is_valid_path};

verus! {

/// Per-cell entry of the best-cost table: whether the cell has been
/// discovered (the "unvisited" sentinel is `discovered == false`), the
/// best known cost from the start (`g`), the priority it was last pushed
/// with (`f`, the cost plus the heuristic), and the predecessor on the
/// best known route.
#[derive(Clone, Copy)]
pub(crate) struct CellInfo {
    pub(crate) discovered: bool,
    pub(crate) g: usize,
    pub(crate) f: usize,
    pub(crate) parent: Coord,
}

/// One frontier entry: a coordinate and the priority it was pushed with.
/// Stale duplicates may linger; the closed set blocks re-expansion.
pub(crate) struct OpenEntry {
    pub(crate) row: i32,
    pub(crate) col: i32,
    pub(crate) f: usize,
}

/// Outcome of a search.
#[derive(Debug, Clone, PartialEq, Eq)]
pub enum PathResult {
    /// The ordered route from start to goal, both inclusive.
    Found(Vec<Coord>),
    /// Both endpoints are usable, but no route connects them.
    Unreachable,
    /// Start or goal is out of bounds, or its cell is blocked.
    InvalidEndpoint,
    /// The parent-pointer walk did not reach the start within the step
    /// bound. Defensive only: `find_path` ensures it is never returned.
    ReconstructionError,
}

/// Both endpoints are in bounds and passable.
pub open spec fn endpoints_ok(grid: Grid, start: Coord, goal: Coord) -> bool {
    &&& grid.in_bounds_coord(start)
    &&& grid.in_bounds_coord(goal)
    &&& grid.passable_coord(start)
    &&& grid.passable_coord(goal)
}

/// The table entry of the cell at (row, col).
pub(crate) open spec fn entry(grid: Grid, t: Seq<CellInfo>, row: int, col: int) -> CellInfo {
    t[grid.spec_flat_index(row, col)]
}

/// The cell at (row, col) has been discovered.
pub(crate) open spec fn discovered_at(grid: Grid, t: Seq<CellInfo>, row: int, col: int) -> bool {
    entry(grid, t, row, col).discovered
}

/// The table holds one entry per grid cell.
pub(crate) open spec fn table_wf(grid: Grid, t: Seq<CellInfo>) -> bool {
    t.len() == grid.spec_rows() * grid.spec_cols()
}

/// Per-cell chain property: a discovered cell is passable, and a
/// discovered cell other than the start records an in-bounds, discovered,
/// adjacent parent whose best cost is strictly smaller.
pub(crate) open spec fn cell_linked(
    grid: Grid,
    t: Seq<CellInfo>,
    start: Coord,
    row: int,
    col: int,
) -> bool {
    let e = entry(grid, t, row, col);
    e.discovered ==> {
        &&& grid.passable_at(row, col)
        &&& (!(row == start.row as int && col == start.col as int) ==> {
            let p = e.parent;
            &&& grid.in_bounds_coord(p)
            &&& adjacent_rc(p.row as int, p.col as int, row, col)
            &&& entry(grid, t, p.row as int, p.col as int).discovered
            &&& entry(grid, t, p.row as int, p.col as int).g < e.g
        })
    }
}

/// The best-cost table is well-linked: right size, start discovered at
/// cost zero, and every discovered cell chained back toward the start.
pub(crate) open spec fn chain_inv(grid: Grid, t: Seq<CellInfo>, start: Coord) -> bool {
    &&& table_wf(grid, t)
    &&& grid.in_bounds_coord(start)
    &&& grid.passable_coord(start)
    &&& entry(grid, t, start.row as int, start.col as int).discovered
    &&& entry(grid, t, start.row as int, start.col as int).g == 0
    &&& forall|row: int, col: int|
        grid.in_bounds(row, col) ==> #[trigger] cell_linked(grid, t, start, row, col)
}

/// Every discovered cell's priority is its cost plus the heuristic.
pub(crate) open spec fn cell_f_ok(
    grid: Grid,
    t: Seq<CellInfo>,
    goal: Coord,
    row: int,
    col: int,
) -> bool {
    let e = entry(grid, t, row, col);
    e.discovered ==> e.f == e.g + manhattan_rc(row, col, goal.row as int, goal.col as int)
}

pub(crate) open spec fn f_inv(grid: Grid, t: Seq<CellInfo>, goal: Coord) -> bool {
    forall|row: int, col: int|
        grid.in_bounds(row, col) ==> #[trigger] cell_f_ok(grid, t, goal, row, col)
}

/// Every discovered cell's cost is below the total cell count.
pub(crate) open spec fn cell_cap_ok(grid: Grid, t: Seq<CellInfo>, row: int, col: int) -> bool {
    entry(grid, t, row, col).discovered ==> entry(grid, t, row, col).g < grid.spec_rows()
        * grid.spec_cols()
}

pub(crate) open spec fn cap_inv(grid: Grid, t: Seq<CellInfo>) -> bool {
    forall|row: int, col: int|
        grid.in_bounds(row, col) ==> #[trigger] cell_cap_ok(grid, t, row, col)
}

/// A frontier entry names an in-bounds, discovered, non-goal cell.
pub(crate) open spec fn open_entry_ok(
    grid: Grid,
    t: Seq<CellInfo>,
    goal: Coord,
    e: OpenEntry,
) -> bool {
    &&& grid.in_bounds(e.row as int, e.col as int)
    &&& discovered_at(grid, t, e.row as int, e.col as int)
    &&& !(e.row == goal.row && e.col == goal.col)
}

pub(crate) open spec fn open_inv(
    grid: Grid,
    t: Seq<CellInfo>,
    open: Seq<OpenEntry>,
    goal: Coord,
) -> bool {
    forall|i: int| 0 <= i < open.len() ==> #[trigger] open_entry_ok(grid, t, goal, open[i])
}

/// Flat indices of the discovered cells.
pub(crate) open spec fn discovered_set(t: Seq<CellInfo>) -> Set<int> {
    Set::new(|i: int| 0 <= i < t.len() && t[i].discovered)
}

/// Every discovered cell's cost is below the number of discovered cells.
/// This is what rules the costs out of ever reaching the cell count: as
/// long as some cell is undiscovered, every cost stays below the total.
pub(crate) open spec fn cell_count_ok(grid: Grid, t: Seq<CellInfo>, row: int, col: int) -> bool {
    discovered_at(grid, t, row, col) ==> entry(grid, t, row, col).g < discovered_set(t).len()
}

pub(crate) open spec fn count_inv(grid: Grid, t: Seq<CellInfo>) -> bool {
    forall|row: int, col: int|
        grid.in_bounds(row, col) ==> #[trigger] cell_count_ok(grid, t, row, col)
}

/// Some coordinate in the list has this row and column.
pub(crate) open spec fn in_coord_list(s: Seq<Coord>, row: int, col: int) -> bool {
    exists|i: int|
        0 <= i < s.len() && (#[trigger] s[i]).row as int == row && s[i].col as int == col
}

/// Some frontier entry has this row and column.
pub(crate) open spec fn in_open_list(s: Seq<OpenEntry>, row: int, col: int) -> bool {
    exists|i: int|
        0 <= i < s.len() && (#[trigger] s[i]).row as int == row && s[i].col as int == col
}

/// A coordinate found in a frontier is still found after entries are
/// appended behind it.
pub(crate) proof fn lemma_open_list_extend(s1: Seq<OpenEntry>, s2: Seq<OpenEntry>, row: int, col: int)
    requires
        in_open_list(s1, row, col),
        s2.len() >= s1.len(),
        forall|i: int| 0 <= i < s1.len() ==> (#[trigger] s2[i]) == s1[i],
    ensures
        in_open_list(s2, row, col),
{
    let j = choose|j: int|
        0 <= j < s1.len() && (#[trigger] s1[j]).row as int == row && s1[j].col as int == col;
    assert(s2[j] == s1[j]);
}

/// A cell named by a list of discovered cells is itself discovered.
pub(crate) proof fn lemma_closed_list_discovered(
    grid: Grid,
    t: Seq<CellInfo>,
    closed: Seq<Coord>,
    r2: int,
    c2: int,
)
    requires
        in_coord_list(closed, r2, c2),
        forall|i: int|
            0 <= i < closed.len() ==> discovered_at(
                grid,
                t,
                (#[trigger] closed[i]).row as int,
                closed[i].col as int,
            ),
    ensures
        discovered_at(grid, t, r2, c2),
{
    let j = choose|j: int|
        0 <= j < closed.len() && (#[trigger] closed[j]).row as int == r2 && closed[j].col as int
            == c2;
    assert(discovered_at(grid, t, closed[j].row as int, closed[j].col as int));
}

/// Every passable in-bounds neighbor of an expanded cell is discovered.
pub(crate) open spec fn closed_neighbors_ok(grid: Grid, t: Seq<CellInfo>, c: Coord) -> bool {
    forall|r2: int, c2: int|
        grid.in_bounds(r2, c2) && #[trigger] grid.passable_at(r2, c2) && adjacent_rc(
            c.row as int,
            c.col as int,
            r2,
            c2,
        ) ==> discovered_at(grid, t, r2, c2)
}

/// While the goal is undiscovered, fewer cells are discovered than the
/// grid holds, so every cost in a counted table stays under the total.
pub(crate) proof fn lemma_discovered_set_bound(grid: Grid, t: Seq<CellInfo>, goal: Coord)
    requires
        table_wf(grid, t),
        grid.in_bounds_coord(goal),
        !discovered_at(grid, t, goal.row as int, goal.col as int),
    ensures
        discovered_set(t).finite(),
        discovered_set(t).len() <= grid.spec_rows() * grid.spec_cols() - 1,
{
    let total = grid.spec_rows() * grid.spec_cols();
    let gi = grid.spec_flat_index(goal.row as int, goal.col as int);
    lemma_flat_index_bounds(goal.row as int, goal.col as int, grid.spec_rows(), grid.spec_cols());
    lemma_int_range(0, total);
    let big = set_int_range(0, total).remove(gi);
    assert(set_int_range(0, total).contains(gi));
    assert(big.len() == total - 1);
    assert(discovered_set(t).subset_of(big)) by {
        assert forall|i: int| discovered_set(t).contains(i) implies big.contains(i) by {
            assert(0 <= i < t.len() && t[i].discovered);
        }
    }
    lemma_len_subset(discovered_set(t), big);
}

/// Every cell that a valid route visits is discovered, once the frontier
/// is empty: the start is discovered, every discovered cell has been
/// expanded, and expansion discovers every passable neighbor.
pub(crate) proof fn lemma_reachable_discovered(
    grid: Grid,
    t: Seq<CellInfo>,
    closed: Seq<Coord>,
    start: Coord,
    goal: Coord,
    path: Seq<Coord>,
    k: int,
)
    requires
        is_valid_path(grid, path, start, goal),
        0 <= k < path.len(),
        discovered_at(grid, t, start.row as int, start.col as int),
        forall|row: int, col: int|
            grid.in_bounds(row, col) && #[trigger] discovered_at(grid, t, row, col)
                ==> in_coord_list(closed, row, col),
        forall|i: int| 0 <= i < closed.len() ==> closed_neighbors_ok(grid, t, #[trigger] closed[i]),
    ensures
        discovered_at(grid, t, path[k].row as int, path[k].col as int),
    decreases k,
{
    if k == 0 {
        assert(path[0] == start);
    } else {
        lemma_reachable_discovered(grid, t, closed, start, goal, path, k - 1);
        let prev = path[k - 1];
        let curc = path[k];
        assert(grid.in_bounds_coord(prev) && grid.passable_coord(prev));
        assert(grid.in_bounds_coord(curc) && grid.passable_coord(curc));
        assert(adjacent(prev, curc));
        assert(in_coord_list(closed, prev.row as int, prev.col as int));
        let j = choose|j: int|
            0 <= j < closed.len() && (#[trigger] closed[j]).row as int == prev.row as int
                && closed[j].col as int == prev.col as int;
        assert(closed_neighbors_ok(grid, t, closed[j]));
        assert(grid.passable_at(curc.row as int, curc.col as int));
    }
}

/// Termination potential of one table entry: an undiscovered cell counts
/// the cap, a discovered one its cost, which only ever shrinks.
pub(crate) open spec fn pot(e: CellInfo, cap: nat) -> nat {
    if e.discovered {
        e.g as nat
    } else {
        cap
    }
}

/// Termination potential of the whole table.
pub(crate) open spec fn potential(t: Seq<CellInfo>, cap: nat) -> nat
    decreases t.len(),
{
    if t.len() == 0 {
        0
    } else {
        pot(t[0], cap) + potential(t.drop_first(), cap)
    }
}

/// Updating one entry changes the potential by the entries' difference.
pub(crate) proof fn lemma_potential_update(t: Seq<CellInfo>, i: int, v: CellInfo, cap: nat)
    requires
        0 <= i < t.len(),
    ensures
        potential(t.update(i, v), cap) + pot(t[i], cap) == potential(t, cap) + pot(v, cap),
    decreases t.len(),
{
    let u = t.update(i, v);
    if i == 0 {
        assert(u.drop_first() =~= t.drop_first());
    } else {
        assert(u.drop_first() =~= t.drop_first().update(i - 1, v));
        lemma_potential_update(t.drop_first(), i - 1, v, cap);
    }
}

/// A coordinate has this row and column.
pub open spec fn coord_matches(c: Coord, row: i32, col: i32) -> bool {
    c.row == row && c.col == col
}

/// Whether some coordinate in the list has this row and column. This is
/// how the engine asks whether a cell is already in the closed set.
pub fn pos_is_in_list(row: i32, col: i32, list: &Vec<Coord>) -> (r: bool)
    ensures
        r == exists|i: int| 0 <= i < list@.len() && #[trigger] coord_matches(list@[i], row, col),
{
    let mut k: usize = 0;
    while k < list.len()
        invariant
            k <= list@.len(),
            forall|i: int| 0 <= i < k ==> !#[trigger] coord_matches(list@[i], row, col),
        decreases list@.len() - k,
    {
        if list[k].row == row && list[k].col == col {
            assert(coord_matches(list@[k as int], row, col));
            return true;
        }
        k += 1;
    }
    false
}

/// Heuristic estimate from (row, col) to the goal: the Manhattan
/// distance, an admissible lower bound for 4-directional unit-cost moves.
pub fn get_heuristic(row: i32, col: i32, goal: Coord) -> (h: usize)
    requires
        0 <= row <= MAX_DIM as i32,
        0 <= col <= MAX_DIM as i32,
        0 <= goal.row <= MAX_DIM as i32,
        0 <= goal.col <= MAX_DIM as i32,
    ensures
        h == manhattan_rc(row as int, col as int, goal.row as int, goal.col as int),
{
    let dr: i32 = if row >= goal.row {
        row - goal.row
    } else {
        goal.row - row
    };
    let dc: i32 = if col >= goal.col {
        col - goal.col
    } else {
        goal.col - col
    };
    (dr as usize) + (dc as usize)
}

/// Index of the first frontier entry with the lowest priority: a linear
/// scan with a strict comparison, so the earliest minimum wins.
fn lowest_f_index(open: &Vec<OpenEntry>) -> (r: usize)
    requires
        open@.len() > 0,
    ensures
        r < open@.len(),
        forall|i: int| 0 <= i < open@.len() ==> open@[r as int].f <= #[trigger] open@[i].f,
        forall|i: int| 0 <= i < r ==> open@[r as int].f < #[trigger] open@[i].f,
{
    let mut best: usize = 0;
    let mut k: usize = 1;
    while k < open.len()
        invariant
            best < k,
            k <= open@.len(),
            forall|i: int| 0 <= i < k ==> open@[best as int].f <= #[trigger] open@[i].f,
            forall|i: int| 0 <= i < best ==> open@[best as int].f < #[trigger] open@[i].f,
        decreases open@.len() - k,
    {
        if open[k].f < open[best].f {
            best = k;
        }
        k += 1;
    }
    best
}

/// Updating the entry of one in-bounds cell leaves every other cell's
/// entry unchanged.
pub(crate) proof fn lemma_entry_after_update(
    grid: Grid,
    t0: Seq<CellInfo>,
    nrow: int,
    ncol: int,
    v: CellInfo,
    row: int,
    col: int,
)
    requires
        table_wf(grid, t0),
        grid.in_bounds(nrow, ncol),
        grid.in_bounds(row, col),
    ensures
        entry(grid, t0.update(grid.spec_flat_index(nrow, ncol), v), row, col) == (if row == nrow
            && col == ncol {
            v
        } else {
            entry(grid, t0, row, col)
        }),
{
    lemma_flat_index_bounds(nrow, ncol, grid.spec_rows(), grid.spec_cols());
    lemma_flat_index_bounds(row, col, grid.spec_rows(), grid.spec_cols());
    if grid.spec_flat_index(row, col) == grid.spec_flat_index(nrow, ncol) {
        lemma_flat_index_injective(row, col, nrow, ncol, grid.spec_cols());
    }
}

/// Writing a well-chained entry for a non-start cell keeps the whole
/// table well-linked: the new cell points at a discovered, adjacent,
/// strictly cheaper parent, and when the cell was already discovered its
/// cost only shrinks, so cells pointing at it stay strictly costlier.
pub(crate) proof fn lemma_update_chain(
    grid: Grid,
    t0: Seq<CellInfo>,
    start: Coord,
    nrow: int,
    ncol: int,
    v: CellInfo,
)
    requires
        chain_inv(grid, t0, start),
        grid.in_bounds(nrow, ncol),
        grid.passable_at(nrow, ncol),
        !(nrow == start.row as int && ncol == start.col as int),
        v.discovered,
        grid.in_bounds_coord(v.parent),
        adjacent_rc(v.parent.row as int, v.parent.col as int, nrow, ncol),
        entry(grid, t0, v.parent.row as int, v.parent.col as int).discovered,
        entry(grid, t0, v.parent.row as int, v.parent.col as int).g < v.g,
        entry(grid, t0, nrow, ncol).discovered ==> v.g < entry(grid, t0, nrow, ncol).g,
    ensures
        chain_inv(grid, t0.update(grid.spec_flat_index(nrow, ncol), v), start),
{
    lemma_flat_index_bounds(nrow, ncol, grid.spec_rows(), grid.spec_cols());
    let t1 = t0.update(grid.spec_flat_index(nrow, ncol), v);
    lemma_entry_after_update(grid, t0, nrow, ncol, v, start.row as int, start.col as int);
    assert forall|row: int, col: int| grid.in_bounds(row, col) implies #[trigger] cell_linked(
        grid,
        t1,
        start,
        row,
        col,
    ) by {
        assert(cell_linked(grid, t0, start, row, col));
        lemma_entry_after_update(grid, t0, nrow, ncol, v, row, col);
        if row == nrow && col == ncol {
            let p = v.parent;
            lemma_entry_after_update(grid, t0, nrow, ncol, v, p.row as int, p.col as int);
        } else {
            let e = entry(grid, t0, row, col);
            if e.discovered && !(row == start.row as int && col == start.col as int) {
                let p = e.parent;
                lemma_entry_after_update(grid, t0, nrow, ncol, v, p.row as int, p.col as int);
                assert(cell_linked(grid, t0, start, p.row as int, p.col as int));
            }
        }
    }
}

/// Expands one neighbor of the cell just removed from the frontier: the
/// bounds, occupancy and closed-set skips, the goal short-circuit, and
/// the cost-improvement push, in the order the main loop relies on.
/// Returns whether the neighbor is the goal, which ends the search.
fn expand_neighbor(
    grid: &Grid,
    t: &mut Vec<CellInfo>,
    open: &mut Vec<OpenEntry>,
    closed: &Vec<Coord>,
    lowest: Coord,
    dr: i32,
    dc: i32,
    start: Coord,
    goal: Coord,
) -> (found: bool)
    requires
        chain_inv(*grid, old(t)@, start),
        f_inv(*grid, old(t)@, goal),
        cap_inv(*grid, old(t)@),
        count_inv(*grid, old(t)@),
        open_inv(*grid, old(t)@, old(open)@, goal),
        grid.in_bounds_coord(lowest),
        discovered_at(*grid, old(t)@, lowest.row as int, lowest.col as int),
        grid.in_bounds_coord(goal),
        grid.passable_coord(goal),
        !discovered_at(*grid, old(t)@, goal.row as int, goal.col as int),
        !(start.row == goal.row && start.col == goal.col),
        !(lowest.row == goal.row && lowest.col == goal.col),
        (dr == 1 && dc == 0) || (dr == 0 && dc == 1) || (dr == 0 && dc == -1) || (dr == -1 && dc
            == 0),
    ensures
        chain_inv(*grid, final(t)@, start),
        forall|row: int, col: int|
            grid.in_bounds(row, col) && discovered_at(*grid, old(t)@, row, col)
                ==> #[trigger] discovered_at(*grid, final(t)@, row, col),
        !found ==> f_inv(*grid, final(t)@, goal),
        !found ==> cap_inv(*grid, final(t)@),
        !found ==> open_inv(*grid, final(t)@, final(open)@, goal),
        !found ==> !discovered_at(*grid, final(t)@, goal.row as int, goal.col as int),
        !found ==> final(open)@.len() + potential(
            final(t)@,
            (grid.spec_rows() * grid.spec_cols()) as nat,
        ) <= old(open)@.len() + potential(old(t)@, (grid.spec_rows() * grid.spec_cols()) as nat),
        found ==> discovered_at(*grid, final(t)@, goal.row as int, goal.col as int),
        found ==> entry(*grid, final(t)@, goal.row as int, goal.col as int).g <= grid.spec_rows()
            * grid.spec_cols(),
        !found ==> count_inv(*grid, final(t)@),
        !found ==> (!grid.in_bounds(lowest.row + dr, lowest.col + dc) || !grid.passable_at(
            lowest.row + dr,
            lowest.col + dc,
        ) || in_coord_list(closed@, lowest.row + dr, lowest.col + dc) || discovered_at(
            *grid,
            final(t)@,
            lowest.row + dr,
            lowest.col + dc,
        )),
        final(open)@.len() >= old(open)@.len(),
        forall|i: int|
            0 <= i < old(open)@.len() ==> (#[trigger] final(open)@[i]) == old(open)@[i],
        !found ==> forall|row: int, col: int|
            grid.in_bounds(row, col) && #[trigger] discovered_at(*grid, final(t)@, row, col)
                && !discovered_at(*grid, old(t)@, row, col) ==> in_open_list(
                final(open)@,
                row,
                col,
            ),
{
    proof {
        use_type_invariant(&*grid);
        grid.lemma_dims();
    }
    let new_row = lowest.row + dr;
    let new_col = lowest.col + dc;
    if !grid.is_valid(new_row, new_col) {
        return false;
    }
    if grid.is_blocked(new_row, new_col) {
        return false;
    }
    if pos_is_in_list(new_row, new_col, closed) {
        proof {
            let i = choose|i: int|
                0 <= i < closed@.len() && #[trigger] coord_matches(closed@[i], new_row, new_col);
            assert(0 <= i < closed@.len() && closed@[i].row as int == lowest.row + dr
                && closed@[i].col as int == lowest.col + dc);
        }
        return false;
    }
    let ghost cap = (grid.spec_rows() * grid.spec_cols()) as nat;
    let ghost total = grid.spec_rows() * grid.spec_cols();
    let li = grid.flat_index(lowest.row, lowest.col);
    proof {
        assert(cell_cap_ok(*grid, t@, lowest.row as int, lowest.col as int));
    }
    let g_low = t[li].g;
    let g_new = g_low + 1;
    let ghost t0 = t@;
    let ni = grid.flat_index(new_row, new_col);
    if new_row == goal.row && new_col == goal.col {
        let v = CellInfo { discovered: true, g: g_new, f: g_new, parent: lowest };
        t[ni] = v;
        proof {
            lemma_update_chain(*grid, t0, start, new_row as int, new_col as int, v);
            lemma_entry_after_update(
                *grid,
                t0,
                new_row as int,
                new_col as int,
                v,
                goal.row as int,
                goal.col as int,
            );
            assert forall|row: int, col: int|
                grid.in_bounds(row, col) && discovered_at(*grid, t0, row, col)
                    implies #[trigger] discovered_at(*grid, t@, row, col) by {
                lemma_entry_after_update(*grid, t0, new_row as int, new_col as int, v, row, col);
            }
        }
        return true;
    }
    let h_new = get_heuristic(new_row, new_col, goal);
    let f_new = g_new + h_new;
    let e_old = t[ni];
    proof {
        assert(e_old == entry(*grid, t0, new_row as int, new_col as int));
        assert(cell_f_ok(*grid, t0, goal, new_row as int, new_col as int));
        assert(cell_cap_ok(*grid, t0, new_row as int, new_col as int));
        assert(cell_count_ok(*grid, t0, new_row as int, new_col as int));
        assert(cell_count_ok(*grid, t0, lowest.row as int, lowest.col as int));
        lemma_discovered_set_bound(*grid, t0, goal);
        assert(g_new < total);
    }
    if !e_old.discovered || f_new < e_old.f {
        proof {
            if new_row == start.row && new_col == start.col {
                assert(e_old.discovered && e_old.g == 0);
                assert(e_old.f == manhattan_rc(
                    new_row as int,
                    new_col as int,
                    goal.row as int,
                    goal.col as int,
                ));
                assert(false);
            }
        }
        let v = CellInfo { discovered: true, g: g_new, f: f_new, parent: lowest };
        t[ni] = v;
        open.push(OpenEntry { row: new_row, col: new_col, f: f_new });
        proof {
            lemma_update_chain(*grid, t0, start, new_row as int, new_col as int, v);
            lemma_entry_after_update(
                *grid,
                t0,
                new_row as int,
                new_col as int,
                v,
                goal.row as int,
                goal.col as int,
            );
            assert forall|row: int, col: int|
                grid.in_bounds(row, col) && discovered_at(*grid, t0, row, col)
                    implies #[trigger] discovered_at(*grid, t@, row, col) by {
                lemma_entry_after_update(*grid, t0, new_row as int, new_col as int, v, row, col);
            }
            assert forall|row: int, col: int| grid.in_bounds(row, col)
                implies #[trigger] cell_f_ok(*grid, t@, goal, row, col) by {
                assert(cell_f_ok(*grid, t0, goal, row, col));
                lemma_entry_after_update(*grid, t0, new_row as int, new_col as int, v, row, col);
            }
            assert forall|row: int, col: int| grid.in_bounds(row, col)
                implies #[trigger] cell_cap_ok(*grid, t@, row, col) by {
                assert(cell_cap_ok(*grid, t0, row, col));
                lemma_entry_after_update(*grid, t0, new_row as int, new_col as int, v, row, col);
            }
            assert forall|i: int| 0 <= i < open@.len() implies #[trigger] open_entry_ok(
                *grid,
                t@,
                goal,
                open@[i],
            ) by {
                if i < open@.len() - 1 {
                    assert(open_entry_ok(*grid, t0, goal, old(open)@[i]));
                    let e = old(open)@[i];
                    lemma_entry_after_update(
                        *grid,
                        t0,
                        new_row as int,
                        new_col as int,
                        v,
                        e.row as int,
                        e.col as int,
                    );
                } else {
                    lemma_entry_after_update(
                        *grid,
                        t0,
                        new_row as int,
                        new_col as int,
                        v,
                        new_row as int,
                        new_col as int,
                    );
                }
            }
            lemma_flat_index_bounds(
                new_row as int,
                new_col as int,
                grid.spec_rows(),
                grid.spec_cols(),
            );
            lemma_potential_update(t0, grid.spec_flat_index(new_row as int, new_col as int), v, cap);
            assert(pot(v, cap) + 1 <= pot(entry(*grid, t0, new_row as int, new_col as int), cap));
            let ds0 = discovered_set(t0);
            let ni_int = grid.spec_flat_index(new_row as int, new_col as int);
            if e_old.discovered {
                assert(discovered_set(t@) =~= ds0);
            } else {
                assert(!ds0.contains(ni_int));
                assert(discovered_set(t@) =~= ds0.insert(ni_int));
                assert(discovered_set(t@).len() == ds0.len() + 1);
            }
            assert forall|row: int, col: int| grid.in_bounds(row, col)
                implies #[trigger] cell_count_ok(*grid, t@, row, col) by {
                assert(cell_count_ok(*grid, t0, row, col));
                lemma_entry_after_update(*grid, t0, new_row as int, new_col as int, v, row, col);
            }
            assert forall|row: int, col: int|
                grid.in_bounds(row, col) && #[trigger] discovered_at(*grid, t@, row, col)
                    && !discovered_at(*grid, t0, row, col) implies in_open_list(
                open@,
                row,
                col,
            ) by {
                lemma_entry_after_update(*grid, t0, new_row as int, new_col as int, v, row, col);
                assert(open@[open@.len() - 1].row as int == row && open@[open@.len() - 1].col
                    as int == col);
            }
        }
        return false;
    }
    proof {
        assert(e_old.discovered);
    }
    false
}

/// Walks parent pointers from the goal back to the start and returns the
/// route in start-to-goal order. The walk is bounded by the cell count
/// and fails closed when the bound trips; a well-linked table provably
/// never trips it, since each parent step strictly lowers the cost.
fn reconstruct(grid: &Grid, t: &Vec<CellInfo>, start: Coord, goal: Coord) -> (r: Option<
    Vec<Coord>,
>)
    requires
        chain_inv(*grid, t@, start),
        grid.in_bounds_coord(goal),
        discovered_at(*grid, t@, goal.row as int, goal.col as int),
        entry(*grid, t@, goal.row as int, goal.col as int).g <= grid.spec_rows()
            * grid.spec_cols(),
    ensures
        r matches Some(p) && is_valid_path(*grid, p@, start, goal),
{
    proof {
        use_type_invariant(&*grid);
        grid.lemma_dims();
    }
    let bound = grid.total_cells();
    let mut trace: Vec<Coord> = Vec::new();
    let mut cur: Coord = goal;
    let mut steps: usize = 0;
    while !(cur.row == start.row && cur.col == start.col)
        invariant
            chain_inv(*grid, t@, start),
            grid.in_bounds_coord(goal),
            discovered_at(*grid, t@, goal.row as int, goal.col as int),
            bound == grid.spec_rows() * grid.spec_cols(),
            entry(*grid, t@, goal.row as int, goal.col as int).g <= bound,
            grid.in_bounds_coord(cur),
            discovered_at(*grid, t@, cur.row as int, cur.col as int),
            steps == trace@.len(),
            steps + entry(*grid, t@, cur.row as int, cur.col as int).g <= entry(
                *grid,
                t@,
                goal.row as int,
                goal.col as int,
            ).g,
            trace@.len() == 0 ==> cur == goal,
            trace@.len() > 0 ==> trace@[0] == goal,
            trace@.len() > 0 ==> adjacent(cur, trace@[trace@.len() - 1]),
            forall|j: int|
                0 <= j < trace@.len() ==> grid.in_bounds_coord(#[trigger] trace@[j])
                    && grid.passable_coord(trace@[j]),
            forall|j: int|
                0 <= j < trace@.len() - 1 ==> adjacent(trace@[j + 1], #[trigger] trace@[j]),
        decreases entry(*grid, t@, cur.row as int, cur.col as int).g,
    {
        proof {
            assert(cell_linked(*grid, t@, start, cur.row as int, cur.col as int));
        }
        if steps >= bound {
            return None;
        }
        trace.push(cur);
        let ci = grid.flat_index(cur.row, cur.col);
        let nxt = t[ci].parent;
        proof {
            assert(cell_linked(*grid, t@, start, nxt.row as int, nxt.col as int));
        }
        cur = nxt;
        steps = steps + 1;
    }
    assert(cur == start);
    let ghost tr0 = trace@;
    trace.push(cur);
    proof {
        assert forall|j: int|
            0 <= j < trace@.len() implies grid.in_bounds_coord(#[trigger] trace@[j])
            && grid.passable_coord(trace@[j]) by {
            if j < tr0.len() {
                assert(trace@[j] == tr0[j]);
            } else {
                assert(trace@[j] == cur);
                assert(cell_linked(*grid, t@, start, cur.row as int, cur.col as int));
            }
        }
        assert forall|j: int| 0 <= j < trace@.len() - 1 implies adjacent(
            trace@[j + 1],
            #[trigger] trace@[j],
        ) by {
            if j < tr0.len() - 1 {
                assert(trace@[j] == tr0[j] && trace@[j + 1] == tr0[j + 1]);
            } else {
                assert(trace@[j] == tr0[tr0.len() - 1] && trace@[j + 1] == cur);
            }
        }
        assert(trace@[0] == goal);
        assert(trace@[trace@.len() - 1] == start);
    }
    let n = trace.len();
    let mut out: Vec<Coord> = Vec::new();
    let mut k: usize = n;
    while k > 0
        invariant
            k <= n,
            n == trace@.len(),
            out@.len() == n - k,
            forall|j: int| 0 <= j < out@.len() ==> (#[trigger] out@[j]) == trace@[n - 1 - j],
        decreases k,
    {
        k = k - 1;
        out.push(trace[k]);
    }
    proof {
        assert forall|j: int|
            0 <= j < out@.len() implies grid.in_bounds_coord(#[trigger] out@[j])
            && grid.passable_coord(out@[j]) by {
            assert(out@[j] == trace@[n - 1 - j]);
            assert(grid.in_bounds_coord(trace@[n - 1 - j]) && grid.passable_coord(
                trace@[n - 1 - j],
            ));
        }
        assert forall|j: int| 0 <= j < out@.len() - 1 implies adjacent(
            #[trigger] out@[j],
            out@[j + 1],
        ) by {
            let j2 = n - 2 - j;
            assert(out@[j] == trace@[j2 + 1] && out@[j + 1] == trace@[j2]);
            assert(adjacent(trace@[j2 + 1], trace@[j2]));
        }
        assert(out@[0] == trace@[n - 1]);
        assert(out@[out@.len() - 1] == trace@[0]);
        assert(is_valid_path(*grid, out@, start, goal));
    }
    Some(out)
}

/// Turns a table that reached the goal into the reconstructed route.
fn conclude_found(grid: &Grid, t: &Vec<CellInfo>, start: Coord, goal: Coord) -> (r: PathResult)
    requires
        chain_inv(*grid, t@, start),
        grid.in_bounds_coord(goal),
        discovered_at(*grid, t@, goal.row as int, goal.col as int),
        entry(*grid, t@, goal.row as int, goal.col as int).g <= grid.spec_rows()
            * grid.spec_cols(),
    ensures
        r matches PathResult::Found(p) && is_valid_path(*grid, p@, start, goal),
{
    match reconstruct(grid, t, start, goal) {
        Some(p) => PathResult::Found(p),
        None => PathResult::ReconstructionError,
    }
}

/// Two searches over the same grid and endpoints agree on the kind of
/// outcome: the contract of `find_path` already pins which variant comes
/// back, so any two results meeting it classify the inputs identically.
/// Which of several equally short routes is returned is not stated here.
pub proof fn lemma_outcome_deterministic(
    grid: Grid,
    start: Coord,
    goal: Coord,
    r1: PathResult,
    r2: PathResult,
)
    requires
        (r1 is InvalidEndpoint) <==> !endpoints_ok(grid, start, goal),
        !(r1 is ReconstructionError),
        (endpoints_ok(grid, start, goal) && !has_path(grid, start, goal)) ==> (r1
            is Unreachable),
        (endpoints_ok(grid, start, goal) && has_path(grid, start, goal)) ==> (r1 is Found),
        (r2 is InvalidEndpoint) <==> !endpoints_ok(grid, start, goal),
        !(r2 is ReconstructionError),
        (endpoints_ok(grid, start, goal) && !has_path(grid, start, goal)) ==> (r2
            is Unreachable),
        (endpoints_ok(grid, start, goal) && has_path(grid, start, goal)) ==> (r2 is Found),
    ensures
        (r1 is Found) == (r2 is Found),
        (r1 is Unreachable) == (r2 is Unreachable),
        (r1 is InvalidEndpoint) == (r2 is InvalidEndpoint),
{
}

/// Searches for a shortest route from `start` to `goal`.
///
/// Endpoints out of bounds or on blocked cells are rejected up front as
/// `InvalidEndpoint`, a start equal to the (passable) goal yields the
/// one-coordinate route, and otherwise an A*-style loop expands the
/// cheapest frontier cell, in the fixed neighbor order +row, +col, -col,
/// -row, stopping the moment a neighbor is the goal. Any route returned
/// is valid: it runs from start to goal over passable in-bounds cells in
/// unit axis-aligned steps. The search is also complete: whenever any
/// route exists one is returned, and otherwise the result is
/// `Unreachable`.
pub fn find_path(grid: &Grid, start: Coord, goal: Coord) -> (r: PathResult)
    ensures
        (r is InvalidEndpoint) <==> !endpoints_ok(*grid, start, goal),
        r matches PathResult::Found(p) ==> is_valid_path(*grid, p@, start, goal),
        r matches PathResult::Found(p) ==> has_path(*grid, start, goal),
        !(r is ReconstructionError),
        (endpoints_ok(*grid, start, goal) && start == goal) ==> (r matches PathResult::Found(p)
            && p@ == seq![start]),
        (endpoints_ok(*grid, start, goal) && !has_path(*grid, start, goal)) ==> (r
            is Unreachable),
        (endpoints_ok(*grid, start, goal) && has_path(*grid, start, goal)) ==> (r is Found),
{
    if !grid.is_valid(start.row, start.col) || !grid.is_valid(goal.row, goal.col) {
        return PathResult::InvalidEndpoint;
    }
    if grid.is_blocked(start.row, start.col) || grid.is_blocked(goal.row, goal.col) {
        return PathResult::InvalidEndpoint;
    }
    if start.row == goal.row && start.col == goal.col {
        let mut p: Vec<Coord> = Vec::new();
        p.push(start);
        proof {
            assert(p@ =~= seq![start]);
            assert(start == goal);
            assert(is_valid_path(*grid, p@, start, goal));
        }
        return PathResult::Found(p);
    }
    proof {
        use_type_invariant(&*grid);
        grid.lemma_dims();
    }
    let total = grid.total_cells();
    let mut table: Vec<CellInfo> = Vec::new();
    let mut k: usize = 0;
    while k < total
        invariant
            k <= total,
            table@.len() == k,
            forall|i: int| 0 <= i < k ==> !(#[trigger] table@[i]).discovered,
        decreases total - k,
    {
        table.push(CellInfo { discovered: false, g: 0, f: 0, parent: Coord { row: 0, col: 0 } });
        k += 1;
    }
    let ghost t_init = table@;
    let si = grid.flat_index(start.row, start.col);
    let h0 = get_heuristic(start.row, start.col, goal);
    let sinfo = CellInfo { discovered: true, g: 0, f: h0, parent: start };
    table[si] = sinfo;
    let mut open: Vec<OpenEntry> = Vec::new();
    open.push(OpenEntry { row: start.row, col: start.col, f: h0 });
    let mut closed: Vec<Coord> = Vec::new();
    proof {
        assert forall|row: int, col: int| grid.in_bounds(row, col) implies #[trigger] cell_linked(
            *grid,
            table@,
            start,
            row,
            col,
        ) by {
            lemma_entry_after_update(
                *grid,
                t_init,
                start.row as int,
                start.col as int,
                sinfo,
                row,
                col,
            );
            lemma_flat_index_bounds(row, col, grid.spec_rows(), grid.spec_cols());
        }
        assert forall|row: int, col: int| grid.in_bounds(row, col) implies #[trigger] cell_f_ok(
            *grid,
            table@,
            goal,
            row,
            col,
        ) by {
            lemma_entry_after_update(
                *grid,
                t_init,
                start.row as int,
                start.col as int,
                sinfo,
                row,
                col,
            );
            lemma_flat_index_bounds(row, col, grid.spec_rows(), grid.spec_cols());
        }
        assert forall|row: int, col: int| grid.in_bounds(row, col) implies #[trigger] cell_cap_ok(
            *grid,
            table@,
            row,
            col,
        ) by {
            lemma_entry_after_update(
                *grid,
                t_init,
                start.row as int,
                start.col as int,
                sinfo,
                row,
                col,
            );
            lemma_flat_index_bounds(row, col, grid.spec_rows(), grid.spec_cols());
        }
        lemma_entry_after_update(
            *grid,
            t_init,
            start.row as int,
            start.col as int,
            sinfo,
            start.row as int,
            start.col as int,
        );
        lemma_entry_after_update(
            *grid,
            t_init,
            start.row as int,
            start.col as int,
            sinfo,
            goal.row as int,
            goal.col as int,
        );
        lemma_flat_index_bounds(goal.row as int, goal.col as int, grid.spec_rows(), grid.spec_cols());
        assert(open_inv(*grid, table@, open@, goal));
        let si_int = grid.spec_flat_index(start.row as int, start.col as int);
        assert(discovered_set(table@) =~= Set::<int>::empty().insert(si_int)) by {
            assert forall|i: int| #[trigger] discovered_set(table@).contains(i) implies i
                == si_int by {
                assert(0 <= i < table@.len() && table@[i].discovered);
            }
            assert(0 <= si_int < table@.len() && table@[si_int].discovered);
        }
        assert(discovered_set(table@).len() == 1);
        assert forall|row: int, col: int| grid.in_bounds(row, col)
            implies #[trigger] cell_count_ok(*grid, table@, row, col) by {
            lemma_entry_after_update(
                *grid,
                t_init,
                start.row as int,
                start.col as int,
                sinfo,
                row,
                col,
            );
            lemma_flat_index_bounds(row, col, grid.spec_rows(), grid.spec_cols());
        }
        assert forall|row: int, col: int|
            grid.in_bounds(row, col) && #[trigger] discovered_at(*grid, table@, row, col)
                implies in_open_list(open@, row, col) || in_coord_list(closed@, row, col) by {
            lemma_entry_after_update(
                *grid,
                t_init,
                start.row as int,
                start.col as int,
                sinfo,
                row,
                col,
            );
            lemma_flat_index_bounds(row, col, grid.spec_rows(), grid.spec_cols());
            assert(open@[0].row as int == row && open@[0].col as int == col);
        }
    }
    while open.len() > 0
        invariant
            chain_inv(*grid, table@, start),
            f_inv(*grid, table@, goal),
            cap_inv(*grid, table@),
            count_inv(*grid, table@),
            open_inv(*grid, table@, open@, goal),
            !discovered_at(*grid, table@, goal.row as int, goal.col as int),
            endpoints_ok(*grid, start, goal),
            !(start.row == goal.row && start.col == goal.col),
            forall|row: int, col: int|
                grid.in_bounds(row, col) && #[trigger] discovered_at(*grid, table@, row, col)
                    ==> in_open_list(open@, row, col) || in_coord_list(closed@, row, col),
            forall|i: int|
                0 <= i < closed@.len() ==> grid.in_bounds_coord(#[trigger] closed@[i])
                    && discovered_at(*grid, table@, closed@[i].row as int, closed@[i].col as int),
            forall|i: int|
                0 <= i < closed@.len() ==> closed_neighbors_ok(
                    *grid,
                    table@,
                    #[trigger] closed@[i],
                ),
        decreases open@.len() + potential(table@, (grid.spec_rows() * grid.spec_cols()) as nat),
    {
        let li = lowest_f_index(&open);
        let ghost open_pre = open@;
        let ghost closed_pre = closed@;
        let le = open.swap_remove(li);
        let lowest = Coord { row: le.row, col: le.col };
        proof {
            assert(open_entry_ok(*grid, table@, goal, open_pre[li as int]));
            assert forall|i: int| 0 <= i < open@.len() implies #[trigger] open_entry_ok(
                *grid,
                table@,
                goal,
                open@[i],
            ) by {
                if i == li {
                    assert(open@[i] == open_pre[open_pre.len() - 1]);
                } else {
                    assert(open@[i] == open_pre[i]);
                }
                assert(open_entry_ok(*grid, table@, goal, open_pre[open_pre.len() - 1]));
            }
        }
        closed.push(lowest);
        let ghost t_a = table@;
        let ghost open_a = open@;
        let ghost closed_a = closed@;
        let mut found = expand_neighbor(
            grid,
            &mut table,
            &mut open,
            &closed,
            lowest,
            1,
            0,
            start,
            goal,
        );
        let ghost t_b = table@;
        let ghost open_b = open@;
        if !found {
            proof {
                assert(discovered_at(*grid, table@, lowest.row as int, lowest.col as int));
            }
            found = expand_neighbor(grid, &mut table, &mut open, &closed, lowest, 0, 1, start, goal);
        }
        let ghost t_c = table@;
        let ghost open_c = open@;
        if !found {
            proof {
                assert(discovered_at(*grid, table@, lowest.row as int, lowest.col as int));
            }
            found = expand_neighbor(
                grid,
                &mut table,
                &mut open,
                &closed,
                lowest,
                0,
                -1,
                start,
                goal,
            );
        }
        let ghost t_d = table@;
        let ghost open_d = open@;
        if !found {
            proof {
                assert(discovered_at(*grid, table@, lowest.row as int, lowest.col as int));
            }
            found = expand_neighbor(
                grid,
                &mut table,
                &mut open,
                &closed,
                lowest,
                -1,
                0,
                start,
                goal,
            );
        }
        if found {
            let res = conclude_found(grid, &table, start, goal);
            proof {
                let pseq = res->Found_0@;
                assert(is_valid_path(*grid, pseq, start, goal));
                assert(has_path(*grid, start, goal));
            }
            return res;
        }
        proof {
            let t_e = table@;
            let open_e = open@;
            // every entry of the grown closed list was discovered before any
            // of this iteration's table updates
            assert forall|i2: int|
                0 <= i2 < closed_a.len() implies grid.in_bounds_coord(#[trigger] closed_a[i2])
                && discovered_at(
                *grid,
                t_a,
                closed_a[i2].row as int,
                closed_a[i2].col as int,
            ) by {
                if i2 < closed_pre.len() {
                    assert(closed_a[i2] == closed_pre[i2]);
                } else {
                    assert(closed_a[i2] == lowest);
                }
            }
            // frontier coverage of the discovered cells
            assert forall|row: int, col: int|
                grid.in_bounds(row, col) && #[trigger] discovered_at(*grid, t_e, row, col)
                    implies in_open_list(open_e, row, col) || in_coord_list(
                closed@,
                row,
                col,
            ) by {
                if !discovered_at(*grid, t_d, row, col) {
                    assert(in_open_list(open_e, row, col));
                } else if !discovered_at(*grid, t_c, row, col) {
                    assert(in_open_list(open_d, row, col));
                    lemma_open_list_extend(open_d, open_e, row, col);
                } else if !discovered_at(*grid, t_b, row, col) {
                    assert(in_open_list(open_c, row, col));
                    lemma_open_list_extend(open_c, open_d, row, col);
                    lemma_open_list_extend(open_d, open_e, row, col);
                } else if !discovered_at(*grid, t_a, row, col) {
                    assert(in_open_list(open_b, row, col));
                    lemma_open_list_extend(open_b, open_c, row, col);
                    lemma_open_list_extend(open_c, open_d, row, col);
                    lemma_open_list_extend(open_d, open_e, row, col);
                } else {
                    if in_coord_list(closed_pre, row, col) {
                        let j = choose|j: int|
                            0 <= j < closed_pre.len() && (#[trigger] closed_pre[j]).row as int
                                == row && closed_pre[j].col as int == col;
                        assert(closed@[j] == closed_pre[j]);
                        assert(in_coord_list(closed@, row, col));
                    } else {
                        assert(in_open_list(open_pre, row, col));
                        let j = choose|j: int|
                            0 <= j < open_pre.len() && (#[trigger] open_pre[j]).row as int == row
                                && open_pre[j].col as int == col;
                        if j == li {
                            assert(le == open_pre[li as int]);
                            assert(closed@[closed_pre.len() as int] == lowest);
                            assert(in_coord_list(closed@, row, col));
                        } else {
                            if j == open_pre.len() - 1 {
                                assert(open_a[li as int] == open_pre[open_pre.len() - 1]);
                            } else {
                                assert(open_a[j] == open_pre[j]);
                            }
                            assert(in_open_list(open_a, row, col));
                            lemma_open_list_extend(open_a, open_b, row, col);
                            lemma_open_list_extend(open_b, open_c, row, col);
                            lemma_open_list_extend(open_c, open_d, row, col);
                            lemma_open_list_extend(open_d, open_e, row, col);
                        }
                    }
                }
            }
            // the closed list still names in-bounds, discovered cells
            assert forall|i: int|
                0 <= i < closed@.len() implies grid.in_bounds_coord(#[trigger] closed@[i])
                && discovered_at(*grid, t_e, closed@[i].row as int, closed@[i].col as int) by {
                let c = closed@[i];
                assert(closed_a[i] == c);
                assert(discovered_at(*grid, t_a, c.row as int, c.col as int));
                assert(discovered_at(*grid, t_b, c.row as int, c.col as int));
                assert(discovered_at(*grid, t_c, c.row as int, c.col as int));
                assert(discovered_at(*grid, t_d, c.row as int, c.col as int));
                assert(discovered_at(*grid, t_e, c.row as int, c.col as int));
            }
            // every expanded cell still has all its passable neighbors
            // discovered, the cell expanded this iteration included
            assert forall|i: int| 0 <= i < closed@.len() implies closed_neighbors_ok(
                *grid,
                t_e,
                #[trigger] closed@[i],
            ) by {
                let c = closed@[i];
                if i < closed_pre.len() {
                    assert(closed_pre[i] == c);
                    assert(closed_neighbors_ok(*grid, t_a, c));
                    assert forall|r2: int, c2: int|
                        grid.in_bounds(r2, c2) && #[trigger] grid.passable_at(r2, c2)
                            && adjacent_rc(c.row as int, c.col as int, r2, c2)
                            implies discovered_at(*grid, t_e, r2, c2) by {
                        assert(discovered_at(*grid, t_a, r2, c2));
                        assert(discovered_at(*grid, t_b, r2, c2));
                        assert(discovered_at(*grid, t_c, r2, c2));
                        assert(discovered_at(*grid, t_d, r2, c2));
                    }
                } else {
                    assert(c == lowest);
                    assert forall|r2: int, c2: int|
                        grid.in_bounds(r2, c2) && #[trigger] grid.passable_at(r2, c2)
                            && adjacent_rc(lowest.row as int, lowest.col as int, r2, c2)
                            implies discovered_at(*grid, t_e, r2, c2) by {
                        if r2 == lowest.row + 1 && c2 == lowest.col as int {
                            if in_coord_list(closed_a, r2, c2) {
                                lemma_closed_list_discovered(*grid, t_a, closed_a, r2, c2);
                                assert(discovered_at(*grid, t_b, r2, c2));
                            }
                            assert(discovered_at(*grid, t_b, r2, c2));
                            assert(discovered_at(*grid, t_c, r2, c2));
                            assert(discovered_at(*grid, t_d, r2, c2));
                            assert(discovered_at(*grid, t_e, r2, c2));
                        } else if r2 == lowest.row as int && c2 == lowest.col + 1 {
                            if in_coord_list(closed_a, r2, c2) {
                                lemma_closed_list_discovered(*grid, t_a, closed_a, r2, c2);
                                assert(discovered_at(*grid, t_b, r2, c2));
                            }
                            assert(discovered_at(*grid, t_c, r2, c2));
                            assert(discovered_at(*grid, t_d, r2, c2));
                            assert(discovered_at(*grid, t_e, r2, c2));
                        } else if r2 == lowest.row as int && c2 == lowest.col - 1 {
                            if in_coord_list(closed_a, r2, c2) {
                                lemma_closed_list_discovered(*grid, t_a, closed_a, r2, c2);
                                assert(discovered_at(*grid, t_b, r2, c2));
                                assert(discovered_at(*grid, t_c, r2, c2));
                            }
                            assert(discovered_at(*grid, t_d, r2, c2));
                            assert(discovered_at(*grid, t_e, r2, c2));
                        } else {
                            assert(r2 == lowest.row - 1 && c2 == lowest.col as int);
                            if in_coord_list(closed_a, r2, c2) {
                                lemma_closed_list_discovered(*grid, t_a, closed_a, r2, c2);
                                assert(discovered_at(*grid, t_b, r2, c2));
                                assert(discovered_at(*grid, t_c, r2, c2));
                                assert(discovered_at(*grid, t_d, r2, c2));
                            }
                            assert(discovered_at(*grid, t_e, r2, c2));
                        }
                    }
                }
            }
        }
    }
    proof {
        if has_path(*grid, start, goal) {
            assert forall|row: int, col: int|
                grid.in_bounds(row, col) && #[trigger] discovered_at(*grid, table@, row, col)
                    implies in_coord_list(closed@, row, col) by {
                if in_open_list(open@, row, col) {
                    let j = choose|j: int|
                        0 <= j < open@.len() && (#[trigger] open@[j]).row as int == row
                            && open@[j].col as int == col;
                }
            }
            let p = choose|p: Seq<Coord>| is_valid_path(*grid, p, start, goal);
            lemma_reachable_discovered(*grid, table@, closed@, start, goal, p, p.len() - 1);
            assert(p[p.len() - 1] == goal);
        }
    }
    PathResult::Unreachable
}

} // verus!

