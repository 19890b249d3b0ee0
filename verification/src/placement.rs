//! Where things are put in a fresh maze: treasure, chests, the key, the
//! locked door, and the navigation pickups.
use vstd::prelude::*;
use crate::maze::{
    Cell, Direction, MazeMap, MAZE_COLUMNS, MAZE_ROWS, in_grid, manhattan, manhattan_distance,
    exit_cell, open_neighbors, open_neighbor_list, direction_between, step_direction, same_cell,
};
use crate::layout::{cell_at, lemma_cell_at};
use crate::maze::flat;
use crate::generate::lemma_cell_at_flat;
use crate::search::{route_between, first_route};
use crate::random::shuffle;

verus! {

/// The key lies at least this many steps (as the crow walks) from the start.
pub const MIN_KEY_SPAWN_DISTANCE: usize = 8;

/// The compass and treasure map lie at least this far from the start.
pub const MIN_NAV_PICKUP_SPAWN_DISTANCE: usize = 5;

/// The rat starts in the middle of the maze.
pub const RAT_SPAWN_CELL: Cell = (MAZE_COLUMNS / 2, MAZE_ROWS / 2);

/// Treasure held by each chest.
pub const TREASURE_PER_CHEST: u32 = 2;

/// The most chests a maze gets.
pub const MAX_CHESTS: usize = 3;

pub open spec fn rat_spawn() -> Cell {
    ((MAZE_COLUMNS / 2) as usize, (MAZE_ROWS / 2) as usize)
}

/// How many of a cell's four sides have no wall.
pub open spec fn open_side_count(m: MazeMap, c: Cell) -> int {
    (if m.wall(c, Direction::North) { 0int } else { 1int }) + (if m.wall(c, Direction::East) {
        0int
    } else {
        1int
    }) + (if m.wall(c, Direction::South) { 0int } else { 1int }) + (if m.wall(c, Direction::West) {
        0int
    } else {
        1int
    })
}

pub fn open_side_total(maze: &MazeMap, cell: Cell) -> (count: usize)
    requires
        in_grid(cell),
    ensures
        count == open_side_count(*maze, cell),
{
    let mut count: usize = 0;
    if !maze.has_wall(cell, Direction::North) {
        count = count + 1;
    }
    if !maze.has_wall(cell, Direction::East) {
        count = count + 1;
    }
    if !maze.has_wall(cell, Direction::South) {
        count = count + 1;
    }
    if !maze.has_wall(cell, Direction::West) {
        count = count + 1;
    }
    count
}

pub fn cell_listed(cells: &Vec<Cell>, cell: Cell) -> (listed: bool)
    ensures
        listed == cells@.contains(cell),
{
    let mut i: usize = 0;
    while i < cells.len()
        invariant
            0 <= i <= cells@.len(),
            forall|j: int| 0 <= j < i ==> #[trigger] cells@[j] != cell,
        decreases cells@.len() - i,
    {
        if same_cell(cells[i], cell) {
            return true;
        }
        i = i + 1;
    }
    false
}

/// Loose treasure goes in every dead end (a cell with exactly one open side)
/// more than two steps from the start, other than the start and exit cells.
pub open spec fn treasure_spot(m: MazeMap, start: Cell, c: Cell) -> bool {
    c != start && c != exit_cell() && manhattan(start, c) > 2 && open_side_count(m, c) == 1
}

/// The treasure cells among the first `n` cells in row-major order.
pub open spec fn treasure_upto(m: MazeMap, start: Cell, n: int) -> Seq<Cell>
    decreases n,
{
    if n <= 0 {
        seq![]
    } else {
        let c = cell_at(n - 1);
        treasure_upto(m, start, n - 1) + if treasure_spot(m, start, c) {
            seq![c]
        } else {
            seq![]
        }
    }
}

proof fn lemma_treasure_upto_before(m: MazeMap, start: Cell, n: int)
    requires
        0 <= n <= MAZE_COLUMNS * MAZE_ROWS,
    ensures
        forall|k: int| 0 <= k < treasure_upto(m, start, n).len() ==> {
            let c = #[trigger] treasure_upto(m, start, n)[k];
            in_grid(c) && c.1 * MAZE_COLUMNS + c.0 < n
        },
    decreases n,
{
    if n > 0 {
        lemma_treasure_upto_before(m, start, n - 1);
        let c = cell_at(n - 1);
        vstd::arithmetic::div_mod::lemma_fundamental_div_mod((n - 1) as int, MAZE_COLUMNS as int);
        let t = treasure_upto(m, start, n);
        let p = treasure_upto(m, start, n - 1);
        assert forall|k: int| 0 <= k < t.len() implies {
            let c = #[trigger] t[k];
            in_grid(c) && c.1 * MAZE_COLUMNS + c.0 < n
        } by {
            if k < p.len() {
                assert(t[k] == p[k]);
            }
        }
    }
}

proof fn lemma_treasure_upto(m: MazeMap, start: Cell, n: int)
    requires
        0 <= n <= MAZE_COLUMNS * MAZE_ROWS,
    ensures
        forall|k: int|
            0 <= k < treasure_upto(m, start, n).len() ==> in_grid(#[trigger] treasure_upto(m, start, n)[k]) && treasure_spot(
                m,
                start,
                treasure_upto(m, start, n)[k],
            ) && flat(treasure_upto(m, start, n)[k]) < n,
        forall|c: Cell| in_grid(c) && flat(c) < n && treasure_spot(m, start, c) ==> #[trigger] treasure_upto(m, start, n).contains(c),
    decreases n,
{
    if n > 0 {
        lemma_treasure_upto(m, start, n - 1);
        lemma_cell_at_flat(n - 1);
        let prev = treasure_upto(m, start, n - 1);
        let t = treasure_upto(m, start, n);
        let c0 = cell_at(n - 1);
        assert forall|k: int| 0 <= k < t.len() implies in_grid(#[trigger] t[k]) && treasure_spot(m, start, t[k]) && flat(t[k]) < n by {
            if k < prev.len() {
                assert(t[k] == prev[k]);
            }
        }
        assert forall|c: Cell| in_grid(c) && flat(c) < n && treasure_spot(m, start, c) implies #[trigger] t.contains(c) by {
            if flat(c) == n - 1 {
                crate::maze::lemma_flat_injective(c, c0);
                assert(t[t.len() - 1] == c);
            } else {
                assert(prev.contains(c));
                let k = choose|k: int| 0 <= k < prev.len() && prev[k] == c;
                assert(t[k] == c);
            }
        }
    }
}

/// Loose treasure lies in exactly the dead ends (one open side) more than
/// two steps from the start, other than the start and the exit chamber.
pub proof fn law_treasure_in_far_dead_ends(m: MazeMap, start: Cell, c: Cell)
    ensures
        treasure_upto(m, start, (MAZE_COLUMNS * MAZE_ROWS) as int).contains(c) <==> {
            &&& in_grid(c)
            &&& c != start
            &&& c != ((MAZE_COLUMNS - 1) as usize, (MAZE_ROWS - 1) as usize)
            &&& manhattan(start, c) > 2
            &&& (if m.wall(c, Direction::North) { 0int } else { 1int }) + (if m.wall(c, Direction::East) { 0int } else { 1int })
                + (if m.wall(c, Direction::South) { 0int } else { 1int }) + (if m.wall(c, Direction::West) { 0int } else { 1int }) == 1
        },
{
    let n = (MAZE_COLUMNS * MAZE_ROWS) as int;
    lemma_treasure_upto(m, start, n);
    let t = treasure_upto(m, start, n);
    if t.contains(c) {
        let k = choose|k: int| 0 <= k < t.len() && t[k] == c;
    }
}

/// The cells that get loose treasure, in row-major order.
pub fn treasure_cells(maze: &MazeMap, start_cell: Cell) -> (cells: Vec<Cell>)
    requires
        in_grid(start_cell),
    ensures
        cells@ == treasure_upto(*maze, start_cell, (MAZE_COLUMNS * MAZE_ROWS) as int),
        forall|k: int|
            0 <= k < cells@.len() ==> #[trigger] cells@[k] != start_cell && cells@[k] != ((MAZE_COLUMNS - 1) as usize, (MAZE_ROWS
                - 1) as usize) && in_grid(cells@[k]) && manhattan(start_cell, cells@[k]) > 2,
{
    let exit: Cell = (MAZE_COLUMNS - 1, MAZE_ROWS - 1);
    let mut cells: Vec<Cell> = Vec::new();
    let mut z: usize = 0;
    while z < MAZE_ROWS
        invariant
            0 <= z <= MAZE_ROWS,
            in_grid(start_cell),
            exit == exit_cell(),
            cells@ == treasure_upto(*maze, start_cell, z * MAZE_COLUMNS),
        decreases MAZE_ROWS - z,
    {
        let mut x: usize = 0;
        while x < MAZE_COLUMNS
            invariant
                0 <= z < MAZE_ROWS,
                0 <= x <= MAZE_COLUMNS,
                in_grid(start_cell),
                exit == exit_cell(),
                cells@ == treasure_upto(*maze, start_cell, z * MAZE_COLUMNS + x),
            decreases MAZE_COLUMNS - x,
        {
            let cell: Cell = (x, z);
            proof {
                lemma_cell_at(x, z);
                lemma_treasure_upto_before(*maze, start_cell, z * MAZE_COLUMNS + x);
            }
            if !same_cell(cell, start_cell) && !same_cell(cell, exit) {
                let spawn_distance = manhattan_distance(start_cell, cell);
                if spawn_distance > 2 && !cell_listed(&cells, cell) {
                    if open_side_total(maze, cell) == 1 {
                        cells.push(cell);
                    }
                }
            }
            x = x + 1;
        }
        z = z + 1;
    }
    proof {
        lemma_treasure_upto(*maze, start_cell, (MAZE_COLUMNS * MAZE_ROWS) as int);
    }
    cells
}

/// Chests go in the first three dead ends in row-major order that are not
/// the start, exit, key or rat cell.
pub open spec fn chest_spot(m: MazeMap, start: Cell, key: Cell, c: Cell) -> bool {
    c != start && c != exit_cell() && c != key && c != rat_spawn() && open_side_count(m, c) == 1
}

pub open spec fn chests_upto(m: MazeMap, start: Cell, key: Cell, n: int) -> Seq<Cell>
    decreases n,
{
    if n <= 0 {
        seq![]
    } else {
        let prev = chests_upto(m, start, key, n - 1);
        let c = cell_at(n - 1);
        if prev.len() < MAX_CHESTS && chest_spot(m, start, key, c) {
            prev.push(c)
        } else {
            prev
        }
    }
}

proof fn lemma_chests_upto(m: MazeMap, start: Cell, key: Cell, n: int)
    requires
        0 <= n <= MAZE_COLUMNS * MAZE_ROWS,
    ensures
        chests_upto(m, start, key, n).len() <= MAX_CHESTS,
        forall|k: int|
            0 <= k < chests_upto(m, start, key, n).len() ==> in_grid(#[trigger] chests_upto(m, start, key, n)[k]) && chest_spot(
                m,
                start,
                key,
                chests_upto(m, start, key, n)[k],
            ) && flat(chests_upto(m, start, key, n)[k]) < n,
        forall|k: int, l: int|
            0 <= k < l < chests_upto(m, start, key, n).len() ==> flat(#[trigger] chests_upto(m, start, key, n)[k]) < flat(
                #[trigger] chests_upto(m, start, key, n)[l],
            ),
        forall|c: Cell|
            in_grid(c) && flat(c) < n && chest_spot(m, start, key, c) && !#[trigger] chests_upto(m, start, key, n).contains(c)
                ==> chests_upto(m, start, key, n).len() == MAX_CHESTS && forall|k: int|
                0 <= k < chests_upto(m, start, key, n).len() ==> flat(#[trigger] chests_upto(m, start, key, n)[k]) < flat(c),
    decreases n,
{
    if n > 0 {
        lemma_chests_upto(m, start, key, n - 1);
        lemma_cell_at_flat(n - 1);
        let prev = chests_upto(m, start, key, n - 1);
        let t = chests_upto(m, start, key, n);
        let c0 = cell_at(n - 1);
        if prev.len() < MAX_CHESTS && chest_spot(m, start, key, c0) {
            assert(t == prev.push(c0));
            assert forall|k: int| 0 <= k < t.len() implies in_grid(#[trigger] t[k]) && chest_spot(m, start, key, t[k]) && flat(t[k]) < n by {
                if k < prev.len() {
                    assert(t[k] == prev[k]);
                }
            }
            assert forall|k: int, l: int| 0 <= k < l < t.len() implies flat(#[trigger] t[k]) < flat(#[trigger] t[l]) by {
                assert(t[k] == prev[k]);
                if l < prev.len() {
                    assert(t[l] == prev[l]);
                }
            }
            assert forall|c: Cell|
                in_grid(c) && flat(c) < n && chest_spot(m, start, key, c) && !#[trigger] t.contains(c) implies t.len() == MAX_CHESTS
                && forall|k: int| 0 <= k < t.len() ==> flat(#[trigger] t[k]) < flat(c) by {
                if flat(c) == n - 1 {
                    crate::maze::lemma_flat_injective(c, c0);
                    assert(t[t.len() - 1] == c);
                } else if !prev.contains(c) {
                    assert(prev.len() == MAX_CHESTS);
                } else {
                    let k = choose|k: int| 0 <= k < prev.len() && prev[k] == c;
                    assert(t[k] == c);
                }
            }
        } else {
            assert forall|c: Cell|
                in_grid(c) && flat(c) < n && chest_spot(m, start, key, c) && !#[trigger] t.contains(c) implies t.len() == MAX_CHESTS
                && forall|k: int| 0 <= k < t.len() ==> flat(#[trigger] t[k]) < flat(c) by {
                if flat(c) == n - 1 {
                    crate::maze::lemma_flat_injective(c, c0);
                } else {
                    assert(!prev.contains(c));
                }
            }
        }
    }
}

/// Chests go in the first three dead ends (one open side) in row-major
/// order that are not the start, the exit chamber, the key's cell or the
/// rat's cell: every chest is in such a cell, and such a cell without a
/// chest comes after three chests.
pub proof fn law_chests_in_first_dead_ends(m: MazeMap, start: Cell, key: Cell, c: Cell)
    ensures
        ({
            let t = chests_upto(m, start, key, (MAZE_COLUMNS * MAZE_ROWS) as int);
            let spot = {
                &&& in_grid(c)
                &&& c != start
                &&& c != ((MAZE_COLUMNS - 1) as usize, (MAZE_ROWS - 1) as usize)
                &&& c != key
                &&& c != ((MAZE_COLUMNS / 2) as usize, (MAZE_ROWS / 2) as usize)
                &&& (if m.wall(c, Direction::North) { 0int } else { 1int }) + (if m.wall(c, Direction::East) { 0int } else { 1int })
                    + (if m.wall(c, Direction::South) { 0int } else { 1int }) + (if m.wall(c, Direction::West) { 0int } else { 1int })
                    == 1
            };
            &&& t.len() <= 3
            &&& t.contains(c) ==> spot
            &&& spot && !t.contains(c) ==> t.len() == 3 && forall|k: int| 0 <= k < t.len() ==> flat(#[trigger] t[k]) < flat(c)
        }),
{
    let n = (MAZE_COLUMNS * MAZE_ROWS) as int;
    lemma_chests_upto(m, start, key, n);
    let t = chests_upto(m, start, key, n);
    if t.contains(c) {
        let k = choose|k: int| 0 <= k < t.len() && t[k] == c;
    }
    if in_grid(c) {
        assert(flat(c) < n);
    }
}

/// The cells that get a chest.
pub fn chest_cells(maze: &MazeMap, start_cell: Cell, key_cell: Cell) -> (cells: Vec<Cell>)
    ensures
        cells@ == chests_upto(*maze, start_cell, key_cell, (MAZE_COLUMNS * MAZE_ROWS) as int),
        cells@.len() <= MAX_CHESTS,
        forall|k: int|
            0 <= k < cells@.len() ==> #[trigger] cells@[k] != start_cell && cells@[k] != ((MAZE_COLUMNS - 1) as usize, (MAZE_ROWS
                - 1) as usize) && cells@[k] != key_cell && cells@[k] != ((MAZE_COLUMNS / 2) as usize, (MAZE_ROWS / 2) as usize)
                && in_grid(cells@[k]),
{
    let exit: Cell = (MAZE_COLUMNS - 1, MAZE_ROWS - 1);
    let rat: Cell = RAT_SPAWN_CELL;
    let mut cells: Vec<Cell> = Vec::new();
    let mut z: usize = 0;
    while z < MAZE_ROWS
        invariant
            0 <= z <= MAZE_ROWS,
            exit == exit_cell(),
            rat == rat_spawn(),
            cells@ == chests_upto(*maze, start_cell, key_cell, z * MAZE_COLUMNS),
            cells@.len() <= MAX_CHESTS,
        decreases MAZE_ROWS - z,
    {
        let mut x: usize = 0;
        while x < MAZE_COLUMNS
            invariant
                0 <= z < MAZE_ROWS,
                0 <= x <= MAZE_COLUMNS,
                exit == exit_cell(),
                rat == rat_spawn(),
                cells@ == chests_upto(*maze, start_cell, key_cell, z * MAZE_COLUMNS + x),
                cells@.len() <= MAX_CHESTS,
            decreases MAZE_COLUMNS - x,
        {
            let cell: Cell = (x, z);
            proof {
                lemma_cell_at(x, z);
            }
            if !(cells.len() >= MAX_CHESTS || same_cell(cell, start_cell) || same_cell(cell, exit)
                || same_cell(cell, key_cell) || same_cell(cell, rat)) {
                if open_side_total(maze, cell) == 1 {
                    cells.push(cell);
                }
            }
            x = x + 1;
        }
        z = z + 1;
    }
    proof {
        lemma_chests_upto(*maze, start_cell, key_cell, (MAZE_COLUMNS * MAZE_ROWS) as int);
    }
    cells
}

/// Treasure held by `chests` chests.
pub fn chest_treasure_total(chests: usize) -> (total: u32)
    requires
        chests <= MAX_CHESTS,
    ensures
        total == chests * TREASURE_PER_CHEST,
{
    (chests as u32) * TREASURE_PER_CHEST
}

/// The locked door stands in the exit chamber's first open side (in the order
/// North, East, South, West): the cell beyond it, and the direction from that
/// cell into the chamber.
pub open spec fn exit_door_spec(m: MazeMap) -> Option<(Cell, Direction)> {
    let l = open_neighbor_list(m, exit_cell());
    if l.len() > 0 {
        match step_direction(l[0], exit_cell()) {
            Some(d) => Some((l[0], d)),
            None => None,
        }
    } else {
        None
    }
}

pub fn exit_door(maze: &MazeMap) -> (door: Option<(Cell, Direction)>)
    ensures
        door == exit_door_spec(*maze),
{
    let exit: Cell = (MAZE_COLUMNS - 1, MAZE_ROWS - 1);
    let neighbors = open_neighbors(exit, maze);
    if neighbors.len() > 0 {
        let door_neighbor = neighbors[0];
        match direction_between(door_neighbor, exit) {
            Some(d) => Some((door_neighbor, d)),
            None => None,
        }
    } else {
        None
    }
}

/// Scanning the cells in row-major order, the farthest (by straight-line
/// steps, first found on ties) cell at least `min` from `start` that a walk
/// from `start` reaches, other than the start, exit and rat cells; with its
/// distance.
pub open spec fn far_pick(m: MazeMap, start: Cell, exit: Cell, min: int, n: int) -> (Option<Cell>, int)
    decreases n,
{
    if n <= 0 {
        (None, 0)
    } else {
        let prev = far_pick(m, start, exit, min, n - 1);
        let c = cell_at(n - 1);
        if c == start || c == exit || c == rat_spawn() {
            prev
        } else {
            let d = manhattan(start, c);
            if d < min || d <= prev.1 {
                prev
            } else if m.reaches(start, c, false) {
                (Some(c), d)
            } else {
                prev
            }
        }
    }
}

pub open spec fn far_spawn(m: MazeMap, start: Cell, exit: Cell, min: int) -> Option<Cell> {
    far_pick(m, start, exit, min, (MAZE_COLUMNS * MAZE_ROWS) as int).0
}

pub fn far_spawn_candidate(start_cell: Cell, exit_cell: Cell, maze: &MazeMap, min_distance: usize) -> (best: Option<Cell>)
    requires
        in_grid(start_cell),
    ensures
        best == far_spawn(*maze, start_cell, exit_cell, min_distance as int),
{
    let rat: Cell = RAT_SPAWN_CELL;
    let mut best: Option<Cell> = None;
    let mut best_distance: usize = 0;
    let mut z: usize = 0;
    while z < MAZE_ROWS
        invariant
            0 <= z <= MAZE_ROWS,
            in_grid(start_cell),
            rat == rat_spawn(),
            far_pick(*maze, start_cell, exit_cell, min_distance as int, z * MAZE_COLUMNS) == (best, best_distance as int),
        decreases MAZE_ROWS - z,
    {
        let mut x: usize = 0;
        while x < MAZE_COLUMNS
            invariant
                0 <= z < MAZE_ROWS,
                0 <= x <= MAZE_COLUMNS,
                in_grid(start_cell),
                rat == rat_spawn(),
                far_pick(*maze, start_cell, exit_cell, min_distance as int, z * MAZE_COLUMNS + x) == (best, best_distance as int),
            decreases MAZE_COLUMNS - x,
        {
            let cell: Cell = (x, z);
            proof {
                lemma_cell_at(x, z);
            }
            if !(same_cell(cell, start_cell) || same_cell(cell, exit_cell) || same_cell(cell, rat)) {
                let distance = manhattan_distance(start_cell, cell);
                if !(distance < min_distance || distance <= best_distance) {
                    if route_between(start_cell, cell, maze).is_some() {
                        best = Some(cell);
                        best_distance = distance;
                    }
                }
            }
            x = x + 1;
        }
        z = z + 1;
    }
    best
}

/// A key cell is not the rat's cell and lies at least eight steps from the start.
pub open spec fn good_key_cell(start: Cell, c: Cell) -> bool {
    c != rat_spawn() && manhattan(start, c) >= MIN_KEY_SPAWN_DISTANCE
}

/// The first index in `lo..=hi` of a good key cell of route `r`.
pub open spec fn first_good(start: Cell, r: Seq<Cell>, lo: int, hi: int) -> Option<int>
    decreases hi - lo + 1,
{
    if lo > hi {
        None
    } else if good_key_cell(start, r[lo]) {
        Some(lo)
    } else {
        first_good(start, r, lo + 1, hi)
    }
}

/// The last index in `lo..=hi` of a good key cell of route `r`.
pub open spec fn last_good(start: Cell, r: Seq<Cell>, lo: int, hi: int) -> Option<int>
    decreases hi - lo + 1,
{
    if lo > hi {
        None
    } else if good_key_cell(start, r[hi]) {
        Some(hi)
    } else {
        last_good(start, r, lo, hi - 1)
    }
}

pub open spec fn clamp(v: int, lo: int, hi: int) -> int {
    if v < lo {
        lo
    } else if v > hi {
        hi
    } else {
        v
    }
}

/// Where on route `r` (from the start to the exit) the key goes: the route's
/// last cell before the exit is the furthest candidate; the search starts
/// three fifths along (but at least eight cells in), takes the first good key
/// cell up to the furthest, else the last good one from the eighth cell on,
/// else the furthest cell. `None` when the route has no cell between its two ends.
pub open spec fn route_key(start: Cell, r: Seq<Cell>) -> Option<Cell> {
    let furthest = if r.len() >= 2 { r.len() - 2 } else { 0 };
    if furthest <= 0 {
        None
    } else {
        let min_index = if furthest < MIN_KEY_SPAWN_DISTANCE { furthest } else { MIN_KEY_SPAWN_DISTANCE as int };
        let preferred = clamp(((r.len() * 3) / 5) as int, min_index, furthest);
        match first_good(start, r, preferred, furthest) {
            Some(k) => Some(r[k]),
            None => match last_good(start, r, min_index, furthest) {
                Some(k) => Some(r[k]),
                None => Some(r[furthest]),
            },
        }
    }
}

proof fn lemma_first_good(start: Cell, r: Seq<Cell>, lo: int, hi: int)
    ensures
        first_good(start, r, lo, hi) matches Some(k) ==> lo <= k <= hi && good_key_cell(start, r[k]),
    decreases hi - lo + 1,
{
    if lo <= hi && !good_key_cell(start, r[lo]) {
        lemma_first_good(start, r, lo + 1, hi);
    }
}

proof fn lemma_last_good(start: Cell, r: Seq<Cell>, lo: int, hi: int)
    ensures
        last_good(start, r, lo, hi) matches Some(k) ==> lo <= k <= hi && good_key_cell(start, r[k]),
        last_good(start, r, lo, hi) is None ==> forall|i: int| lo <= i <= hi ==> !good_key_cell(start, #[trigger] r[i]),
    decreases hi - lo + 1,
{
    if lo <= hi && !good_key_cell(start, r[hi]) {
        lemma_last_good(start, r, lo, hi - 1);
    }
}

/// On a route with a cell between its ends, the key lies on the route,
/// strictly between the start and the exit; and when a cell of the route
/// from the eighth on (from the last before the exit on a shorter route) is
/// away from the start and the rat, so is the key.
pub proof fn law_key_lies_on_the_route(start: Cell, r: Seq<Cell>)
    requires
        r.len() >= 3,
    ensures
        route_key(start, r) is Some,
        exists|i: int| 1 <= i <= r.len() - 2 && #[trigger] r[i] == route_key(start, r).unwrap(),
        (exists|i: int|
            (if r.len() - 2 < MIN_KEY_SPAWN_DISTANCE { r.len() - 2 } else { MIN_KEY_SPAWN_DISTANCE as int }) <= i <= r.len() - 2
                && good_key_cell(start, #[trigger] r[i])) ==> good_key_cell(start, route_key(start, r).unwrap()),
{
    let furthest = r.len() - 2;
    let min_index = if furthest < MIN_KEY_SPAWN_DISTANCE { furthest } else { MIN_KEY_SPAWN_DISTANCE as int };
    let preferred = clamp(((r.len() * 3) / 5) as int, min_index, furthest);
    lemma_first_good(start, r, preferred, furthest);
    lemma_last_good(start, r, min_index, furthest);
    match first_good(start, r, preferred, furthest) {
        Some(k) => {
            assert(r[k] == route_key(start, r).unwrap());
        },
        None => match last_good(start, r, min_index, furthest) {
            Some(k) => {
                assert(r[k] == route_key(start, r).unwrap());
            },
            None => {
                assert(r[furthest] == route_key(start, r).unwrap());
            },
        },
    }
}

pub fn key_cell_on_route(start_cell: Cell, route: &Vec<Cell>) -> (key: Option<Cell>)
    requires
        in_grid(start_cell),
        forall|k: int| 0 <= k < route@.len() ==> in_grid(#[trigger] route@[k]),
        route@.len() * 3 <= usize::MAX,
    ensures
        key == route_key(start_cell, route@),
{
    let rat: Cell = RAT_SPAWN_CELL;
    let furthest = if route.len() >= 2 { route.len() - 2 } else { 0 };
    if furthest == 0 {
        return None;
    }
    let min_index = if furthest < MIN_KEY_SPAWN_DISTANCE { furthest } else { MIN_KEY_SPAWN_DISTANCE };
    let third = (route.len() * 3) / 5;
    let preferred = if third < min_index { min_index } else if third > furthest { furthest } else { third };
    let ghost shape = match first_good(start_cell, route@, preferred as int, furthest as int) {
        Some(q) => Some(route@[q]),
        None => match last_good(start_cell, route@, min_index as int, furthest as int) {
            Some(q) => Some(route@[q]),
            None => Some(route@[furthest as int]),
        },
    };
    proof {
        assert(route_key(start_cell, route@) == shape);
    }
    let mut k = preferred;
    while k <= furthest
        invariant
            preferred <= k <= furthest + 1,
            furthest < route@.len(),
            in_grid(start_cell),
            rat == rat_spawn(),
            forall|q: int| 0 <= q < route@.len() ==> in_grid(#[trigger] route@[q]),
            first_good(start_cell, route@, preferred as int, furthest as int) == first_good(start_cell, route@, k as int, furthest as int),
            route_key(start_cell, route@) == shape,
            route@.len() * 3 <= usize::MAX,
            shape == match first_good(start_cell, route@, preferred as int, furthest as int) {
                Some(q) => Some(route@[q]),
                None => match last_good(start_cell, route@, min_index as int, furthest as int) {
                    Some(q) => Some(route@[q]),
                    None => Some(route@[furthest as int]),
                },
            },
        decreases furthest + 1 - k,
    {
        let cell = route[k];
        if !same_cell(cell, rat) && manhattan_distance(start_cell, cell) >= MIN_KEY_SPAWN_DISTANCE {
            return Some(cell);
        }
        k = k + 1;
    }
    let mut k = furthest + 1;
    while k > min_index
        invariant
            min_index <= k <= furthest + 1,
            furthest < route@.len(),
            in_grid(start_cell),
            rat == rat_spawn(),
            forall|q: int| 0 <= q < route@.len() ==> in_grid(#[trigger] route@[q]),
            last_good(start_cell, route@, min_index as int, furthest as int) == last_good(start_cell, route@, min_index as int, k - 1),
            route_key(start_cell, route@) == shape,
            first_good(start_cell, route@, preferred as int, furthest as int) is None,
            shape == match first_good(start_cell, route@, preferred as int, furthest as int) {
                Some(q) => Some(route@[q]),
                None => match last_good(start_cell, route@, min_index as int, furthest as int) {
                    Some(q) => Some(route@[q]),
                    None => Some(route@[furthest as int]),
                },
            },
        decreases k,
    {
        let cell = route[k - 1];
        if !same_cell(cell, rat) && manhattan_distance(start_cell, cell) >= MIN_KEY_SPAWN_DISTANCE {
            return Some(cell);
        }
        k = k - 1;
    }
    Some(route[furthest])
}

/// The key's cell when there is no route to place it on: the far spawn
/// candidate at least eight steps away, else the start itself.
pub open spec fn key_fallback(m: MazeMap, start: Cell, exit: Cell) -> Cell {
    match far_spawn(m, start, exit, MIN_KEY_SPAWN_DISTANCE as int) {
        Some(c) => c,
        None => start,
    }
}

/// The key's cell: on the first route from the start to the exit when one
/// exists and has a cell between its ends, else the fallback.
pub fn key_cell_on_exit_route(start_cell: Cell, exit_cell: Cell, maze: &MazeMap) -> (key: Cell)
    requires
        in_grid(start_cell),
    ensures
        !maze.reaches(start_cell, exit_cell, false) ==> key == key_fallback(*maze, start_cell, exit_cell),
        maze.reaches(start_cell, exit_cell, false) ==> exists|r: Seq<Cell>|
            #[trigger] first_route(*maze, start_cell, exit_cell, r) && key == match route_key(start_cell, r) {
                Some(k) => k,
                None => key_fallback(*maze, start_cell, exit_cell),
            },
{
    if let Some(route) = route_between(start_cell, exit_cell, maze) {
        proof {
            assert(first_route(*maze, start_cell, exit_cell, route@));
            assert(route@.len() <= 145) by {
                crate::search::lemma_reaches_within(*maze, start_cell, exit_cell);
                let j = choose|j: int| 0 <= j <= crate::search::ROUTE_LIMIT && #[trigger] crate::search::at_distance(*maze, start_cell, exit_cell, j, None);
                if route@.len() > 145 {
                    assert(crate::search::within(*maze, start_cell, exit_cell, crate::search::ROUTE_LIMIT as int, None));
                }
            }
        }
        if let Some(cell) = key_cell_on_route(start_cell, &route) {
            return cell;
        }
    }
    match far_spawn_candidate(start_cell, exit_cell, maze, MIN_KEY_SPAWN_DISTANCE) {
        Some(cell) => cell,
        None => start_cell,
    }
}

/// The compass and treasure map go in cells with at least two open sides, at
/// least five steps from the start, other than the start, exit, key and rat cells.
pub open spec fn nav_spot(m: MazeMap, start: Cell, key: Cell, c: Cell) -> bool {
    &&& c != start
    &&& c != exit_cell()
    &&& c != key
    &&& c != rat_spawn()
    &&& manhattan(start, c) >= MIN_NAV_PICKUP_SPAWN_DISTANCE
    &&& open_side_count(m, c) >= 2
}

pub open spec fn nav_upto(m: MazeMap, start: Cell, key: Cell, n: int) -> Seq<Cell>
    decreases n,
{
    if n <= 0 {
        seq![]
    } else {
        let c = cell_at(n - 1);
        nav_upto(m, start, key, n - 1) + if nav_spot(m, start, key, c) {
            seq![c]
        } else {
            seq![]
        }
    }
}

/// The cells that may hold the compass or the treasure map, in row-major order.
pub fn navigation_candidates(maze: &MazeMap, start_cell: Cell, key_cell: Cell) -> (cells: Vec<Cell>)
    requires
        in_grid(start_cell),
    ensures
        cells@ == nav_upto(*maze, start_cell, key_cell, (MAZE_COLUMNS * MAZE_ROWS) as int),
{
    let exit: Cell = (MAZE_COLUMNS - 1, MAZE_ROWS - 1);
    let rat: Cell = RAT_SPAWN_CELL;
    let mut cells: Vec<Cell> = Vec::new();
    let mut z: usize = 0;
    while z < MAZE_ROWS
        invariant
            0 <= z <= MAZE_ROWS,
            in_grid(start_cell),
            exit == exit_cell(),
            rat == rat_spawn(),
            cells@ == nav_upto(*maze, start_cell, key_cell, z * MAZE_COLUMNS),
        decreases MAZE_ROWS - z,
    {
        let mut x: usize = 0;
        while x < MAZE_COLUMNS
            invariant
                0 <= z < MAZE_ROWS,
                0 <= x <= MAZE_COLUMNS,
                in_grid(start_cell),
                exit == exit_cell(),
                rat == rat_spawn(),
                cells@ == nav_upto(*maze, start_cell, key_cell, z * MAZE_COLUMNS + x),
            decreases MAZE_COLUMNS - x,
        {
            let cell: Cell = (x, z);
            proof {
                lemma_cell_at(x, z);
            }
            if !(same_cell(cell, start_cell) || same_cell(cell, exit) || same_cell(cell, key_cell)
                || same_cell(cell, rat)) {
                if manhattan_distance(start_cell, cell) >= MIN_NAV_PICKUP_SPAWN_DISTANCE
                    && open_side_total(maze, cell) >= 2 {
                    cells.push(cell);
                }
            }
            x = x + 1;
        }
        z = z + 1;
    }
    cells
}

/// The first cell of `c` from index `i` on that is not `x`.
pub open spec fn first_other(c: Seq<Cell>, x: Cell, i: int) -> Option<Cell>
    decreases c.len() - i,
{
    if i >= c.len() || i < 0 {
        None
    } else if c[i] != x {
        Some(c[i])
    } else {
        first_other(c, x, i + 1)
    }
}

/// The compass goes in the first candidate, the treasure map in the next
/// different one; either falls back to `fallback` when there is none.
pub open spec fn nav_pick(c: Seq<Cell>, fallback: Cell) -> (Cell, Cell) {
    let compass = if c.len() > 0 {
        c[0]
    } else {
        fallback
    };
    let map = match first_other(c, compass, 0) {
        Some(m) => m,
        None => fallback,
    };
    (compass, map)
}

pub fn pick_navigation_cells(candidates: &Vec<Cell>, fallback: Cell) -> (cells: (Cell, Cell))
    ensures
        cells == nav_pick(candidates@, fallback),
{
    let compass = if candidates.len() > 0 {
        candidates[0]
    } else {
        fallback
    };
    let mut i: usize = 0;
    while i < candidates.len()
        invariant
            0 <= i <= candidates@.len(),
            compass == (if candidates@.len() > 0 { candidates@[0] } else { fallback }),
            first_other(candidates@, compass, 0) == first_other(candidates@, compass, i as int),
        decreases candidates@.len() - i,
    {
        if !same_cell(candidates[i], compass) {
            return (compass, candidates[i]);
        }
        i = i + 1;
    }
    (compass, fallback)
}

/// Where the pickups fall back to: the far spawn candidate at least five
/// steps away, else the key's cell.
pub open spec fn nav_fallback(m: MazeMap, start: Cell, key: Cell) -> Cell {
    match far_spawn(m, start, exit_cell(), MIN_NAV_PICKUP_SPAWN_DISTANCE as int) {
        Some(c) => c,
        None => key,
    }
}

/// The compass and treasure map cells: the candidates are shuffled, then
/// picked as `nav_pick` says.
pub fn navigation_pickup_cells(maze: &MazeMap, start_cell: Cell, key_cell: Cell) -> (cells: (Cell, Cell))
    requires
        in_grid(start_cell),
    ensures
        exists|p: Seq<Cell>|
            #[trigger] p.to_multiset() == nav_upto(*maze, start_cell, key_cell, (MAZE_COLUMNS * MAZE_ROWS) as int).to_multiset()
                && cells == nav_pick(p, nav_fallback(*maze, start_cell, key_cell)),
{
    let exit: Cell = (MAZE_COLUMNS - 1, MAZE_ROWS - 1);
    let mut candidates = navigation_candidates(maze, start_cell, key_cell);
    shuffle(&mut candidates);
    let fallback = match far_spawn_candidate(start_cell, exit, maze, MIN_NAV_PICKUP_SPAWN_DISTANCE) {
        Some(cell) => cell,
        None => key_cell,
    };
    pick_navigation_cells(&candidates, fallback)
}

} // verus!
