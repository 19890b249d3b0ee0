//! The maze grid: cells, walls, directions, and the walks through them.
use vstd::prelude::*;

verus! {

pub const MAZE_COLUMNS: usize = 12;
pub const MAZE_ROWS: usize = 12;

/// A grid cell, as (column, row).
pub type Cell = (usize, usize);

/// The four sides of a cell. North is +z, east is +x.
#[derive(Clone, Copy, Debug, PartialEq, Eq, Structural)]
pub enum Direction {
    North,
    East,
    South,
    West,
}

impl Direction {
    /// Position of this side in a cell's `walls` array.
    pub open spec fn slot(self) -> int {
        match self {
            Direction::North => 0,
            Direction::East => 1,
            Direction::South => 2,
            Direction::West => 3,
        }
    }

    pub open spec fn reverse(self) -> Direction {
        match self {
            Direction::North => Direction::South,
            Direction::East => Direction::West,
            Direction::South => Direction::North,
            Direction::West => Direction::East,
        }
    }

    /// Column offset of one step this way.
    pub open spec fn dx(self) -> int {
        match self {
            Direction::East => 1,
            Direction::West => -1,
            _ => 0,
        }
    }

    /// Row offset of one step this way.
    pub open spec fn dz(self) -> int {
        match self {
            Direction::North => 1,
            Direction::South => -1,
            _ => 0,
        }
    }

    pub fn index(self) -> (i: usize)
        ensures
            i == self.slot(),
    {
        match self {
            Direction::North => 0,
            Direction::East => 1,
            Direction::South => 2,
            Direction::West => 3,
        }
    }

    pub fn opposite(self) -> (d: Direction)
        ensures
            d == self.reverse(),
    {
        match self {
            Direction::North => Direction::South,
            Direction::East => Direction::West,
            Direction::South => Direction::North,
            Direction::West => Direction::East,
        }
    }

    pub fn delta(self) -> (offset: (isize, isize))
        ensures
            offset.0 == self.dx(),
            offset.1 == self.dz(),
    {
        match self {
            Direction::North => (0, 1),
            Direction::East => (1, 0),
            Direction::South => (0, -1),
            Direction::West => (-1, 0),
        }
    }
}

/// The direction whose slot is `i` (North, East, South, West).
pub open spec fn direction_at(i: int) -> Direction {
    if i == 0 {
        Direction::North
    } else if i == 1 {
        Direction::East
    } else if i == 2 {
        Direction::South
    } else {
        Direction::West
    }
}

pub open spec fn in_grid(c: Cell) -> bool {
    c.0 < MAZE_COLUMNS && c.1 < MAZE_ROWS
}

/// Row-major position of a cell of the grid.
pub open spec fn flat(c: Cell) -> int {
    c.1 * MAZE_COLUMNS + c.0
}

/// The cell one step from `c` in direction `d`, if it lies in the grid.
pub open spec fn neighbor_of(c: Cell, d: Direction) -> Option<Cell> {
    let nx = c.0 + d.dx();
    let nz = c.1 + d.dz();
    if 0 <= nx < MAZE_COLUMNS && 0 <= nz < MAZE_ROWS {
        Some((nx as usize, nz as usize))
    } else {
        None
    }
}

/// The direction of a single step from `from` to `to`, if they are side by side.
pub open spec fn step_direction(from: Cell, to: Cell) -> Option<Direction> {
    let dx = to.0 - from.0;
    let dz = to.1 - from.1;
    if dx == 0 && dz == 1 {
        Some(Direction::North)
    } else if dx == 1 && dz == 0 {
        Some(Direction::East)
    } else if dx == 0 && dz == -1 {
        Some(Direction::South)
    } else if dx == -1 && dz == 0 {
        Some(Direction::West)
    } else {
        None
    }
}

pub open spec fn manhattan(a: Cell, b: Cell) -> int {
    (if a.0 >= b.0 { a.0 - b.0 } else { b.0 - a.0 }) + (if a.1 >= b.1 { a.1 - b.1 } else { b.1 - a.1 })
}

pub open spec fn avoids(p: Seq<Cell>, x: Cell) -> bool {
    forall|i: int| 0 <= i < p.len() ==> #[trigger] p[i] != x
}

/// The exit chamber sits in the far corner from the start.
pub open spec fn exit_cell() -> Cell {
    ((MAZE_COLUMNS - 1) as usize, (MAZE_ROWS - 1) as usize)
}

pub open spec fn start_cell() -> Cell {
    (0usize, 0usize)
}

#[derive(Clone, Copy)]
pub struct MazeCell {
    pub walls: [bool; 4],
}

/// The walls of every cell; `cells[z][x]` is the cell in column `x`, row `z`.
#[derive(Clone, Copy)]
pub struct MazeMap {
    pub cells: [[MazeCell; MAZE_COLUMNS]; MAZE_ROWS],
}

/// A wall that stands in the world, with what mining it takes.
#[derive(Clone, Copy)]
pub struct WallSegment {
    pub cell: Cell,
    pub direction: Direction,
    pub mineable: bool,
    pub hits_remaining: u8,
    pub max_hits: u8,
    pub ore_deposit: bool,
}

impl WallSegment {
    /// A fresh wall; a wall always takes at least one hit.
    pub fn new(
        cell: Cell,
        direction: Direction,
        mineable: bool,
        hits_required: u8,
        ore_deposit: bool,
    ) -> (segment: WallSegment)
        ensures
            segment.cell == cell,
            segment.direction == direction,
            segment.mineable == mineable,
            segment.max_hits == (if hits_required == 0 { 1 } else { hits_required }),
            segment.hits_remaining == segment.max_hits,
            segment.ore_deposit == ore_deposit,
    {
        let hits = if hits_required == 0 { 1 } else { hits_required };
        WallSegment {
            cell,
            direction,
            mineable,
            hits_remaining: hits,
            max_hits: hits,
            ore_deposit,
        }
    }
}

impl MazeMap {
    pub open spec fn wall(self, c: Cell, d: Direction) -> bool {
        self.cells[c.1 as int][c.0 as int].walls[d.slot()]
    }

    /// `c`'s own side toward `d` is open and leads into the grid.
    pub open spec fn opens(self, c: Cell, d: Direction) -> bool {
        in_grid(c) && !self.wall(c, d) && neighbor_of(c, d) is Some
    }

    /// Both sides of the edge between `c` and its neighbor toward `d` are open.
    pub open spec fn passage(self, c: Cell, d: Direction) -> bool {
        self.opens(c, d) && !self.wall(neighbor_of(c, d).unwrap(), d.reverse())
    }

    /// One step from `a` to `b`: through `a`'s open side (`mutual == false`),
    /// or through an edge open on both sides (`mutual == true`).
    pub open spec fn step(self, a: Cell, b: Cell, mutual: bool) -> bool {
        match step_direction(a, b) {
            Some(d) => in_grid(a) && in_grid(b) && !self.wall(a, d) && (mutual ==> !self.wall(
                b,
                d.reverse(),
            )),
            None => false,
        }
    }

    pub open spec fn link_at(self, p: Seq<Cell>, i: int, mutual: bool) -> bool {
        self.step(p[i], p[i + 1], mutual)
    }

    /// `p` is a walk through the maze: cells of the grid, each a step from the last.
    pub open spec fn is_walk(self, p: Seq<Cell>, mutual: bool) -> bool {
        &&& p.len() >= 1
        &&& forall|i: int| 0 <= i < p.len() ==> in_grid(#[trigger] p[i])
        &&& forall|i: int| 0 <= i < p.len() - 1 ==> #[trigger] self.link_at(p, i, mutual)
    }

    pub open spec fn walk_between(self, p: Seq<Cell>, a: Cell, b: Cell, mutual: bool) -> bool {
        self.is_walk(p, mutual) && p[0] == a && p.last() == b
    }

    /// Some walk leads from `a` to `b`.
    pub open spec fn reaches(self, a: Cell, b: Cell, mutual: bool) -> bool {
        exists|p: Seq<Cell>| #[trigger] self.walk_between(p, a, b, mutual)
    }

    /// Some walk through edges open on both sides leads from `a` to `b`
    /// without ever entering `x`.
    pub open spec fn reaches_avoiding(self, a: Cell, b: Cell, x: Cell) -> bool {
        exists|p: Seq<Cell>| #[trigger] self.walk_between(p, a, b, true) && avoids(p, x)
    }

    /// Every edge looks the same from both of its cells, and the outer boundary is closed.
    pub open spec fn consistent(self) -> bool {
        forall|c: Cell, d: Direction|
            in_grid(c) ==> match neighbor_of(c, d) {
                Some(n) => #[trigger] self.wall(c, d) == self.wall(n, d.reverse()),
                None => self.wall(c, d),
            }
    }

    /// Every cell can be walked to from the start cell.
    pub open spec fn connected(self) -> bool {
        forall|c: Cell| in_grid(c) ==> #[trigger] self.reaches(start_cell(), c, true)
    }

    /// The same walls, but for one side of one cell.
    pub open spec fn same_but(self, other: MazeMap, c: Cell, d: Direction) -> bool {
        forall|c2: Cell, d2: Direction|
            in_grid(c2) && (c2 != c || d2 != d) ==> #[trigger] other.wall(c2, d2) == self.wall(
                c2,
                d2,
            )
    }

    /// Every wall that is open in `self` is open in `other` too.
    pub open spec fn opens_into(self, other: MazeMap) -> bool {
        forall|c: Cell, d: Direction| in_grid(c) && !#[trigger] self.wall(c, d) ==> !other.wall(c, d)
    }

    /// A maze whose every wall stands.
    pub fn closed() -> (maze: MazeMap)
        ensures
            forall|c: Cell, d: Direction| in_grid(c) ==> #[trigger] maze.wall(c, d),
    {
        MazeMap { cells: [[MazeCell { walls: [true; 4] }; MAZE_COLUMNS]; MAZE_ROWS] }
    }

    pub fn has_wall(&self, c: Cell, d: Direction) -> (w: bool)
        requires
            in_grid(c),
        ensures
            w == self.wall(c, d),
    {
        self.cells[c.1][c.0].walls[d.index()]
    }

    pub fn set_wall(&mut self, c: Cell, d: Direction, value: bool)
        requires
            in_grid(c),
        ensures
            final(self).wall(c, d) == value,
            old(self).same_but(*final(self), c, d),
    {
        self.cells[c.1][c.0].walls[d.index()] = value;
    }
}

pub fn neighbor_cell(cell: Cell, direction: Direction) -> (next: Option<Cell>)
    ensures
        next == neighbor_of(cell, direction),
{
    match direction {
        Direction::North => {
            if cell.0 < MAZE_COLUMNS && cell.1 < MAZE_ROWS - 1 {
                Some((cell.0, cell.1 + 1))
            } else {
                None
            }
        },
        Direction::East => {
            if cell.0 < MAZE_COLUMNS - 1 && cell.1 < MAZE_ROWS {
                Some((cell.0 + 1, cell.1))
            } else {
                None
            }
        },
        Direction::South => {
            if cell.0 < MAZE_COLUMNS && 1 <= cell.1 && cell.1 <= MAZE_ROWS {
                Some((cell.0, cell.1 - 1))
            } else {
                None
            }
        },
        Direction::West => {
            if 1 <= cell.0 && cell.0 <= MAZE_COLUMNS && cell.1 < MAZE_ROWS {
                Some((cell.0 - 1, cell.1))
            } else {
                None
            }
        },
    }
}

pub fn direction_between(from: Cell, to: Cell) -> (d: Option<Direction>)
    ensures
        d == step_direction(from, to),
{
    if to.0 == from.0 && from.1 < usize::MAX && to.1 == from.1 + 1 {
        Some(Direction::North)
    } else if to.1 == from.1 && from.0 < usize::MAX && to.0 == from.0 + 1 {
        Some(Direction::East)
    } else if to.0 == from.0 && to.1 < usize::MAX && from.1 == to.1 + 1 {
        Some(Direction::South)
    } else if to.1 == from.1 && to.0 < usize::MAX && from.0 == to.0 + 1 {
        Some(Direction::West)
    } else {
        None
    }
}

pub fn same_cell(a: Cell, b: Cell) -> (same: bool)
    ensures
        same == (a == b),
{
    a.0 == b.0 && a.1 == b.1
}

pub fn abs_diff(a: usize, b: usize) -> (r: usize)
    ensures
        r == (if a >= b { a - b } else { b - a }),
{
    if a >= b {
        a - b
    } else {
        b - a
    }
}

pub fn manhattan_distance(a: Cell, b: Cell) -> (d: usize)
    requires
        manhattan(a, b) <= usize::MAX,
    ensures
        d == manhattan(a, b),
{
    abs_diff(a.0, b.0) + abs_diff(a.1, b.1)
}

pub open spec fn near_exit(c: Cell) -> bool {
    manhattan(c, exit_cell()) <= 1
}

pub fn cell_near_exit(cell: Cell, exit: Cell) -> (near: bool)
    requires
        manhattan(cell, exit) <= usize::MAX,
    ensures
        near == (manhattan(cell, exit) <= 1),
{
    manhattan_distance(cell, exit) <= 1
}

/// Walls on the exit chamber, or leading into a cell beside it, are hard.
pub open spec fn hard_near_exit(c: Cell, d: Direction) -> bool {
    near_exit(c) || match neighbor_of(c, d) {
        Some(n) => near_exit(n),
        None => false,
    }
}

pub fn hard_wall_near_exit(cell: Cell, direction: Direction) -> (hard: bool)
    requires
        manhattan(cell, exit_cell()) <= usize::MAX,
    ensures
        hard == hard_near_exit(cell, direction),
{
    let exit = (MAZE_COLUMNS - 1, MAZE_ROWS - 1);
    if cell_near_exit(cell, exit) {
        return true;
    }
    match neighbor_cell(cell, direction) {
        Some(next) => cell_near_exit(next, exit),
        None => false,
    }
}

/// Is there a wall along grid line `z_line` (0..=MAZE_ROWS) above column `x`?
pub open spec fn horizontal_wall(maze: MazeMap, x: usize, z_line: usize) -> bool {
    if x >= MAZE_COLUMNS || z_line > MAZE_ROWS {
        false
    } else if z_line == 0 {
        maze.wall((x, 0), Direction::South)
    } else {
        maze.wall((x, (z_line - 1) as usize), Direction::North)
    }
}

/// Is there a wall along grid line `x_line` (0..=MAZE_COLUMNS) beside row `z`?
pub open spec fn vertical_wall(maze: MazeMap, x_line: usize, z: usize) -> bool {
    if x_line > MAZE_COLUMNS || z >= MAZE_ROWS {
        false
    } else if x_line == 0 {
        maze.wall((0, z), Direction::West)
    } else {
        maze.wall(((x_line - 1) as usize, z), Direction::East)
    }
}

/// Does any wall end at grid vertex (x, z)?
pub open spec fn touches_vertex(maze: MazeMap, x: usize, z: usize) -> bool {
    ||| (x > 0 && horizontal_wall(maze, (x - 1) as usize, z))
    ||| (x < MAZE_COLUMNS && horizontal_wall(maze, x, z))
    ||| (z > 0 && vertical_wall(maze, x, (z - 1) as usize))
    ||| (z < MAZE_ROWS && vertical_wall(maze, x, z))
}

pub fn horizontal_wall_at(x: usize, z_line: usize, maze: &MazeMap) -> (w: bool)
    ensures
        w == horizontal_wall(*maze, x, z_line),
{
    if x >= MAZE_COLUMNS || z_line > MAZE_ROWS {
        return false;
    }
    if z_line == 0 {
        maze.has_wall((x, 0), Direction::South)
    } else {
        maze.has_wall((x, z_line - 1), Direction::North)
    }
}

pub fn vertical_wall_at(x_line: usize, z: usize, maze: &MazeMap) -> (w: bool)
    ensures
        w == vertical_wall(*maze, x_line, z),
{
    if x_line > MAZE_COLUMNS || z >= MAZE_ROWS {
        return false;
    }
    if x_line == 0 {
        maze.has_wall((0, z), Direction::West)
    } else {
        maze.has_wall((x_line - 1, z), Direction::East)
    }
}

pub fn wall_touches_vertex(x: usize, z: usize, maze: &MazeMap) -> (t: bool)
    ensures
        t == touches_vertex(*maze, x, z),
{
    (x > 0 && horizontal_wall_at(x - 1, z, maze)) || (x < MAZE_COLUMNS && horizontal_wall_at(
        x,
        z,
        maze,
    )) || (z > 0 && vertical_wall_at(x, z - 1, maze)) || (z < MAZE_ROWS && vertical_wall_at(
        x,
        z,
        maze,
    ))
}

/// Whether a wall recorded as (segment_cell, segment_direction) is the edge
/// on side `direction` of `cell`, seen from either of its two cells.
pub open spec fn same_edge(
    segment_cell: Cell,
    segment_direction: Direction,
    cell: Cell,
    direction: Direction,
) -> bool {
    (segment_cell == cell && segment_direction == direction) || match neighbor_of(cell, direction) {
        Some(n) => segment_cell == n && segment_direction == direction.reverse(),
        None => false,
    }
}

pub fn same_wall_edge(
    segment_cell: Cell,
    segment_direction: Direction,
    cell: Cell,
    direction: Direction,
) -> (same: bool)
    ensures
        same == same_edge(segment_cell, segment_direction, cell, direction),
{
    if same_cell(segment_cell, cell) && segment_direction == direction {
        return true;
    }
    match neighbor_cell(cell, direction) {
        Some(n) => same_cell(segment_cell, n) && segment_direction == direction.opposite(),
        None => false,
    }
}

/// The direction at position `i` of the order North, East, South, West.
pub fn direction_from_index(i: usize) -> (d: Direction)
    ensures
        d == direction_at(i as int),
{
    if i == 0 {
        Direction::North
    } else if i == 1 {
        Direction::East
    } else if i == 2 {
        Direction::South
    } else {
        Direction::West
    }
}

/// The four directions with their offsets, in the order North, East, South, West.
pub fn cardinal_directions() -> (dirs: [(Direction, isize, isize); 4])
    ensures
        forall|i: int|
            0 <= i < 4 ==> {
                &&& (#[trigger] dirs[i]).0 == direction_at(i)
                &&& dirs[i].1 == direction_at(i).dx()
                &&& dirs[i].2 == direction_at(i).dz()
            },
{
    [
        (Direction::North, 0, 1),
        (Direction::East, 1, 0),
        (Direction::South, 0, -1),
        (Direction::West, -1, 0),
    ]
}

/// The cell beyond `c`'s side `d`, when that side is open and leads into the grid.
pub open spec fn side_cell(m: MazeMap, c: Cell, d: Direction) -> Seq<Cell> {
    if m.opens(c, d) {
        seq![neighbor_of(c, d).unwrap()]
    } else {
        seq![]
    }
}

/// The cells that `c`'s open sides lead to, in the order North, East, South, West.
pub open spec fn open_neighbor_list(m: MazeMap, c: Cell) -> Seq<Cell> {
    side_cell(m, c, Direction::North) + side_cell(m, c, Direction::East) + side_cell(
        m,
        c,
        Direction::South,
    ) + side_cell(m, c, Direction::West)
}

fn push_open_side(cell: Cell, direction: Direction, maze: &MazeMap, out: &mut Vec<Cell>)
    requires
        in_grid(cell),
    ensures
        final(out)@ == old(out)@ + side_cell(*maze, cell, direction),
{
    if !maze.has_wall(cell, direction) {
        if let Some(next) = neighbor_cell(cell, direction) {
            out.push(next);
        }
    }
}

/// The cells that `cell`'s own open sides lead to, in the order North, East,
/// South, West (the far side of each wall is not looked at).
pub fn open_neighbors(cell: Cell, maze: &MazeMap) -> (cells: Vec<Cell>)
    requires
        in_grid(cell),
    ensures
        cells@ == open_neighbor_list(*maze, cell),
{
    let mut cells: Vec<Cell> = Vec::new();
    push_open_side(cell, Direction::North, maze, &mut cells);
    push_open_side(cell, Direction::East, maze, &mut cells);
    push_open_side(cell, Direction::South, maze, &mut cells);
    push_open_side(cell, Direction::West, maze, &mut cells);
    cells
}

/// The open-neighbor list holds exactly the cells one step away.
pub proof fn lemma_open_neighbor_list(m: MazeMap, c: Cell)
    requires
        in_grid(c),
    ensures
        forall|b: Cell| #[trigger] open_neighbor_list(m, c).contains(b) <==> m.step(c, b, false),
        forall|i: int| 0 <= i < open_neighbor_list(m, c).len() ==> in_grid(#[trigger] open_neighbor_list(m, c)[i]),
{
    let l = open_neighbor_list(m, c);
    assert forall|b: Cell| #[trigger] l.contains(b) <==> m.step(c, b, false) by {
        if l.contains(b) {
            let k = choose|k: int| 0 <= k < l.len() && l[k] == b;
            let d = if m.opens(c, Direction::North) && k == 0 {
                Direction::North
            } else {
                let k1 = k - side_cell(m, c, Direction::North).len();
                if m.opens(c, Direction::East) && k1 == 0 {
                    Direction::East
                } else {
                    let k2 = k1 - side_cell(m, c, Direction::East).len();
                    if m.opens(c, Direction::South) && k2 == 0 {
                        Direction::South
                    } else {
                        Direction::West
                    }
                }
            };
            assert(neighbor_of(c, d) == Some(b));
            lemma_neighbor_back(c, d);
        }
        if m.step(c, b, false) {
            let d = step_direction(c, b).unwrap();
            lemma_step_direction(c, b);
            let pre = match d {
                Direction::North => seq![],
                Direction::East => side_cell(m, c, Direction::North),
                Direction::South => side_cell(m, c, Direction::North) + side_cell(m, c, Direction::East),
                Direction::West => side_cell(m, c, Direction::North) + side_cell(m, c, Direction::East) + side_cell(m, c, Direction::South),
            };
            assert(l[pre.len() as int] == b);
        }
    }
}

/// The cell with column `x` and row `z`, when they lie in the grid.
pub fn cell_from_indices(x: isize, z: isize) -> (cell: Option<Cell>)
    ensures
        cell matches Some(c) ==> in_grid(c) && c.0 == x && c.1 == z,
        cell is None <==> !(0 <= x < MAZE_COLUMNS && 0 <= z < MAZE_ROWS),
{
    if x < 0 || z < 0 || x >= MAZE_COLUMNS as isize || z >= MAZE_ROWS as isize {
        return None;
    }
    Some((x as usize, z as usize))
}

/// A burst of ore moving from `from` to `to` is stopped when it would leave
/// the grid, jump between cells that are not side by side, or cross a wall
/// standing on either side of the edge between them.
pub open spec fn move_blocked(m: MazeMap, from: Option<Cell>, to: Option<Cell>) -> bool {
    match (from, to) {
        (Some(a), Some(b)) => if a == b {
            false
        } else {
            match step_direction(a, b) {
                Some(d) => m.wall(a, d) || m.wall(b, d.reverse()),
                None => true,
            }
        },
        _ => true,
    }
}

pub fn ore_move_blocked(old_cell: Option<Cell>, new_cell: Option<Cell>, maze: &MazeMap) -> (blocked: bool)
    requires
        old_cell matches Some(c) ==> in_grid(c),
        new_cell matches Some(c) ==> in_grid(c),
    ensures
        blocked == move_blocked(*maze, old_cell, new_cell),
{
    let from = match old_cell {
        Some(c) => c,
        None => {
            return true;
        },
    };
    let to = match new_cell {
        Some(c) => c,
        None => {
            return true;
        },
    };
    if same_cell(from, to) {
        return false;
    }
    match direction_between(from, to) {
        Some(d) => maze.has_wall(from, d) || maze.has_wall(to, d.opposite()),
        None => true,
    }
}

/// Turning around twice faces the same way, and one step each way returns:
/// the opposite of the opposite is the direction itself, its offsets are
/// negated, and its slot is two away.
pub proof fn law_opposite_is_involution(d: Direction)
    ensures
        d.reverse().reverse() == d,
        d.reverse().dx() == -d.dx(),
        d.reverse().dz() == -d.dz(),
        d.reverse() != d,
        (d.reverse().slot() + 2) % 4 == d.slot(),
{
}

/// Stepping back the way one came returns to the start.
pub proof fn lemma_neighbor_back(c: Cell, d: Direction)
    requires
        in_grid(c),
        neighbor_of(c, d) is Some,
    ensures
        in_grid(neighbor_of(c, d).unwrap()),
        neighbor_of(neighbor_of(c, d).unwrap(), d.reverse()) == Some(c),
        step_direction(c, neighbor_of(c, d).unwrap()) == Some(d),
        step_direction(neighbor_of(c, d).unwrap(), c) == Some(d.reverse()),
{
}

/// A step between two cells is a step in the direction between them.
pub proof fn lemma_step_direction(a: Cell, b: Cell)
    requires
        step_direction(a, b) is Some,
    ensures
        neighbor_of(a, step_direction(a, b).unwrap()) == (if in_grid(b) {
            Some(b)
        } else {
            None
        }),
        step_direction(b, a) == Some(step_direction(a, b).unwrap().reverse()),
{
}

/// Row-major positions tell the cells of the grid apart.
pub proof fn lemma_flat_injective(a: Cell, b: Cell)
    requires
        in_grid(a),
        in_grid(b),
        flat(a) == flat(b),
    ensures
        a == b,
{
}

/// A walk stays a walk in a maze with more open walls.
pub proof fn lemma_walk_opens_into(m1: MazeMap, m2: MazeMap, p: Seq<Cell>, mutual: bool)
    requires
        m1.is_walk(p, mutual),
        m1.opens_into(m2),
    ensures
        m2.is_walk(p, mutual),
{
    assert forall|i: int| 0 <= i < p.len() - 1 implies #[trigger] m2.link_at(p, i, mutual) by {
        assert(m1.link_at(p, i, mutual));
    }
}

/// A walk followed by one more step is a walk.
pub proof fn lemma_walk_push(m: MazeMap, p: Seq<Cell>, c: Cell, mutual: bool)
    requires
        m.is_walk(p, mutual),
        m.step(p.last(), c, mutual),
    ensures
        m.is_walk(p.push(c), mutual),
        p.push(c)[0] == p[0],
        p.push(c).last() == c,
{
    let q = p.push(c);
    assert forall|i: int| 0 <= i < q.len() implies in_grid(#[trigger] q[i]) by {
        if i < p.len() {
            assert(q[i] == p[i]);
        }
    }
    assert forall|i: int| 0 <= i < q.len() - 1 implies #[trigger] m.link_at(q, i, mutual) by {
        if i < p.len() - 1 {
            assert(m.link_at(p, i, mutual));
        }
    }
}

/// The one-cell walk.
pub proof fn lemma_walk_single(m: MazeMap, c: Cell, mutual: bool)
    requires
        in_grid(c),
    ensures
        m.walk_between(seq![c], c, c, mutual),
        m.reaches(c, c, mutual),
{
    assert(m.walk_between(seq![c], c, c, mutual));
}

} // verus!
