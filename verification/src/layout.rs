//! What stands where once the maze is carved: which walls hold ore, the wall
//! pieces to raise with what mining they take, and the posts at wall ends.
use vstd::prelude::*;
use crate::maze::{
    Cell, Direction, MazeMap, WallSegment, MAZE_COLUMNS, MAZE_ROWS, in_grid, neighbor_of,
    neighbor_cell, hard_near_exit, hard_wall_near_exit, manhattan, manhattan_distance, start_cell,
    touches_vertex, wall_touches_vertex,
};
use crate::random::shuffle;
use crate::maze::{exit_cell, lemma_neighbor_back};
use crate::generate::{
    generate_connected_maze, seal_extra_exit_passages, exit_open_sides, lemma_open_sides_facts,
    sealed_walls, kept_side, passage_count, reaches_start_without, first_reaching, side_reaches_start,
    lemma_some_side_reaches, lemma_walk_reverse, lemma_walk_survives_seal,
};

verus! {

/// The most ore-deposit walls a maze gets.
pub const MAX_ORE_DEPOSITS: usize = 7;

/// A wall that may hold ore: a standing north or west wall between two cells,
/// not hard, and with both of its cells more than three steps from the start.
pub open spec fn ore_candidate(m: MazeMap, c: Cell, d: Direction) -> bool {
    &&& in_grid(c)
    &&& (d == Direction::North || d == Direction::West)
    &&& m.wall(c, d)
    &&& !hard_near_exit(c, d)
    &&& neighbor_of(c, d) is Some
    &&& manhattan(start_cell(), c) > 3
    &&& manhattan(start_cell(), neighbor_of(c, d).unwrap()) > 3
}

/// The cell at row-major position `i`.
pub open spec fn cell_at(i: int) -> Cell {
    ((i % MAZE_COLUMNS as int) as usize, (i / MAZE_COLUMNS as int) as usize)
}

/// Row-major order of (cell, north-or-west side).
pub open spec fn edge_key(c: Cell, d: Direction) -> int {
    (c.1 * MAZE_COLUMNS + c.0) * 2 + (if d == Direction::West {
        1int
    } else {
        0
    })
}

fn ore_candidate_check(maze: &MazeMap, cell: Cell, direction: Direction) -> (ok: bool)
    requires
        in_grid(cell),
        direction == Direction::North || direction == Direction::West,
    ensures
        ok == ore_candidate(*maze, cell, direction),
{
    if !maze.has_wall(cell, direction) || hard_wall_near_exit(cell, direction) {
        return false;
    }
    match neighbor_cell(cell, direction) {
        Some(next) => {
            let start: Cell = (0, 0);
            !(manhattan_distance(start, cell) <= 3 || manhattan_distance(start, next) <= 3)
        },
        None => false,
    }
}

/// Picks the walls that burst into ore when mined: a random choice of at most
/// seven candidate walls, all of them when there are fewer, none twice.
pub fn choose_ore_deposit_edges(maze: &MazeMap) -> (edges: Vec<(Cell, Direction)>)
    ensures
        edges@.len() <= MAX_ORE_DEPOSITS,
        edges@.no_duplicates(),
        forall|i: int| 0 <= i < edges@.len() ==> ore_candidate(*maze, #[trigger] edges@[i].0, edges@[i].1),
        edges@.len() < MAX_ORE_DEPOSITS ==> forall|c: Cell, d: Direction|
            ore_candidate(*maze, c, d) ==> #[trigger] edges@.contains((c, d)),
{
    let mut candidates: Vec<(Cell, Direction)> = Vec::new();
    let mut z: usize = 0;
    while z < MAZE_ROWS
        invariant
            0 <= z <= MAZE_ROWS,
            forall|i: int| 0 <= i < candidates@.len() ==> ore_candidate(*maze, #[trigger] candidates@[i].0, candidates@[i].1),
            forall|i: int, j: int| 0 <= i < j < candidates@.len() ==> edge_key(#[trigger] candidates@[i].0, candidates@[i].1) < edge_key(#[trigger] candidates@[j].0, candidates@[j].1),
            forall|i: int| 0 <= i < candidates@.len() ==> edge_key(#[trigger] candidates@[i].0, candidates@[i].1) < z * MAZE_COLUMNS * 2,
            forall|c: Cell, d: Direction| ore_candidate(*maze, c, d) && c.1 < z ==> #[trigger] candidates@.contains((c, d)),
        decreases MAZE_ROWS - z,
    {
        let mut x: usize = 0;
        while x < MAZE_COLUMNS
            invariant
                0 <= z < MAZE_ROWS,
                0 <= x <= MAZE_COLUMNS,
                forall|i: int| 0 <= i < candidates@.len() ==> ore_candidate(*maze, #[trigger] candidates@[i].0, candidates@[i].1),
                forall|i: int, j: int| 0 <= i < j < candidates@.len() ==> edge_key(#[trigger] candidates@[i].0, candidates@[i].1) < edge_key(#[trigger] candidates@[j].0, candidates@[j].1),
                forall|i: int| 0 <= i < candidates@.len() ==> edge_key(#[trigger] candidates@[i].0, candidates@[i].1) < (z * MAZE_COLUMNS + x) * 2,
                forall|c: Cell, d: Direction| ore_candidate(*maze, c, d) && (c.1 < z || (c.1 == z && c.0 < x)) ==> #[trigger] candidates@.contains((c, d)),
            decreases MAZE_COLUMNS - x,
        {
            let mut k: usize = 0;
            while k < 2
                invariant
                    0 <= z < MAZE_ROWS,
                    0 <= x < MAZE_COLUMNS,
                    0 <= k <= 2,
                    forall|i: int| 0 <= i < candidates@.len() ==> ore_candidate(*maze, #[trigger] candidates@[i].0, candidates@[i].1),
                    forall|i: int, j: int| 0 <= i < j < candidates@.len() ==> edge_key(#[trigger] candidates@[i].0, candidates@[i].1) < edge_key(#[trigger] candidates@[j].0, candidates@[j].1),
                    forall|i: int| 0 <= i < candidates@.len() ==> edge_key(#[trigger] candidates@[i].0, candidates@[i].1) < (z * MAZE_COLUMNS + x) * 2 + k,
                    forall|c: Cell, d: Direction| ore_candidate(*maze, c, d) && (c.1 < z || (c.1 == z && c.0 < x) || (c == (x, z) && (if d == Direction::North { 0int } else { 1int }) < k)) ==> #[trigger] candidates@.contains((c, d)),
                decreases 2 - k,
            {
                let direction = if k == 0 {
                    Direction::North
                } else {
                    Direction::West
                };
                let ghost prior = candidates@;
                if ore_candidate_check(maze, (x, z), direction) {
                    candidates.push(((x, z), direction));
                }
                proof {
                    assert forall|c: Cell, d: Direction| ore_candidate(*maze, c, d) && (c.1 < z || (c.1 == z && c.0 < x) || (c == (x, z) && (if d == Direction::North { 0int } else { 1int }) < k + 1)) implies #[trigger] candidates@.contains((c, d)) by {
                        if c == (x, z) && d == direction {
                            assert(candidates@[candidates@.len() - 1] == (c, d));
                        } else {
                            assert(prior.contains((c, d)));
                            let q = choose|q: int| 0 <= q < prior.len() && prior[q] == (c, d);
                            assert(candidates@[q] == (c, d));
                        }
                    }
                }
                k = k + 1;
            }
            x = x + 1;
        }
        z = z + 1;
    }
    let ghost listed = candidates@;
    proof {
        assert(listed.no_duplicates()) by {
            assert forall|i: int, j: int| 0 <= i < listed.len() && 0 <= j < listed.len() && i != j implies listed[i] != listed[j] by {
                if i < j {
                    assert(edge_key(listed[i].0, listed[i].1) < edge_key(listed[j].0, listed[j].1));
                } else {
                    assert(edge_key(listed[j].0, listed[j].1) < edge_key(listed[i].0, listed[i].1));
                }
            }
        }
        listed.lemma_multiset_has_no_duplicates();
    }
    shuffle(&mut candidates);
    let ghost shuffled = candidates@;
    proof {
        vstd::seq_lib::to_multiset_len(listed);
        vstd::seq_lib::to_multiset_len(shuffled);
        assert forall|e: (Cell, Direction)| #[trigger] shuffled.contains(e) <==> listed.contains(e) by {
            vstd::seq_lib::to_multiset_contains(listed, e);
            vstd::seq_lib::to_multiset_contains(shuffled, e);
        }
        assert forall|e: (Cell, Direction)| shuffled.to_multiset().contains(e) implies shuffled.to_multiset().count(e) == 1 by {
        }
        shuffled.lemma_multiset_has_no_duplicates_conv();
    }
    candidates.truncate(MAX_ORE_DEPOSITS);
    proof {
        assert forall|i: int| 0 <= i < candidates@.len() implies ore_candidate(*maze, #[trigger] candidates@[i].0, candidates@[i].1) by {
            assert(shuffled.contains(shuffled[i]));
            let q = choose|q: int| 0 <= q < listed.len() && listed[q] == shuffled[i];
        }
        if candidates@.len() < MAX_ORE_DEPOSITS {
            assert(candidates@ == shuffled);
            assert forall|c: Cell, d: Direction| ore_candidate(*maze, c, d) implies #[trigger] candidates@.contains((c, d)) by {
                assert(listed.contains((c, d)));
                assert(shuffled.contains((c, d)));
            }
        }
    }
    candidates
}

pub proof fn lemma_cell_at(x: usize, z: usize)
    requires
        x < MAZE_COLUMNS,
    ensures
        cell_at(z * MAZE_COLUMNS + x) == (x, z),
{
    vstd::arithmetic::div_mod::lemma_fundamental_div_mod_converse_mod(
        z * MAZE_COLUMNS + x,
        MAZE_COLUMNS as int,
        z as int,
        x as int,
    );
    vstd::arithmetic::div_mod::lemma_fundamental_div_mod_converse_div(
        z * MAZE_COLUMNS + x,
        MAZE_COLUMNS as int,
        z as int,
        x as int,
    );
}

pub open spec fn segment_spec(
    c: Cell,
    d: Direction,
    mineable: bool,
    hits: u8,
    ore_deposit: bool,
) -> WallSegment {
    WallSegment { cell: c, direction: d, mineable, hits_remaining: hits, max_hits: hits, ore_deposit }
}

/// An inner (north or west) wall piece: hard near the exit, taking three
/// hits; otherwise one hit, holding ore when it was chosen for ore.
pub open spec fn inner_piece(m: MazeMap, ore: Seq<(Cell, Direction)>, c: Cell, d: Direction, mineable: bool) -> Seq<WallSegment> {
    if m.wall(c, d) {
        let hard = hard_near_exit(c, d);
        seq![segment_spec(c, d, mineable, if hard { 3u8 } else { 1u8 }, !hard && ore.contains((c, d)))]
    } else {
        seq![]
    }
}

/// An outer (south or east) boundary piece: never mineable, one hit, no ore.
pub open spec fn outer_piece(m: MazeMap, c: Cell, d: Direction, on_edge: bool) -> Seq<WallSegment> {
    if on_edge && m.wall(c, d) {
        seq![segment_spec(c, d, false, 1u8, false)]
    } else {
        seq![]
    }
}

/// The wall pieces raised for cell `c`: its north wall (mineable unless on
/// the last row), its west wall (mineable unless on the first column), and
/// the outer south and east walls on the first row and last column.
pub open spec fn cell_pieces(m: MazeMap, ore: Seq<(Cell, Direction)>, c: Cell) -> Seq<WallSegment> {
    inner_piece(m, ore, c, Direction::North, c.1 < MAZE_ROWS - 1)
        + inner_piece(m, ore, c, Direction::West, c.0 > 0)
        + outer_piece(m, c, Direction::South, c.1 == 0)
        + outer_piece(m, c, Direction::East, c.0 == MAZE_COLUMNS - 1)
}

/// The pieces of the first `n` cells in row-major order.
pub open spec fn pieces_upto(m: MazeMap, ore: Seq<(Cell, Direction)>, n: int) -> Seq<WallSegment>
    decreases n,
{
    if n <= 0 {
        seq![]
    } else {
        pieces_upto(m, ore, n - 1) + cell_pieces(m, ore, cell_at(n - 1))
    }
}

pub fn edge_listed(edges: &Vec<(Cell, Direction)>, cell: Cell, direction: Direction) -> (listed: bool)
    ensures
        listed == edges@.contains((cell, direction)),
{
    let mut i: usize = 0;
    while i < edges.len()
        invariant
            0 <= i <= edges@.len(),
            forall|j: int| 0 <= j < i ==> #[trigger] edges@[j] != (cell, direction),
        decreases edges@.len() - i,
    {
        let (c, d) = edges[i];
        if c.0 == cell.0 && c.1 == cell.1 && d == direction {
            assert(edges@[i as int] == (cell, direction));
            return true;
        }
        i = i + 1;
    }
    false
}

fn inner_wall_piece(
    maze: &MazeMap,
    ore_edges: &Vec<(Cell, Direction)>,
    cell: Cell,
    direction: Direction,
    mineable: bool,
    pieces: &mut Vec<WallSegment>,
)
    requires
        in_grid(cell),
    ensures
        final(pieces)@ == old(pieces)@ + inner_piece(*maze, ore_edges@, cell, direction, mineable),
{
    if maze.has_wall(cell, direction) {
        let hard = hard_wall_near_exit(cell, direction);
        let ore_deposit = !hard && edge_listed(ore_edges, cell, direction);
        pieces.push(WallSegment::new(cell, direction, mineable, if hard { 3 } else { 1 }, ore_deposit));
    }
}

/// The walls to raise, cell by cell in row-major order, with what it takes
/// to mine each; `ore_edges` are the walls that hold ore.
pub fn wall_pieces(maze: &MazeMap, ore_edges: &Vec<(Cell, Direction)>) -> (pieces: Vec<WallSegment>)
    ensures
        pieces@ == pieces_upto(*maze, ore_edges@, (MAZE_COLUMNS * MAZE_ROWS) as int),
        forall|k: int| 0 <= k < pieces@.len() ==> hits_by_place(#[trigger] pieces@[k]),
{
    let mut pieces: Vec<WallSegment> = Vec::new();
    let mut z: usize = 0;
    while z < MAZE_ROWS
        invariant
            0 <= z <= MAZE_ROWS,
            pieces@ == pieces_upto(*maze, ore_edges@, z * MAZE_COLUMNS),
        decreases MAZE_ROWS - z,
    {
        let mut x: usize = 0;
        while x < MAZE_COLUMNS
            invariant
                0 <= z < MAZE_ROWS,
                0 <= x <= MAZE_COLUMNS,
                pieces@ == pieces_upto(*maze, ore_edges@, z * MAZE_COLUMNS + x),
            decreases MAZE_COLUMNS - x,
        {
            let cell: Cell = (x, z);
            let ghost prior = pieces@;
            inner_wall_piece(maze, ore_edges, cell, Direction::North, z < MAZE_ROWS - 1, &mut pieces);
            inner_wall_piece(maze, ore_edges, cell, Direction::West, x > 0, &mut pieces);
            if z == 0 && maze.has_wall(cell, Direction::South) {
                pieces.push(WallSegment::new(cell, Direction::South, false, 1, false));
            }
            if x == MAZE_COLUMNS - 1 && maze.has_wall(cell, Direction::East) {
                pieces.push(WallSegment::new(cell, Direction::East, false, 1, false));
            }
            proof {
                lemma_cell_at(x, z);
                assert(pieces@ == prior + cell_pieces(*maze, ore_edges@, cell));
                assert(pieces_upto(*maze, ore_edges@, z * MAZE_COLUMNS + x + 1) == pieces_upto(*maze, ore_edges@, z * MAZE_COLUMNS + x) + cell_pieces(*maze, ore_edges@, cell_at(z * MAZE_COLUMNS + x)));
            }
            x = x + 1;
        }
        z = z + 1;
    }
    proof {
        law_hard_walls_are_those_near_the_exit(*maze, ore_edges@, (MAZE_COLUMNS * MAZE_ROWS) as int);
    }
    pieces
}

/// Grid vertices per row and column.
pub const VERTEX_SPAN: usize = 13;

pub open spec fn vertex_at(i: int) -> (usize, usize) {
    ((i % VERTEX_SPAN as int) as usize, (i / VERTEX_SPAN as int) as usize)
}

/// The first `n` grid vertices, in row-major order, at which some wall ends.
pub open spec fn posts_upto(m: MazeMap, n: int) -> Seq<(usize, usize)>
    decreases n,
{
    if n <= 0 {
        seq![]
    } else {
        let v = vertex_at(n - 1);
        posts_upto(m, n - 1) + if touches_vertex(m, v.0, v.1) {
            seq![v]
        } else {
            seq![]
        }
    }
}

/// The grid vertices, in row-major order, that get a wall post: those at
/// which some wall ends.
pub fn wall_post_vertices(maze: &MazeMap) -> (posts: Vec<(usize, usize)>)
    ensures
        posts@ == posts_upto(*maze, (VERTEX_SPAN * VERTEX_SPAN) as int),
{
    let mut posts: Vec<(usize, usize)> = Vec::new();
    let mut z: usize = 0;
    while z <= MAZE_ROWS
        invariant
            0 <= z <= MAZE_ROWS + 1,
            posts@ == posts_upto(*maze, z * VERTEX_SPAN),
        decreases MAZE_ROWS + 1 - z,
    {
        let mut x: usize = 0;
        while x <= MAZE_COLUMNS
            invariant
                0 <= z <= MAZE_ROWS,
                0 <= x <= MAZE_COLUMNS + 1,
                posts@ == posts_upto(*maze, z * VERTEX_SPAN + x),
            decreases MAZE_COLUMNS + 1 - x,
        {
            if wall_touches_vertex(x, z, maze) {
                posts.push((x, z));
            }
            proof {
                vstd::arithmetic::div_mod::lemma_fundamental_div_mod_converse_mod(
                    z * VERTEX_SPAN + x,
                    VERTEX_SPAN as int,
                    z as int,
                    x as int,
                );
                vstd::arithmetic::div_mod::lemma_fundamental_div_mod_converse_div(
                    z * VERTEX_SPAN + x,
                    VERTEX_SPAN as int,
                    z as int,
                    x as int,
                );
                assert(vertex_at(z * VERTEX_SPAN + x) == (x, z));
            }
            x = x + 1;
        }
        z = z + 1;
    }
    posts
}

/// The rules every wall piece keeps: it stands in the grid; only a wall
/// between two cells can be mined; it holds ore only where ore was chosen,
/// and then takes one hit; it takes three hits only near the exit, else one;
/// and it is unbroken.
pub open spec fn piece_rules(ore: Seq<(Cell, Direction)>, p: WallSegment) -> bool {
    &&& in_grid(p.cell)
    &&& p.mineable ==> neighbor_of(p.cell, p.direction) is Some
    &&& p.ore_deposit ==> ore.contains((p.cell, p.direction)) && p.max_hits == 1
    &&& p.max_hits == 3 ==> hard_near_exit(p.cell, p.direction)
    &&& (p.max_hits == 1 || p.max_hits == 3)
    &&& p.hits_remaining == p.max_hits
}

pub proof fn lemma_cell_at_in_grid(i: int)
    requires
        0 <= i < MAZE_COLUMNS * MAZE_ROWS,
    ensures
        in_grid(cell_at(i)),
{
    vstd::arithmetic::div_mod::lemma_fundamental_div_mod(i, MAZE_COLUMNS as int);
    assert(0 <= i % (MAZE_COLUMNS as int) < MAZE_COLUMNS);
    assert(i / (MAZE_COLUMNS as int) >= 0) by (nonlinear_arith)
        requires
            i >= 0,
    ;
    assert(i / (MAZE_COLUMNS as int) < MAZE_ROWS) by (nonlinear_arith)
        requires
            i < MAZE_COLUMNS * MAZE_ROWS,
            i >= 0,
    ;
}

/// Boundary walls are unbreakable, ore is only where it was chosen, and
/// only walls near the exit are hard: every piece raised keeps the rules.
pub proof fn law_wall_pieces_keep_rules(m: MazeMap, ore: Seq<(Cell, Direction)>, n: int)
    requires
        0 <= n <= MAZE_COLUMNS * MAZE_ROWS,
    ensures
        forall|k: int| 0 <= k < pieces_upto(m, ore, n).len() ==> piece_rules(ore, #[trigger] pieces_upto(m, ore, n)[k]),
    decreases n,
{
    if n > 0 {
        law_wall_pieces_keep_rules(m, ore, n - 1);
        lemma_cell_at_in_grid(n - 1);
        let c = cell_at(n - 1);
        let prev = pieces_upto(m, ore, n - 1);
        let cur = cell_pieces(m, ore, c);
        assert forall|k: int| 0 <= k < cur.len() implies piece_rules(ore, #[trigger] cur[k]) by {
        }
        let all = pieces_upto(m, ore, n);
        assert(all == prev + cur);
        assert forall|k: int| 0 <= k < all.len() implies piece_rules(ore, #[trigger] all[k]) by {
            if k < prev.len() {
                assert(all[k] == prev[k]);
            } else {
                assert(all[k] == cur[k - prev.len()]);
            }
        }
    }
}

/// How many hits a raised piece takes: a north or west wall takes three
/// exactly when its cell or the cell across it is within one step of the
/// exit chamber, and one otherwise; a south or east boundary wall takes one.
pub open spec fn hits_by_place(p: WallSegment) -> bool {
    let exit: Cell = ((MAZE_COLUMNS - 1) as usize, (MAZE_ROWS - 1) as usize);
    let near = manhattan(p.cell, exit) <= 1 || (neighbor_of(p.cell, p.direction) matches Some(n) && manhattan(n, exit) <= 1);
    if p.direction == Direction::North || p.direction == Direction::West {
        p.max_hits == (if near { 3u8 } else { 1u8 })
    } else {
        p.max_hits == 1
    }
}

/// Walls near the exit chamber are hard, and only they: every piece raised
/// takes the hits its place calls for.
pub proof fn law_hard_walls_are_those_near_the_exit(m: MazeMap, ore: Seq<(Cell, Direction)>, n: int)
    requires
        0 <= n <= MAZE_COLUMNS * MAZE_ROWS,
    ensures
        forall|k: int| 0 <= k < pieces_upto(m, ore, n).len() ==> hits_by_place(#[trigger] pieces_upto(m, ore, n)[k]),
    decreases n,
{
    if n > 0 {
        law_hard_walls_are_those_near_the_exit(m, ore, n - 1);
        let c = cell_at(n - 1);
        let prev = pieces_upto(m, ore, n - 1);
        let cur = cell_pieces(m, ore, c);
        assert forall|k: int| 0 <= k < cur.len() implies hits_by_place(#[trigger] cur[k]) by {
            let a = inner_piece(m, ore, c, Direction::North, c.1 < MAZE_ROWS - 1);
            let b = inner_piece(m, ore, c, Direction::West, c.0 > 0);
            let e = outer_piece(m, c, Direction::South, c.1 == 0);
            let w = outer_piece(m, c, Direction::East, c.0 == MAZE_COLUMNS - 1);
            assert(cur == a + b + e + w);
            if k < a.len() {
                assert(cur[k] == a[k]);
            } else if k < a.len() + b.len() {
                assert(cur[k] == b[k - a.len()]);
            } else if k < a.len() + b.len() + e.len() {
                assert(cur[k] == e[k - a.len() - b.len()]);
            } else {
                assert(cur[k] == w[k - a.len() - b.len() - e.len()]);
            }
        }
        let all = pieces_upto(m, ore, n);
        assert(all == prev + cur);
        assert forall|k: int| 0 <= k < all.len() implies hits_by_place(#[trigger] all[k]) by {
            if k < prev.len() {
                assert(all[k] == prev[k]);
            } else {
                assert(all[k] == cur[k - prev.len()]);
            }
        }
    }
}

/// Everything that stands in a fresh maze.
pub struct MazeBlueprint {
    pub maze: MazeMap,
    /// The exit chamber's side kept open for the locked door's passage: the
    /// one that leads back to the start.
    pub exit_passage: Option<Direction>,
    pub ore_edges: Vec<(Cell, Direction)>,
    pub walls: Vec<WallSegment>,
    pub posts: Vec<(usize, usize)>,
}

/// Lays out a fresh maze: carve it, seal the exit chamber down to one way
/// in, choose the ore walls, and list the wall pieces and posts to raise.
/// The exit can be reached from the start, and so can every cell that
/// reached the start without passing through the exit chamber before the
/// sealing.
pub fn plan_maze() -> (plan: MazeBlueprint)
    ensures
        exists|carved: MazeMap|
            #[trigger] carved.connected() && carved.consistent() && passage_count(carved) == (MAZE_COLUMNS * MAZE_ROWS) as int - 1
                && sealed_walls(carved, plan.maze) && plan.exit_passage == kept_side(carved)
                && forall|c: Cell|
                in_grid(c) && #[trigger] reaches_start_without(carved, c, exit_cell()) ==> plan.maze.reaches(start_cell(), c, true),
        plan.maze.reaches(start_cell(), exit_cell(), true),
        plan.maze.consistent(),
        exists|d: Direction| #[trigger] plan.maze.opens(exit_cell(), d),
        forall|d1: Direction, d2: Direction|
            #[trigger] plan.maze.opens(exit_cell(), d1) && #[trigger] plan.maze.opens(exit_cell(), d2) ==> d1 == d2,
        plan.exit_passage is Some,
        plan.ore_edges@.len() <= MAX_ORE_DEPOSITS,
        plan.ore_edges@.no_duplicates(),
        forall|i: int| 0 <= i < plan.ore_edges@.len() ==> ore_candidate(plan.maze, #[trigger] plan.ore_edges@[i].0, plan.ore_edges@[i].1),
        plan.ore_edges@.len() < MAX_ORE_DEPOSITS ==> forall|c: Cell, d: Direction|
            ore_candidate(plan.maze, c, d) ==> #[trigger] plan.ore_edges@.contains((c, d)),
        plan.walls@ == pieces_upto(plan.maze, plan.ore_edges@, (MAZE_COLUMNS * MAZE_ROWS) as int),
        plan.posts@ == posts_upto(plan.maze, (VERTEX_SPAN * VERTEX_SPAN) as int),
{
    let mut maze = generate_connected_maze();
    let ghost carved = maze;
    let exit_passage = seal_extra_exit_passages(&mut maze);
    proof {
        let sides = exit_open_sides(carved);
        lemma_some_side_reaches(carved);
        crate::generate::lemma_first_reaching(carved, sides, 0);
        let d0 = exit_passage.unwrap();
        assert(first_reaching(carved, sides, 0) == Some(d0));
        assert(side_reaches_start(carved, d0));
        assert(maze.opens(exit_cell(), d0));
        assert(exists|d: Direction| #[trigger] maze.opens(exit_cell(), d));
        assert(sealed_walls(carved, maze));
        assert forall|c: Cell| in_grid(c) && #[trigger] reaches_start_without(carved, c, exit_cell()) implies maze.reaches(
            start_cell(),
            c,
            true,
        ) by {
            if c == start_cell() {
                crate::maze::lemma_walk_single(maze, c, true);
            } else {
                let p = choose|p: Seq<Cell>| #[trigger] carved.walk_between(p, c, start_cell(), true) && crate::maze::avoids(p, exit_cell());
                lemma_walk_survives_seal(carved, maze, p);
                lemma_walk_reverse(maze, p);
                assert(maze.walk_between(p.reverse(), start_cell(), c, true));
            }
        }
        let x = exit_cell();
        lemma_open_sides_facts(carved, x, 4);
        assert(sides.contains(d0));
        assert(carved.opens(x, d0));
        let n0 = neighbor_of(x, d0).unwrap();
        lemma_neighbor_back(x, d0);
        assert(reaches_start_without(carved, n0, x));
        assert(maze.reaches(start_cell(), n0, true));
        let p = choose|p: Seq<Cell>| #[trigger] maze.walk_between(p, start_cell(), n0, true);
        assert(maze.wall(n0, d0.reverse()) == (carved.wall(n0, d0.reverse()) || crate::generate::closed_by_seal(carved, n0, d0.reverse())));
        assert(maze.wall(x, d0) == (carved.wall(x, d0) || crate::generate::closed_by_seal(carved, x, d0)));
        assert(d0.reverse().reverse() == d0);
        assert(maze.step(n0, x, true));
        crate::maze::lemma_walk_push(maze, p, x, true);
        assert(maze.walk_between(p.push(x), start_cell(), x, true));
    }
    let ore_edges = choose_ore_deposit_edges(&maze);
    let walls = wall_pieces(&maze, &ore_edges);
    let posts = wall_post_vertices(&maze);
    MazeBlueprint { maze, exit_passage, ore_edges, walls, posts }
}

} // verus!
