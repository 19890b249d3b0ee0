//! Building the maze: the random carve, the sealed exit chamber, and which
//! walls are hard, hold ore, or can be mined.
use vstd::prelude::*;
use vstd::set_lib::*;
use crate::maze::{
    Cell, Direction, MazeMap, MAZE_COLUMNS, MAZE_ROWS, flat, in_grid, neighbor_cell, neighbor_of,
    start_cell, exit_cell, lemma_flat_injective, lemma_neighbor_back, lemma_walk_opens_into, lemma_walk_push,
    lemma_walk_single, avoids, step_direction, lemma_step_direction,
};
use crate::random::shuffle;
use crate::layout::{cell_at, lemma_cell_at_in_grid};

verus! {

/// Flags, one per cell of the grid.
pub type CellFlags = [[bool; MAZE_COLUMNS]; MAZE_ROWS];

pub open spec fn flag(v: CellFlags, c: Cell) -> bool {
    v[c.1 as int][c.0 as int]
}

/// The row-major positions of the flagged cells.
pub open spec fn flagged_set(v: CellFlags, s: Set<int>) -> bool {
    &&& forall|c: Cell| in_grid(c) ==> (#[trigger] flag(v, c) <==> s.contains(flat(c)))
    &&& s.subset_of(set_int_range(0, (MAZE_COLUMNS * MAZE_ROWS) as int))
}

/// Flagging one more cell leaves fewer unflagged positions.
pub proof fn lemma_flag_one_more(v: CellFlags, s: Set<int>, c: Cell)
    requires
        flagged_set(v, s),
        in_grid(c),
        !flag(v, c),
    ensures
        set_int_range(0, (MAZE_COLUMNS * MAZE_ROWS) as int).difference(s.insert(flat(c))).len()
            < set_int_range(0, (MAZE_COLUMNS * MAZE_ROWS) as int).difference(s).len(),
        s.insert(flat(c)).subset_of(set_int_range(0, (MAZE_COLUMNS * MAZE_ROWS) as int)),
{
    lemma_int_range(0, (MAZE_COLUMNS * MAZE_ROWS) as int);
    set_int_range(0, (MAZE_COLUMNS * MAZE_ROWS) as int).lemma_set_insert_diff_decreases(
        s,
        flat(c),
    );
}

/// If the start cell is flagged and every flagged cell has all its neighbors
/// flagged, then every cell of the grid is flagged.
pub proof fn lemma_closed_flags_cover_grid(v: CellFlags, c: Cell)
    requires
        flag(v, start_cell()),
        forall|a: Cell, d: Direction|
            in_grid(a) && flag(v, a) && #[trigger] neighbor_of(a, d) is Some ==> flag(
                v,
                neighbor_of(a, d).unwrap(),
            ),
        in_grid(c),
    ensures
        flag(v, c),
    decreases c.0 + c.1,
{
    if c.0 > 0 {
        let b: Cell = ((c.0 - 1) as usize, c.1);
        lemma_closed_flags_cover_grid(v, b);
        assert(neighbor_of(b, Direction::East) == Some(c));
    } else if c.1 > 0 {
        let b: Cell = (c.0, (c.1 - 1) as usize);
        lemma_closed_flags_cover_grid(v, b);
        assert(neighbor_of(b, Direction::North) == Some(c));
    }
}

/// Opening both sides of one edge of a consistent maze keeps it consistent.
pub proof fn lemma_open_edge_consistent(m0: MazeMap, m1: MazeMap, m2: MazeMap, c: Cell, d: Direction, value: bool)
    requires
        m0.consistent(),
        in_grid(c),
        neighbor_of(c, d) is Some,
        m1.wall(c, d) == value,
        m0.same_but(m1, c, d),
        m2.wall(neighbor_of(c, d).unwrap(), d.reverse()) == value,
        m1.same_but(m2, neighbor_of(c, d).unwrap(), d.reverse()),
    ensures
        m2.consistent(),
        m2.wall(c, d) == value,
{
    let n = neighbor_of(c, d).unwrap();
    lemma_neighbor_back(c, d);
    assert forall|c2: Cell, d2: Direction| in_grid(c2) implies match neighbor_of(c2, d2) {
        Some(n2) => #[trigger] m2.wall(c2, d2) == m2.wall(n2, d2.reverse()),
        None => m2.wall(c2, d2),
    } by {
        assert(m0.wall(c2, d2) == m0.wall(c2, d2));
        if neighbor_of(c2, d2) is Some {
            lemma_neighbor_back(c2, d2);
            let n2 = neighbor_of(c2, d2).unwrap();
            assert(m0.wall(n2, d2.reverse()) == m0.wall(n2, d2.reverse()));
        }
    }
}

/// A cell's own open north and east sides: each passage of a consistent
/// maze is counted once, at its south or west cell.
pub open spec fn cell_passages(m: MazeMap, c: Cell) -> int {
    (if m.opens(c, Direction::North) {
        1int
    } else {
        0int
    }) + (if m.opens(c, Direction::East) {
        1int
    } else {
        0int
    })
}

/// The passages counted at the first `n` cells in row-major order.
pub open spec fn passages_upto(m: MazeMap, n: int) -> int
    decreases n,
{
    if n <= 0 {
        0
    } else {
        passages_upto(m, n - 1) + cell_passages(m, cell_at(n - 1))
    }
}

/// How many passages the maze has.
pub open spec fn passage_count(m: MazeMap) -> int {
    passages_upto(m, (MAZE_COLUMNS * MAZE_ROWS) as int)
}

pub(crate) proof fn lemma_cell_at_flat(i: int)
    requires
        0 <= i < MAZE_COLUMNS * MAZE_ROWS,
    ensures
        in_grid(cell_at(i)),
        flat(cell_at(i)) == i,
{
    lemma_cell_at_in_grid(i);
    vstd::arithmetic::div_mod::lemma_fundamental_div_mod(i, MAZE_COLUMNS as int);
}

proof fn lemma_no_passages(m: MazeMap, n: int)
    requires
        forall|c: Cell, d: Direction| in_grid(c) ==> #[trigger] m.wall(c, d),
    ensures
        passages_upto(m, n) == 0,
    decreases n,
{
    if n > 0 {
        lemma_no_passages(m, n - 1);
        let c = cell_at(n - 1);
        if in_grid(c) {
            assert(m.wall(c, Direction::North) && m.wall(c, Direction::East));
        }
    }
}

proof fn lemma_one_more_passage(m1: MazeMap, m2: MazeMap, k: int, n: int)
    requires
        forall|i: int|
            0 <= i < MAZE_COLUMNS * MAZE_ROWS ==> #[trigger] cell_passages(m2, cell_at(i)) == cell_passages(m1, cell_at(i)) + (if i
                == k {
                1int
            } else {
                0int
            }),
        0 <= n <= MAZE_COLUMNS * MAZE_ROWS,
    ensures
        passages_upto(m2, n) == passages_upto(m1, n) + (if 0 <= k < n {
            1int
        } else {
            0int
        }),
    decreases n,
{
    if n > 0 {
        lemma_one_more_passage(m1, m2, k, n - 1);
        assert(cell_passages(m2, cell_at(n - 1)) == cell_passages(m1, cell_at(n - 1)) + (if n - 1 == k {
            1int
        } else {
            0int
        }));
    }
}

/// Carving the edge from `top` toward `d` into `cell`, closed before, adds one passage.
proof fn lemma_carve_adds_passage(before: MazeMap, after: MazeMap, top: Cell, d: Direction, cell: Cell)
    requires
        in_grid(top),
        neighbor_of(top, d) == Some(cell),
        before.wall(top, d),
        before.wall(cell, d.reverse()),
        !after.wall(top, d),
        !after.wall(cell, d.reverse()),
        forall|c: Cell, d2: Direction|
            in_grid(c) && !(c == top && d2 == d) && !(c == cell && d2 == d.reverse()) ==> #[trigger] after.wall(c, d2)
                == before.wall(c, d2),
    ensures
        passage_count(after) == passage_count(before) + 1,
{
    lemma_neighbor_back(top, d);
    let owner = if d == Direction::North || d == Direction::East {
        top
    } else {
        cell
    };
    let k = flat(owner);
    assert forall|i: int| 0 <= i < MAZE_COLUMNS * MAZE_ROWS implies #[trigger] cell_passages(after, cell_at(i)) == cell_passages(
        before,
        cell_at(i),
    ) + (if i == k {
        1int
    } else {
        0int
    }) by {
        lemma_cell_at_flat(i);
        let c = cell_at(i);
        assert(after.wall(c, Direction::North) == before.wall(c, Direction::North) || (c == top && d == Direction::North) || (c
            == cell && d.reverse() == Direction::North));
        assert(after.wall(c, Direction::East) == before.wall(c, Direction::East) || (c == top && d == Direction::East) || (c
            == cell && d.reverse() == Direction::East));
        if i == k {
            lemma_flat_injective(c, owner);
        } else {
            assert(c != owner);
        }
        assert(top != cell);
    }
    lemma_one_more_passage(before, after, k, (MAZE_COLUMNS * MAZE_ROWS) as int);
}

/// Carves a maze by a randomised depth-first walk from the start cell: from
/// the newest cell on the stack, open the wall toward the first unvisited
/// neighbor in a shuffled order of directions, or step back when none is left.
/// Every cell can be reached, and there is one passage fewer than cells: no
/// loops.
pub fn generate_connected_maze() -> (maze: MazeMap)
    ensures
        maze.consistent(),
        maze.connected(),
        passage_count(maze) == (MAZE_COLUMNS * MAZE_ROWS) as int - 1,
{
    let mut maze = MazeMap::closed();
    let mut visited: CellFlags = [[false; MAZE_COLUMNS]; MAZE_ROWS];
    let mut stack: Vec<Cell> = Vec::new();
    stack.push((0, 0));
    visited[0][0] = true;
    let ghost mut seen: Set<int> = set![0int];
    proof {
        lemma_no_passages(maze, (MAZE_COLUMNS * MAZE_ROWS) as int);
        assert(seen.len() == 1);
        lemma_walk_single(maze, start_cell(), true);
        assert forall|c: Cell| in_grid(c) implies (#[trigger] flag(visited, c) <==> seen.contains(
            flat(c),
        )) by {
            if flat(c) == 0 {
                lemma_flat_injective(c, start_cell());
            }
        }
    }
    while stack.len() > 0
        invariant
            maze.consistent(),
            flagged_set(visited, seen),
            flag(visited, start_cell()),
            forall|i: int| 0 <= i < stack@.len() ==> in_grid(#[trigger] stack@[i]) && flag(visited, stack@[i]),
            forall|i: int, j: int|
                0 <= i < j < stack@.len() ==> #[trigger] stack@[i] != #[trigger] stack@[j],
            forall|c: Cell| in_grid(c) && #[trigger] flag(visited, c) ==> maze.reaches(start_cell(), c, true),
            forall|a: Cell, d: Direction|
                in_grid(a) && flag(visited, a) && !stack@.contains(a) && #[trigger] neighbor_of(a, d) is Some
                    ==> flag(visited, neighbor_of(a, d).unwrap()),
            forall|c: Cell, d: Direction| in_grid(c) && !flag(visited, c) ==> #[trigger] maze.wall(c, d),
            passage_count(maze) == seen.len() - 1,
        decreases
            set_int_range(0, (MAZE_COLUMNS * MAZE_ROWS) as int).difference(seen).len(),
            stack.len(),
    {
        let top = stack[stack.len() - 1];
        let mut directions: Vec<Direction> = Vec::new();
        directions.push(Direction::North);
        directions.push(Direction::East);
        directions.push(Direction::South);
        directions.push(Direction::West);
        let ghost ordered = directions@;
        shuffle(&mut directions);
        proof {
            assert forall|d: Direction| directions@.contains(d) by {
                vstd::seq_lib::to_multiset_contains(ordered, d);
                vstd::seq_lib::to_multiset_contains(directions@, d);
                match d {
                    Direction::North => assert(ordered[0] == d),
                    Direction::East => assert(ordered[1] == d),
                    Direction::South => assert(ordered[2] == d),
                    Direction::West => assert(ordered[3] == d),
                }
            }
        }

        let mut next: Option<(Direction, Cell)> = None;
        let mut i: usize = 0;
        while i < directions.len() && next.is_none()
            invariant
                0 <= i <= directions@.len(),
                in_grid(top),
                forall|d: Direction| #[trigger] directions@.contains(d),
                next is None ==> forall|j: int|
                    0 <= j < i ==> match #[trigger] neighbor_of(top, directions@[j]) {
                        Some(n) => flag(visited, n),
                        None => true,
                    },
                next matches Some(found) ==> neighbor_of(top, found.0) == Some(found.1) && !flag(
                    visited,
                    found.1,
                ),
            decreases directions@.len() - i,
        {
            let direction = directions[i];
            if let Some(cell) = neighbor_cell(top, direction) {
                if !visited[cell.1][cell.0] {
                    next = Some((direction, cell));
                }
            }
            i = i + 1;
        }

        match next {
            Some((direction, cell)) => {
                let ghost before = maze;
                maze.set_wall(top, direction, false);
                let ghost middle = maze;
                maze.set_wall(cell, direction.opposite(), false);
                proof {
                    lemma_neighbor_back(top, direction);
                    lemma_open_edge_consistent(before, middle, maze, top, direction, false);
                    assert(before.opens_into(maze));
                    lemma_flag_one_more(visited, seen, cell);
                    assert(before.wall(cell, direction.reverse()));
                    assert(before.wall(top, direction));
                    assert forall|c: Cell, d2: Direction|
                        in_grid(c) && !(c == top && d2 == direction) && !(c == cell && d2 == direction.reverse()) implies #[trigger] maze.wall(c, d2)
                            == before.wall(c, d2) by {
                        assert(middle.wall(c, d2) == before.wall(c, d2));
                    }
                    lemma_carve_adds_passage(before, maze, top, direction, cell);
                    assert(!seen.contains(flat(cell)));
                }
                let ghost old_visited = visited;
                let ghost old_stack = stack@;
                visited[cell.1][cell.0] = true;
                stack.push(cell);
                proof {
                    let old_seen = seen;
                    seen = seen.insert(flat(cell));
                    vstd::set_lib::lemma_int_range(0, (MAZE_COLUMNS * MAZE_ROWS) as int);
                    vstd::set_lib::lemma_len_subset(old_seen, set_int_range(0, (MAZE_COLUMNS * MAZE_ROWS) as int));
                    assert(seen.len() == old_seen.len() + 1);
                    assert forall|c: Cell, d: Direction| in_grid(c) && !flag(visited, c) implies #[trigger] maze.wall(c, d) by {
                        assert(old_visited[c.1 as int][c.0 as int] == flag(old_visited, c));
                        assert(c != cell);
                        assert(!flag(old_visited, c));
                        assert(c != top);
                        assert(middle.wall(c, d) == before.wall(c, d));
                    }
                    assert forall|c: Cell| in_grid(c) implies (#[trigger] flag(visited, c) <==> seen.contains(flat(c))) by {
                        if flat(c) == flat(cell) {
                            lemma_flat_injective(c, cell);
                        }
                        assert(old_visited[c.1 as int][c.0 as int] == flag(old_visited, c));
                    }
                    assert forall|c: Cell| in_grid(c) && #[trigger] flag(visited, c) implies maze.reaches(start_cell(), c, true) by {
                        if c == cell {
                            assert(flag(old_visited, top));
                            assert(before.reaches(start_cell(), top, true));
                            let p = choose|p: Seq<Cell>| #[trigger] before.walk_between(p, start_cell(), top, true);
                            lemma_walk_opens_into(before, maze, p, true);
                            assert(maze.step(top, cell, true));
                            lemma_walk_push(maze, p, cell, true);
                            assert(maze.walk_between(p.push(cell), start_cell(), cell, true));
                        } else {
                            assert(flag(old_visited, c));
                            let p = choose|p: Seq<Cell>| #[trigger] before.walk_between(p, start_cell(), c, true);
                            lemma_walk_opens_into(before, maze, p, true);
                            assert(maze.walk_between(p, start_cell(), c, true));
                        }
                    }
                    assert forall|a: Cell, d: Direction|
                        in_grid(a) && flag(visited, a) && !stack@.contains(a) && #[trigger] neighbor_of(a, d) is Some
                        implies flag(visited, neighbor_of(a, d).unwrap()) by {
                        assert(stack@[stack@.len() - 1] == cell);
                        assert(a != cell);
                        assert(flag(old_visited, a));
                        assert(!old_stack.contains(a)) by {
                            if old_stack.contains(a) {
                                let k = choose|k: int| 0 <= k < old_stack.len() && old_stack[k] == a;
                                assert(stack@[k] == a);
                            }
                        }
                        let n = neighbor_of(a, d).unwrap();
                        assert(flag(old_visited, n));
                    }
                }
            },
            None => {
                let ghost old_stack = stack@;
                stack.pop();
                proof {
                    assert forall|d: Direction| #[trigger] neighbor_of(top, d) is Some implies flag(visited, neighbor_of(top, d).unwrap()) by {
                        assert(directions@.contains(d));
                        let j = choose|j: int| 0 <= j < directions@.len() && directions@[j] == d;
                        assert(match neighbor_of(top, directions@[j]) {
                            Some(n) => flag(visited, n),
                            None => true,
                        });
                    }
                    assert forall|a: Cell, d: Direction|
                        in_grid(a) && flag(visited, a) && !stack@.contains(a) && #[trigger] neighbor_of(a, d) is Some
                        implies flag(visited, neighbor_of(a, d).unwrap()) by {
                        if a != top {
                            if old_stack.contains(a) {
                                let k = choose|k: int| 0 <= k < old_stack.len() && old_stack[k] == a;
                                if k < old_stack.len() - 1 {
                                    assert(stack@[k] == a);
                                }
                            }
                        } else {
                            assert(flag(visited, neighbor_of(top, d).unwrap()));
                        }
                    }
                }
            },
        }
    }
    proof {
        assert forall|c: Cell| in_grid(c) implies #[trigger] maze.reaches(start_cell(), c, true) by {
            assert forall|a: Cell, d: Direction|
                in_grid(a) && flag(visited, a) && #[trigger] neighbor_of(a, d) is Some implies flag(
                    visited,
                    neighbor_of(a, d).unwrap(),
                ) by {
                assert(!stack@.contains(a));
            }
            lemma_closed_flags_cover_grid(visited, c);
        }
        let range = set_int_range(0, (MAZE_COLUMNS * MAZE_ROWS) as int);
        assert(seen =~= range) by {
            assert forall|i: int| range.contains(i) implies seen.contains(i) by {
                lemma_cell_at_flat(i);
                let c = cell_at(i);
                assert forall|a: Cell, d: Direction|
                    in_grid(a) && flag(visited, a) && #[trigger] neighbor_of(a, d) is Some implies flag(
                        visited,
                        neighbor_of(a, d).unwrap(),
                    ) by {
                    assert(!stack@.contains(a));
                }
                lemma_closed_flags_cover_grid(visited, c);
            }
        }
        vstd::set_lib::lemma_int_range(0, (MAZE_COLUMNS * MAZE_ROWS) as int);
    }
    maze
}

/// Every cell of a walk from a flagged cell is flagged, when flags spread
/// along every open edge out of every flagged cell other than `x`, and the
/// walk never enters `x`.
pub proof fn lemma_walk_stays_flagged(m: MazeMap, v: CellFlags, p: Seq<Cell>, x: Cell, k: int)
    requires
        m.is_walk(p, true),
        avoids(p, x),
        flag(v, p[0]),
        forall|a: Cell, b: Cell|
            flag(v, a) && a != x && #[trigger] m.step(a, b, true) ==> flag(v, b),
        0 <= k < p.len(),
    ensures
        flag(v, p[k]),
    decreases k,
{
    if k > 0 {
        lemma_walk_stays_flagged(m, v, p, x, k - 1);
        assert(m.link_at(p, k - 1, true));
        assert(p[k - 1] != x);
    }
}

/// Can the start cell be walked to from `from` without entering `exit`?
pub open spec fn reaches_start_without(maze: MazeMap, from: Cell, exit: Cell) -> bool {
    from == start_cell() || maze.reaches_avoiding(from, start_cell(), exit)
}

/// Depth-first search from `from` toward the start cell, through edges open
/// on both sides, never entering `exit`.
pub fn connects_to_start_without_exit(maze: &MazeMap, from: Cell, exit: Cell) -> (connects: bool)
    requires
        in_grid(from),
        in_grid(exit),
    ensures
        connects == reaches_start_without(*maze, from, exit),
{
    let ghost m = *maze;
    let mut visited: CellFlags = [[false; MAZE_COLUMNS]; MAZE_ROWS];
    let mut stack: Vec<Cell> = Vec::new();
    stack.push(from);
    visited[exit.1][exit.0] = true;
    let ghost mut seen: Set<int> = set![flat(exit)];
    proof {
        assert forall|c: Cell| in_grid(c) implies (#[trigger] flag(visited, c) <==> seen.contains(
            flat(c),
        )) by {
            if flat(c) == flat(exit) {
                lemma_flat_injective(c, exit);
            }
        }
        lemma_walk_single(m, from, true);
    }
    while stack.len() > 0
        invariant
            m == *maze,
            in_grid(from),
            in_grid(exit),
            flagged_set(visited, seen),
            flag(visited, exit),
            flag(visited, start_cell()) ==> start_cell() == exit,
            from == start_cell() ==> stack@ == seq![from],
            flag(visited, from) || stack@.contains(from),
            forall|i: int| 0 <= i < stack@.len() ==> in_grid(#[trigger] stack@[i]),
            forall|b: Cell|
                #[trigger] stack@.contains(b) ==> b == from || m.reaches_avoiding(from, b, exit),
            forall|a: Cell|
                in_grid(a) && #[trigger] flag(visited, a) && a != exit ==> m.reaches_avoiding(
                    from,
                    a,
                    exit,
                ),
            forall|a: Cell, b: Cell|
                in_grid(a) && flag(visited, a) && a != exit && #[trigger] m.step(a, b, true) ==> flag(
                    visited,
                    b,
                ) || stack@.contains(b),
        decreases
            set_int_range(0, (MAZE_COLUMNS * MAZE_ROWS) as int).difference(seen).len(),
            stack.len(),
    {
        let ghost before = stack@;
        let cell = stack.pop().unwrap();
        proof {
            assert(before.last() == cell);
            assert(before =~= stack@.push(cell));
            assert forall|b: Cell| #[trigger] before.contains(b) && b != cell implies stack@.contains(b) by {
                let k = choose|k: int| 0 <= k < before.len() && before[k] == b;
                assert(stack@[k] == b);
            }
            assert(before.contains(cell));
            assert forall|b: Cell| #[trigger] stack@.contains(b) implies before.contains(b) by {
                let k = choose|k: int| 0 <= k < stack@.len() && stack@[k] == b;
                assert(before[k] == b);
            }
        }
        if cell.0 == 0 && cell.1 == 0 {
            return true;
        }
        if visited[cell.1][cell.0] {
            proof {
                assert(flag(visited, cell));
            }
            continue;
        }
        proof {
            assert(in_grid(cell));
            assert(!flag(visited, cell));
            if cell == from {
                lemma_walk_single(m, from, true);
                assert(avoids(seq![from], exit));
            }
            assert(m.reaches_avoiding(from, cell, exit));
            lemma_flag_one_more(visited, seen, cell);
        }
        let ghost old_visited = visited;
        visited[cell.1][cell.0] = true;
        proof {
            seen = seen.insert(flat(cell));
            assert forall|c: Cell| in_grid(c) implies (#[trigger] flag(visited, c) <==> seen.contains(flat(c))) by {
                if flat(c) == flat(cell) {
                    lemma_flat_injective(c, cell);
                }
                assert(old_visited[c.1 as int][c.0 as int] == flag(old_visited, c));
            }
            assert forall|c: Cell| in_grid(c) && c != cell implies #[trigger] flag(visited, c) == flag(old_visited, c) by {
                assert(old_visited[c.1 as int][c.0 as int] == flag(old_visited, c));
            }
        }
        let ghost popped = stack@;
        let mut i: usize = 0;
        while i < 4
            invariant
                m == *maze,
                in_grid(cell),
                cell != exit,
                m.reaches_avoiding(from, cell, exit),
                flag(visited, cell),
                flag(visited, exit),
                0 <= i <= 4,
                forall|k: int| 0 <= k < stack@.len() ==> in_grid(#[trigger] stack@[k]),
                forall|b: Cell| #[trigger] popped.contains(b) ==> stack@.contains(b),
                forall|b: Cell|
                    #[trigger] stack@.contains(b) ==> b == from || m.reaches_avoiding(from, b, exit),
                forall|b: Cell|
                    #[trigger] m.step(cell, b, true) && step_direction(cell, b).unwrap().slot() < i
                        ==> flag(visited, b) || stack@.contains(b),
                stack@.len() >= popped.len(),
            decreases 4 - i,
        {
            let direction = if i == 0 {
                Direction::North
            } else if i == 1 {
                Direction::East
            } else if i == 2 {
                Direction::South
            } else {
                Direction::West
            };
            if !maze.has_wall(cell, direction) {
                if let Some(next) = neighbor_cell(cell, direction) {
                    proof {
                        lemma_neighbor_back(cell, direction);
                    }
                    if !maze.has_wall(next, direction.opposite()) && !visited[next.1][next.0] {
                        let ghost prior = stack@;
                        proof {
                            assert(m.step(cell, next, true));
                            assert(!flag(visited, next));
                            let p = choose|p: Seq<Cell>| #[trigger] m.walk_between(p, from, cell, true) && avoids(p, exit);
                            lemma_walk_push(m, p, next, true);
                            assert(m.walk_between(p.push(next), from, next, true));
                            assert(avoids(p.push(next), exit)) by {
                                assert forall|k: int| 0 <= k < p.push(next).len() implies #[trigger] p.push(next)[k] != exit by {
                                    if k < p.len() {
                                        assert(p.push(next)[k] == p[k]);
                                    }
                                }
                            }
                        }
                        stack.push(next);
                        proof {
                            assert(stack@ == prior.push(next));
                            assert forall|b: Cell| #[trigger] stack@.contains(b) implies b == from || m.reaches_avoiding(from, b, exit) by {
                                if b != next {
                                    let k = choose|k: int| 0 <= k < stack@.len() && stack@[k] == b;
                                    assert(prior[k] == b);
                                    assert(prior.contains(b));
                                }
                            }
                            assert forall|b: Cell| #[trigger] prior.contains(b) implies stack@.contains(b) by {
                                let k = choose|k: int| 0 <= k < prior.len() && prior[k] == b;
                                assert(stack@[k] == b);
                            }
                            assert(stack@[stack@.len() - 1] == next);
                        }
                    }
                }
            }
            proof {
                assert forall|b: Cell|
                    #[trigger] m.step(cell, b, true) && step_direction(cell, b).unwrap().slot() < i + 1
                        implies flag(visited, b) || stack@.contains(b) by {
                    lemma_step_direction(cell, b);
                }
            }
            i = i + 1;
        }
        proof {
            assert forall|a: Cell, b: Cell|
                in_grid(a) && flag(visited, a) && a != exit && #[trigger] m.step(a, b, true) implies flag(
                    visited,
                    b,
                ) || stack@.contains(b) by {
                if a != cell {
                    assert(flag(old_visited, a));
                    if before.contains(b) && b != cell {
                        assert(popped.contains(b));
                    }
                } else {
                    assert(step_direction(cell, b).unwrap().slot() < 4);
                }
            }
            if cell == from {
                assert(flag(visited, from));
            } else if !flag(visited, from) {
                assert(before.contains(from));
                assert(popped.contains(from));
            }
            assert forall|a: Cell|
                in_grid(a) && #[trigger] flag(visited, a) && a != exit implies m.reaches_avoiding(from, a, exit) by {
                if a != cell {
                    assert(flag(old_visited, a));
                }
            }
        }
    }
    proof {
        if reaches_start_without(m, from, exit) {
            if from != start_cell() {
                let p = choose|p: Seq<Cell>| #[trigger] m.walk_between(p, from, start_cell(), true) && avoids(p, exit);
                assert(p[0] != exit);
                assert(flag(visited, from));
                assert forall|a: Cell, b: Cell| flag(visited, a) && a != exit && #[trigger] m.step(a, b, true) implies flag(visited, b) by {
                    assert(in_grid(a));
                }
                lemma_walk_stays_flagged(m, visited, p, exit, p.len() - 1);
                assert(p[p.len() - 1] != exit);
            }
        }
    }
    false
}

/// The order in which the exit chamber's sides are examined.
pub open spec fn seal_dir(i: int) -> Direction {
    if i == 0 {
        Direction::South
    } else if i == 1 {
        Direction::West
    } else if i == 2 {
        Direction::North
    } else {
        Direction::East
    }
}

pub open spec fn side_if(m: MazeMap, c: Cell, d: Direction) -> Seq<Direction> {
    if m.opens(c, d) {
        seq![d]
    } else {
        seq![]
    }
}

/// The open sides of `c` among the first `i` in the order South, West, North, East.
pub open spec fn open_sides_upto(m: MazeMap, c: Cell, i: int) -> Seq<Direction>
    decreases i,
{
    if i <= 0 {
        seq![]
    } else {
        open_sides_upto(m, c, i - 1) + side_if(m, c, seal_dir(i - 1))
    }
}

/// The exit chamber's open sides, in the order South, West, North, East.
pub open spec fn exit_open_sides(m: MazeMap) -> Seq<Direction> {
    open_sides_upto(m, exit_cell(), 4)
}

/// From the cell beyond the exit's side `d`, the start can be reached without
/// passing through the exit.
pub open spec fn side_reaches_start(m: MazeMap, d: Direction) -> bool {
    reaches_start_without(m, neighbor_of(exit_cell(), d).unwrap(), exit_cell())
}

/// The first of the open exit sides `sides[k..]` whose neighbor reaches the
/// start without passing through the exit chamber.
pub open spec fn first_reaching(m: MazeMap, sides: Seq<Direction>, k: int) -> Option<Direction>
    decreases sides.len() - k,
{
    if k < 0 || k >= sides.len() {
        None
    } else if side_reaches_start(m, sides[k]) {
        Some(sides[k])
    } else {
        first_reaching(m, sides, k + 1)
    }
}

/// The exit side sealing keeps open: the first open side (South, West,
/// North, East) whose neighbor reaches the start without passing through the
/// chamber, or the first open side when none does; `None` when the chamber
/// has no open side.
pub open spec fn kept_side(m: MazeMap) -> Option<Direction> {
    let sides = exit_open_sides(m);
    match first_reaching(m, sides, 0) {
        Some(d) => Some(d),
        None => if sides.len() > 0 {
            Some(sides[0])
        } else {
            None
        },
    }
}

/// An open exit side that sealing closes: every one but the kept side.
pub open spec fn sealed_side(m: MazeMap, d: Direction) -> bool {
    exit_open_sides(m).contains(d) && kept_side(m) != Some(d)
}

/// Sealing closes both sides of every open exit edge but the kept one.
pub open spec fn closed_by_seal(m: MazeMap, c: Cell, d: Direction) -> bool {
    ||| (c == exit_cell() && sealed_side(m, d))
    ||| (sealed_side(m, d.reverse()) && neighbor_of(exit_cell(), d.reverse()) == Some(c))
}

pub(crate) proof fn lemma_first_reaching(m: MazeMap, sides: Seq<Direction>, k: int)
    requires
        0 <= k,
    ensures
        first_reaching(m, sides, k) matches Some(d) ==> side_reaches_start(m, d) && exists|q: int| k <= q < sides.len() && sides[q] == d,
        first_reaching(m, sides, k) is None ==> forall|q: int| k <= q < sides.len() ==> !side_reaches_start(m, #[trigger] sides[q]),
    decreases sides.len() - k,
{
    if k < sides.len() && !side_reaches_start(m, sides[k]) {
        lemma_first_reaching(m, sides, k + 1);
    }
}

/// `after` is `before` with the extra exit passages sealed: a wall stands
/// where one stood before or where sealing closes one.
pub open spec fn sealed_walls(before: MazeMap, after: MazeMap) -> bool {
    forall|c: Cell, d: Direction|
        in_grid(c) ==> #[trigger] after.wall(c, d) == (before.wall(c, d) || closed_by_seal(before, c, d))
}

fn seal_order(i: usize) -> (d: Direction)
    ensures
        d == seal_dir(i as int),
{
    if i == 0 {
        Direction::South
    } else if i == 1 {
        Direction::West
    } else if i == 2 {
        Direction::North
    } else {
        Direction::East
    }
}

pub proof fn lemma_open_sides_facts(m: MazeMap, c: Cell, i: int)
    requires
        0 <= i <= 4,
    ensures
        forall|k: int| 0 <= k < open_sides_upto(m, c, i).len() ==> m.opens(c, #[trigger] open_sides_upto(m, c, i)[k]),
        forall|k: int, j: int|
            0 <= k < j < open_sides_upto(m, c, i).len() ==> #[trigger] open_sides_upto(m, c, i)[k] != #[trigger] open_sides_upto(m, c, i)[j],
        forall|d: Direction| #[trigger] open_sides_upto(m, c, i).contains(d) <==> (m.opens(c, d) && exists|k: int| 0 <= k < i && seal_dir(k) == d),
    decreases i,
{
    if i > 0 {
        lemma_open_sides_facts(m, c, i - 1);
        let s = open_sides_upto(m, c, i);
        let p = open_sides_upto(m, c, i - 1);
        assert forall|d: Direction| #[trigger] s.contains(d) <==> (m.opens(c, d) && exists|k: int| 0 <= k < i && seal_dir(k) == d) by {
            if s.contains(d) {
                let k = choose|k: int| 0 <= k < s.len() && s[k] == d;
                if k < p.len() {
                    assert(p[k] == d);
                    assert(p.contains(d));
                }
            }
            if m.opens(c, d) && exists|k: int| 0 <= k < i && seal_dir(k) == d {
                let k = choose|k: int| 0 <= k < i && seal_dir(k) == d;
                if k < i - 1 {
                    assert(p.contains(d));
                    let j = choose|j: int| 0 <= j < p.len() && p[j] == d;
                    assert(s[j] == d);
                } else {
                    assert(s[s.len() - 1] == d);
                }
            }
        }
        assert forall|k: int, j: int|
            0 <= k < j < s.len() implies #[trigger] s[k] != #[trigger] s[j] by {
            if j == p.len() {
                assert(s[k] == p[k]);
                assert(p.contains(p[k]));
                let kk = choose|kk: int| 0 <= kk < i - 1 && seal_dir(kk) == p[k];
            }
        }
    }
}

/// Closes every open passage out of the exit chamber but one, so that the
/// chamber is entered through one locked door: the kept side is the first
/// open side, in the order South, West, North, East, whose neighbor reaches
/// the start without passing through the chamber (the first open side when
/// none does). Returns the kept side, or `None` when the chamber has no open
/// side.
#[verifier::rlimit(40)]
pub fn seal_extra_exit_passages(maze: &mut MazeMap) -> (kept: Option<Direction>)
    ensures
        kept == kept_side(*old(maze)),
        kept is None <==> exit_open_sides(*old(maze)).len() == 0,
        forall|c: Cell, d: Direction|
            in_grid(c) ==> #[trigger] final(maze).wall(c, d) == (old(maze).wall(c, d) || closed_by_seal(*old(maze), c, d)),
        forall|d: Direction| #[trigger] final(maze).opens(exit_cell(), d) <==> kept == Some(d),
        old(maze).consistent() ==> final(maze).consistent(),
{
    let ghost m = *maze;
    let exit: Cell = (MAZE_COLUMNS - 1, MAZE_ROWS - 1);
    let mut open_edges: Vec<(Direction, Cell)> = Vec::new();
    let mut i: usize = 0;
    while i < 4
        invariant
            *maze == m,
            0 <= i <= 4,
            exit == exit_cell(),
            open_edges@.len() == open_sides_upto(m, exit, i as int).len(),
            forall|k: int| 0 <= k < open_edges@.len() ==> {
                &&& (#[trigger] open_edges@[k]).0 == open_sides_upto(m, exit, i as int)[k]
                &&& neighbor_of(exit, open_edges@[k].0) == Some(open_edges@[k].1)
            },
        decreases 4 - i,
    {
        let direction = seal_order(i);
        let ghost prev = open_edges@;
        if !maze.has_wall(exit, direction) {
            if let Some(next) = neighbor_cell(exit, direction) {
                open_edges.push((direction, next));
            }
        }
        proof {
            assert(open_sides_upto(m, exit, i + 1) == open_sides_upto(m, exit, i as int) + side_if(m, exit, seal_dir(i as int)));
            assert forall|k: int| 0 <= k < open_edges@.len() implies {
                &&& (#[trigger] open_edges@[k]).0 == open_sides_upto(m, exit, i + 1)[k]
                &&& neighbor_of(exit, open_edges@[k].0) == Some(open_edges@[k].1)
            } by {
                if k < prev.len() {
                    assert(open_edges@[k] == prev[k]);
                }
            }
        }
        i = i + 1;
    }
    let ghost sides = exit_open_sides(m);
    proof {
        lemma_open_sides_facts(m, exit, 4);
    }
    if open_edges.len() == 0 {
        proof {
            assert(first_reaching(m, sides, 0) is None);
            assert forall|d: Direction| !#[trigger] maze.opens(exit_cell(), d) by {
                if maze.opens(exit_cell(), d) {
                    let k: int = match d {
                        Direction::South => 0,
                        Direction::West => 1,
                        Direction::North => 2,
                        Direction::East => 3,
                    };
                    assert(seal_dir(k) == d);
                    assert(sides.contains(d));
                }
            }
        }
        return None;
    }

    let mut keep: Option<Direction> = None;
    let mut j: usize = 0;
    while j < open_edges.len() && keep.is_none()
        invariant
            *maze == m,
            exit == exit_cell(),
            sides == exit_open_sides(m),
            open_edges@.len() == sides.len(),
            forall|k: int| 0 <= k < open_edges@.len() ==> {
                &&& (#[trigger] open_edges@[k]).0 == sides[k]
                &&& neighbor_of(exit, open_edges@[k].0) == Some(open_edges@[k].1)
            },
            0 <= j <= open_edges@.len(),
            keep is None ==> first_reaching(m, sides, 0) == first_reaching(m, sides, j as int),
            keep is Some ==> first_reaching(m, sides, 0) == keep,
        decreases open_edges@.len() - j,
    {
        let (direction, next) = open_edges[j];
        proof {
            lemma_neighbor_back(exit, direction);
        }
        if connects_to_start_without_exit(maze, next, exit) {
            keep = Some(direction);
        }
        j = j + 1;
    }
    let kept = match keep {
        Some(d) => d,
        None => open_edges[0].0,
    };
    proof {
        assert(kept_side(m) == Some(kept));
        lemma_first_reaching(m, sides, 0);
        assert(sides.contains(kept)) by {
            if keep is None {
                assert(sides[0] == kept);
            }
        }
    }

    let mut k: usize = 0;
    while k < open_edges.len()
        invariant
            exit == exit_cell(),
            sides == exit_open_sides(m),
            kept_side(m) == Some(kept),
            open_edges@.len() == sides.len(),
            forall|q: int| 0 <= q < open_edges@.len() ==> {
                &&& (#[trigger] open_edges@[q]).0 == sides[q]
                &&& neighbor_of(exit, open_edges@[q].0) == Some(open_edges@[q].1)
            },
            0 <= k <= open_edges@.len(),
            forall|c: Cell, d: Direction|
                in_grid(c) ==> #[trigger] maze.wall(c, d) == (m.wall(c, d) || {
                    let rest = sides.subrange(0, k as int);
                    ||| (c == exit_cell() && rest.contains(d) && d != kept)
                    ||| (rest.contains(d.reverse()) && d.reverse() != kept && neighbor_of(exit_cell(), d.reverse()) == Some(c))
                }),
        decreases open_edges@.len() - k,
    {
        let (direction, next) = open_edges[k];
        proof {
            lemma_neighbor_back(exit, direction);
        }
        let ghost m0 = *maze;
        if direction != kept {
            maze.set_wall(exit, direction, true);
            maze.set_wall(next, direction.opposite(), true);
        }
        proof {
            let old_rest = sides.subrange(0, k as int);
            let rest = sides.subrange(0, k + 1);
            assert(rest == old_rest.push(direction));
            assert forall|e: Direction| #[trigger] rest.contains(e) <==> (old_rest.contains(e) || e == direction) by {
                if rest.contains(e) {
                    let q = choose|q: int| 0 <= q < rest.len() && rest[q] == e;
                    if q < old_rest.len() {
                        assert(old_rest[q] == e);
                    }
                }
                if old_rest.contains(e) {
                    let q = choose|q: int| 0 <= q < old_rest.len() && old_rest[q] == e;
                    assert(rest[q] == e);
                }
                if e == direction {
                    assert(rest[rest.len() - 1] == e);
                }
            }
            assert forall|c: Cell, d: Direction|
                in_grid(c) implies #[trigger] maze.wall(c, d) == (m.wall(c, d) || {
                    ||| (c == exit_cell() && rest.contains(d) && d != kept)
                    ||| (rest.contains(d.reverse()) && d.reverse() != kept && neighbor_of(exit_cell(), d.reverse()) == Some(c))
                }) by {
                assert(m0.wall(c, d) == m0.wall(c, d));
                assert(rest.contains(d) <==> (old_rest.contains(d) || d == direction));
                assert(rest.contains(d.reverse()) <==> (old_rest.contains(d.reverse()) || d.reverse() == direction));
                if c == next && d == direction.reverse() {
                    assert(neighbor_of(exit_cell(), d.reverse()) == Some(c));
                }
            }
        }
        k = k + 1;
    }
    proof {
        assert(sides.subrange(0, sides.len() as int) == sides);
        assert forall|c: Cell, d: Direction|
            in_grid(c) implies #[trigger] maze.wall(c, d) == (m.wall(c, d) || closed_by_seal(m, c, d)) by {
            assert(maze.wall(c, d) == maze.wall(c, d));
        }
        assert forall|d: Direction| #[trigger] maze.opens(exit_cell(), d) <==> Some(kept) == Some(d) by {
            let kd: int = match d {
                Direction::South => 0,
                Direction::West => 1,
                Direction::North => 2,
                Direction::East => 3,
            };
            assert(seal_dir(kd) == d);
            assert(maze.wall(exit_cell(), d) == (m.wall(exit_cell(), d) || closed_by_seal(m, exit_cell(), d)));
            if neighbor_of(exit_cell(), d.reverse()) == Some(exit_cell()) {
                assert(false);
            }
            if d == kept {
                assert(sides.contains(d));
            }
        }
        if m.consistent() {
            assert forall|c: Cell, d: Direction|
                in_grid(c) implies match neighbor_of(c, d) {
                    Some(n) => #[trigger] maze.wall(c, d) == maze.wall(n, d.reverse()),
                    None => maze.wall(c, d),
                } by {
                assert(m.wall(c, d) == m.wall(c, d));
                assert(maze.wall(c, d) == (m.wall(c, d) || closed_by_seal(m, c, d)));
                if neighbor_of(c, d) is Some {
                    let n = neighbor_of(c, d).unwrap();
                    lemma_neighbor_back(c, d);
                    assert(d.reverse().reverse() == d);
                    assert(maze.wall(n, d.reverse()) == (m.wall(n, d.reverse()) || closed_by_seal(m, n, d.reverse())));
                    if c != exit_cell() && neighbor_of(exit_cell(), d.reverse()) == Some(c) {
                        lemma_neighbor_back(exit_cell(), d.reverse());
                    }
                    if n == exit_cell() {
                        lemma_neighbor_back(c, d);
                    }
                }
            }
        }
    }
    Some(kept)
}


/// A walk through edges open on both sides can be walked backwards.
pub(crate) proof fn lemma_walk_reverse(m: MazeMap, p: Seq<Cell>)
    requires
        m.is_walk(p, true),
    ensures
        m.is_walk(p.reverse(), true),
        p.reverse()[0] == p.last(),
        p.reverse().last() == p[0],
{
    let r = p.reverse();
    assert forall|i: int| 0 <= i < r.len() implies in_grid(#[trigger] r[i]) by {
        assert(r[i] == p[p.len() - 1 - i]);
    }
    assert forall|i: int| 0 <= i < r.len() - 1 implies #[trigger] m.link_at(r, i, true) by {
        let k = p.len() - 2 - i;
        assert(r[i] == p[k + 1] && r[i + 1] == p[k]);
        assert(m.link_at(p, k, true));
        lemma_step_direction(p[k], p[k + 1]);
        assert(step_direction(p[k], p[k + 1]).unwrap().reverse().reverse() == step_direction(p[k], p[k + 1]).unwrap());
    }
}

/// A walk that never enters the exit chamber is not touched by the sealing.
pub(crate) proof fn lemma_walk_survives_seal(before: MazeMap, after: MazeMap, p: Seq<Cell>)
    requires
        sealed_walls(before, after),
        before.is_walk(p, true),
        avoids(p, exit_cell()),
    ensures
        after.is_walk(p, true),
{
    assert forall|i: int| 0 <= i < p.len() - 1 implies #[trigger] after.link_at(p, i, true) by {
        assert(before.link_at(p, i, true));
        let a = p[i];
        let b = p[i + 1];
        let d = step_direction(a, b).unwrap();
        lemma_step_direction(a, b);
        assert(a != exit_cell() && b != exit_cell());
        assert(after.wall(a, d) == (before.wall(a, d) || closed_by_seal(before, a, d)));
        assert(after.wall(b, d.reverse()) == (before.wall(b, d.reverse()) || closed_by_seal(before, b, d.reverse())));
        if neighbor_of(exit_cell(), d.reverse()) == Some(a) {
            lemma_neighbor_back(exit_cell(), d.reverse());
            assert(d.reverse().reverse() == d);
        }
        if neighbor_of(exit_cell(), d.reverse().reverse()) == Some(b) {
            lemma_neighbor_back(exit_cell(), d);
            lemma_neighbor_back(a, d);
        }
    }
}

/// The first cell of a walk at `x`, given one at position `n`.
proof fn lemma_first_hit(p: Seq<Cell>, x: Cell, n: int) -> (i: int)
    requires
        0 < n < p.len(),
        p[n] == x,
        p[0] != x,
    ensures
        1 <= i <= n,
        p[i] == x,
        forall|j: int| 0 <= j < i ==> p[j] != x,
    decreases n,
{
    if exists|j: int| 0 <= j < n && p[j] == x {
        let j = choose|j: int| 0 <= j < n && p[j] == x;
        lemma_first_hit(p, x, j)
    } else {
        n
    }
}

/// In a connected maze some open side of the exit chamber leads back to the
/// start without passing through the chamber.
pub(crate) proof fn lemma_some_side_reaches(m: MazeMap)
    requires
        m.connected(),
    ensures
        first_reaching(m, exit_open_sides(m), 0) is Some,
{
    let x = exit_cell();
    assert(in_grid(x));
    assert(m.reaches(start_cell(), x, true));
    let p = choose|p: Seq<Cell>| #[trigger] m.walk_between(p, start_cell(), x, true);
    assert(p.len() >= 2) by {
        if p.len() == 1 {
            assert(p[0] == p.last());
        }
    }
    let i = lemma_first_hit(p, x, p.len() - 1);
    let a = p[i - 1];
    assert(m.link_at(p, i - 1, true));
    lemma_step_direction(a, x);
    let d = step_direction(x, a).unwrap();
    lemma_step_direction(x, a);
    assert(step_direction(a, x).unwrap().reverse() == d);
    assert(m.opens(x, d));
    assert(neighbor_of(x, d) == Some(a));
    let q = p.subrange(0, i);
    assert(m.is_walk(q, true)) by {
        assert forall|k: int| 0 <= k < q.len() implies in_grid(#[trigger] q[k]) by {
            assert(q[k] == p[k]);
        }
        assert forall|k: int| 0 <= k < q.len() - 1 implies #[trigger] m.link_at(q, k, true) by {
            assert(m.link_at(p, k, true));
        }
    }
    lemma_walk_reverse(m, q);
    let r = q.reverse();
    assert(m.walk_between(r, a, start_cell(), true));
    assert(avoids(r, x)) by {
        assert forall|k: int| 0 <= k < r.len() implies #[trigger] r[k] != x by {
            assert(r[k] == q[q.len() - 1 - k]);
        }
    }
    assert(side_reaches_start(m, d));
    lemma_open_sides_facts(m, x, 4);
    let kd: int = match d {
        Direction::South => 0,
        Direction::West => 1,
        Direction::North => 2,
        Direction::East => 3,
    };
    assert(seal_dir(kd) == d);
    let sides = exit_open_sides(m);
    assert(sides.contains(d));
    let qd = choose|qd: int| 0 <= qd < sides.len() && sides[qd] == d;
    lemma_first_reaching(m, sides, 0);
}

} // verus!
