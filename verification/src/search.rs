//! Searches through the maze: breadth-first layers, routes, and the next
//! step toward a goal.
use vstd::prelude::*;
use std::collections::VecDeque;
use crate::maze::{
    Cell, MazeMap, MAZE_COLUMNS, MAZE_ROWS, flat, in_grid, lemma_flat_injective,
    lemma_open_neighbor_list, lemma_walk_push, lemma_walk_single, step_direction, Direction,
    direction_at, direction_from_index, neighbor_cell, neighbor_of, lemma_neighbor_back, open_neighbor_list,
    open_neighbors, side_cell, lemma_step_direction,
};
use crate::generate::{CellFlags, flag, flagged_set, lemma_flag_one_more};
use vstd::set_lib::set_int_range;
use crate::layout::{cell_at, lemma_cell_at};

verus! {

/// No cell of `p` after the first is `x`.
pub open spec fn clear_of(p: Seq<Cell>, x: Option<Cell>) -> bool {
    forall|i: int| 1 <= i < p.len() ==> Some(#[trigger] p[i]) != x
}

/// A walk of at most `j` steps through open sides leads from `s` to `c`
/// without stepping into `x`.
pub open spec fn within(m: MazeMap, s: Cell, c: Cell, j: int, x: Option<Cell>) -> bool {
    exists|p: Seq<Cell>| #[trigger] m.walk_between(p, s, c, false) && p.len() <= j + 1 && clear_of(p, x)
}

/// `c` is exactly `j` steps from `s`: within `j` steps, and not within fewer.
pub open spec fn at_distance(m: MazeMap, s: Cell, c: Cell, j: int, x: Option<Cell>) -> bool {
    within(m, s, c, j, x) && forall|i: int| 0 <= i < j ==> !#[trigger] within(m, s, c, i, x)
}

pub open spec fn reached(v: CellFlags, x: Option<Cell>, s: Cell, c: Cell) -> bool {
    in_grid(c) && flag(v, c) && (Some(c) != x || c == s)
}

pub open spec fn holds_cell(q: Seq<(Cell, u32)>, c: Cell) -> bool {
    exists|k: int| 0 <= k < q.len() && (#[trigger] q[k]).0 == c
}

/// Breadth-first cover: when every reached cell shallower than `lo - 1`
/// passes tracking on along each of its steps, every cell within `j < lo`
/// steps is reached, no deeper than `j`.
pub proof fn lemma_bfs_cover(
    m: MazeMap,
    s: Cell,
    x: Option<Cell>,
    v: CellFlags,
    depth: Map<Cell, int>,
    limit: int,
    lo: int,
    c: Cell,
    j: int,
)
    requires
        reached(v, x, s, s),
        depth[s] == 0,
        forall|a: Cell, b: Cell|
            reached(v, x, s, a) && depth[a] < lo - 1 && depth[a] < limit && #[trigger] m.step(a, b, false)
                && Some(b) != x ==> reached(v, x, s, b) && depth[b] <= depth[a] + 1,
        0 <= j < lo,
        j <= limit,
        within(m, s, c, j, x),
    ensures
        reached(v, x, s, c),
        depth[c] <= j,
    decreases j,
{
    let p = choose|p: Seq<Cell>| #[trigger] m.walk_between(p, s, c, false) && p.len() <= j + 1 && clear_of(p, x);
    if p.len() == 1 {
        assert(c == s);
    } else {
        let q = p.drop_last();
        let pr = q.last();
        assert(m.link_at(p, p.len() - 2, false));
        assert(m.is_walk(q, false)) by {
            assert forall|i: int| 0 <= i < q.len() - 1 implies #[trigger] m.link_at(q, i, false) by {
                assert(m.link_at(p, i, false));
            }
        }
        assert(m.walk_between(q, s, pr, false));
        assert(clear_of(q, x));
        assert(within(m, s, pr, j - 1, x));
        lemma_bfs_cover(m, s, x, v, depth, limit, lo, pr, j - 1);
        assert(Some(p[p.len() - 1]) != x);
    }
}

/// A walk one step longer reaches one step further.
pub proof fn lemma_within_step(m: MazeMap, s: Cell, a: Cell, b: Cell, j: int, x: Option<Cell>)
    requires
        within(m, s, a, j, x),
        m.step(a, b, false),
        Some(b) != x,
    ensures
        within(m, s, b, j + 1, x),
{
    let p = choose|p: Seq<Cell>| #[trigger] m.walk_between(p, s, a, false) && p.len() <= j + 1 && clear_of(p, x);
    lemma_walk_push(m, p, b, false);
    assert(m.walk_between(p.push(b), s, b, false));
    assert(clear_of(p.push(b), x)) by {
        assert forall|i: int| 1 <= i < p.push(b).len() implies Some(#[trigger] p.push(b)[i]) != x by {
            if i < p.len() {
                assert(p.push(b)[i] == p[i]);
            }
        }
    }
}

/// Two cells a step apart are a step apart in the other direction too, one
/// walk can only be as short as the shortest.
pub proof fn lemma_at_distance_unique(m: MazeMap, s: Cell, c: Cell, j1: int, j2: int, x: Option<Cell>)
    requires
        at_distance(m, s, c, j1, x),
        at_distance(m, s, c, j2, x),
    ensures
        j1 == j2,
{
    if j1 < j2 {
        assert(!within(m, s, c, j1, x));
    } else if j2 < j1 {
        assert(!within(m, s, c, j2, x));
    }
}

/// The number of steps from `s` to `c` (never stepping into `x`), when it is
/// at most `limit`.
pub open spec fn dist_within(m: MazeMap, s: Cell, c: Cell, limit: int, x: Option<Cell>) -> Option<int> {
    if exists|j: int| 0 <= j <= limit && #[trigger] at_distance(m, s, c, j, x) {
        Some(choose|j: int| 0 <= j <= limit && #[trigger] at_distance(m, s, c, j, x))
    } else {
        None
    }
}

pub type DepthGrid = [[Option<u32>; MAZE_COLUMNS]; MAZE_ROWS];

pub type PreviousGrid = [[Option<Cell>; MAZE_COLUMNS]; MAZE_ROWS];

/// The outcome of a breadth-first search: each cell's distance, and the
/// cell it was first reached from.
pub struct Layers {
    pub depth: DepthGrid,
    pub previous: PreviousGrid,
}

pub open spec fn depth_at(l: Layers, c: Cell) -> Option<u32> {
    l.depth[c.1 as int][c.0 as int]
}

pub open spec fn previous_at(l: Layers, c: Cell) -> Option<Cell> {
    l.previous[c.1 as int][c.0 as int]
}

/// What a breadth-first search from `s` up to `limit` steps, never stepping
/// into `x`, tells of the maze.
pub open spec fn layers_of(m: MazeMap, s: Cell, x: Option<Cell>, limit: int, l: Layers) -> bool {
    &&& forall|c: Cell| in_grid(c) ==> (#[trigger] depth_at(l, c) is Some <==> dist_within(m, s, c, limit, x) is Some)
    &&& forall|c: Cell| in_grid(c) && #[trigger] depth_at(l, c) is Some ==> dist_within(m, s, c, limit, x) == Some(depth_at(l, c).unwrap() as int)
    &&& forall|c: Cell|
        in_grid(c) && #[trigger] depth_at(l, c) is Some && c != s ==> (previous_at(l, c) matches Some(p) && in_grid(p)
            && m.step(p, c, false) && depth_at(l, p) == Some((depth_at(l, c).unwrap() - 1) as u32))
}

/// The open-neighbor list takes the directions in compass order, each once.
proof fn lemma_open_neighbor_turns(m: MazeMap, c: Cell)
    requires
        in_grid(c),
    ensures
        forall|j: int, i: int|
            0 <= j < i < open_neighbor_list(m, c).len() ==> turn(c, #[trigger] open_neighbor_list(m, c)[j]) < turn(
                c,
                #[trigger] open_neighbor_list(m, c)[i],
            ),
{
    let l = open_neighbor_list(m, c);
    let a = side_cell(m, c, Direction::North);
    let b = side_cell(m, c, Direction::East);
    let e = side_cell(m, c, Direction::South);
    let w = side_cell(m, c, Direction::West);
    assert(l == a + b + e + w);
    if neighbor_of(c, Direction::North) is Some {
        lemma_neighbor_back(c, Direction::North);
    }
    if neighbor_of(c, Direction::East) is Some {
        lemma_neighbor_back(c, Direction::East);
    }
    if neighbor_of(c, Direction::South) is Some {
        lemma_neighbor_back(c, Direction::South);
    }
    if neighbor_of(c, Direction::West) is Some {
        lemma_neighbor_back(c, Direction::West);
    }
    assert forall|k: int| 0 <= k < l.len() implies turn(c, #[trigger] l[k]) == (if k < a.len() {
        0int
    } else if k < a.len() + b.len() {
        1int
    } else if k < a.len() + b.len() + e.len() {
        2int
    } else {
        3int
    }) by {
        if k < a.len() {
            assert(l[k] == a[k]);
        } else if k < a.len() + b.len() {
            assert(l[k] == b[k - a.len()]);
        } else if k < a.len() + b.len() + e.len() {
            assert(l[k] == e[k - a.len() - b.len()]);
        } else {
            assert(l[k] == w[k - a.len() - b.len() - e.len()]);
        }
    }
}

/// The cell a reached cell was first reached from.
spec fn prev_of(previous: PreviousGrid, c: Cell) -> Cell {
    previous[c.1 as int][c.0 as int].unwrap()
}

/// `x` comes before `y` in the search: nearer, or as near with a route
/// that comes first in compass order.
spec fn earlier(depth: Map<Cell, int>, tree: Map<Cell, Seq<Cell>>, x: Cell, y: Cell) -> bool {
    depth[x] < depth[y] || (depth[x] == depth[y] && turns_before(tree[x], tree[y]))
}

/// The routes kept during the search are the routes along first-reached-from links.
proof fn lemma_tree_is_tree_route(
    l: Layers,
    v: CellFlags,
    x: Option<Cell>,
    s: Cell,
    depth: Map<Cell, int>,
    tree: Map<Cell, Seq<Cell>>,
    c: Cell,
    n: nat,
)
    requires
        reached(v, x, s, c),
        depth[c] == n,
        depth[s] == 0,
        linked(v, x, s, l.previous, depth),
        forall|c: Cell| #[trigger] reached(v, x, s, c) ==> {
            &&& (c == s ==> tree[c] == seq![s])
            &&& (c != s ==> tree[c] == tree[prev_of(l.previous, c)].push(c))
            &&& 0 <= depth[c]
        },
    ensures
        tree[c] == tree_route(l, c, n),
    decreases n,
{
    if c == s {
        assert(n == 0);
    } else {
        let p = prev_of(l.previous, c);
        assert(reached(v, x, s, p));
        assert(n >= 1);
        lemma_tree_is_tree_route(l, v, x, s, depth, tree, p, (n - 1) as nat);
        assert(previous_at(l, c) == Some(p));
    }
}

/// Each reached cell's route along first-reached-from links, one cell
/// longer than its distance, ending at the cell.
#[verifier::opaque]
spec fn tree_links(
    source: Cell,
    blocked: Option<Cell>,
    visited: CellFlags,
    previous: PreviousGrid,
    depth: Map<Cell, int>,
    tree: Map<Cell, Seq<Cell>>,
) -> bool {
    forall|c: Cell| #[trigger] reached(visited, blocked, source, c) ==> {
        &&& (c == source ==> tree[c] == seq![source])
        &&& (c != source ==> tree[c] == tree[prev_of(previous, c)].push(c))
        &&& tree[c].len() == depth[c] + 1
        &&& tree[c].last() == c
    }
}

/// The cells taken out and the cells waiting are each in search order,
/// the taken before the waiting; none taken is further than `cur`; and the
/// cells waiting one step further were reached from cells already taken.
#[verifier::opaque]
spec fn in_search_order(
    previous: PreviousGrid,
    depth: Map<Cell, int>,
    tree: Map<Cell, Seq<Cell>>,
    order: Seq<(Cell, u32)>,
    queue: Seq<(Cell, u32)>,
    cur: int,
) -> bool {
    &&& forall|k: int, l: int| 0 <= k < l < order.len() ==> earlier(depth, tree, (#[trigger] order[k]).0, (#[trigger] order[l]).0)
    &&& forall|k: int, l: int| 0 <= k < l < queue.len() ==> earlier(depth, tree, (#[trigger] queue[k]).0, (#[trigger] queue[l]).0)
    &&& forall|k: int, l: int|
        0 <= k < order.len() && 0 <= l < queue.len() ==> earlier(depth, tree, (#[trigger] order[k]).0, (#[trigger] queue[l]).0)
    &&& forall|k: int| 0 <= k < order.len() ==> (#[trigger] order[k]).1 <= cur
    &&& forall|k: int| 0 <= k < queue.len() && (#[trigger] queue[k]).1 == cur + 1 ==> holds_cell(order, prev_of(previous, queue[k].0))
}

/// Every reached cell was first reached from the neighbor one step nearer
/// whose route comes first in compass order.
#[verifier::opaque]
spec fn parents_turn_first(
    m: MazeMap,
    source: Cell,
    blocked: Option<Cell>,
    visited: CellFlags,
    previous: PreviousGrid,
    depth: Map<Cell, int>,
    tree: Map<Cell, Seq<Cell>>,
) -> bool {
    forall|c: Cell, q: Cell|
        #[trigger] reached(visited, blocked, source, c) && c != source && #[trigger] reached(visited, blocked, source, q)
            && depth[q] + 1 == depth[c] && m.step(q, c, false) && q != prev_of(previous, c) ==> turns_before(
            tree[prev_of(previous, c)],
            tree[q],
        )
}

/// What the search keeps about the order it goes in.
spec fn search_order(
    m: MazeMap,
    source: Cell,
    blocked: Option<Cell>,
    visited: CellFlags,
    previous: PreviousGrid,
    depth: Map<Cell, int>,
    tree: Map<Cell, Seq<Cell>>,
    order: Seq<(Cell, u32)>,
    queue: Seq<(Cell, u32)>,
    cur: int,
) -> bool {
    &&& tree_links(source, blocked, visited, previous, depth, tree)
    &&& in_search_order(previous, depth, tree, order, queue, cur)
    &&& parents_turn_first(m, source, blocked, visited, previous, depth, tree)
}

proof fn lemma_order_start(
    m: MazeMap,
    source: Cell,
    blocked: Option<Cell>,
    visited: CellFlags,
    previous: PreviousGrid,
    depth: Map<Cell, int>,
    tree: Map<Cell, Seq<Cell>>,
    queue: Seq<(Cell, u32)>,
)
    requires
        forall|c: Cell| #[trigger] reached(visited, blocked, source, c) ==> c == source,
        depth[source] == 0,
        tree[source] == seq![source],
        queue == seq![(source, 0u32)],
    ensures
        search_order(m, source, blocked, visited, previous, depth, tree, Seq::empty(), queue, 0),
{
    reveal(tree_links);
    reveal(in_search_order);
    reveal(parents_turn_first);
}

proof fn lemma_order_pop(
    previous: PreviousGrid,
    depth: Map<Cell, int>,
    tree: Map<Cell, Seq<Cell>>,
    order: Seq<(Cell, u32)>,
    queue: Seq<(Cell, u32)>,
    cur: int,
)
    requires
        in_search_order(previous, depth, tree, order, queue, cur),
        queue.len() > 0,
        forall|k: int| 0 <= k < queue.len() ==> cur <= (#[trigger] queue[k]).1 <= cur + 1,
        forall|k: int, l: int| 0 <= k < l < queue.len() ==> (#[trigger] queue[k]).1 <= (#[trigger] queue[l]).1,
    ensures
        in_search_order(
            previous,
            depth,
            tree,
            order.push(queue[0]),
            queue.subrange(1, queue.len() as int),
            queue[0].1 as int,
        ),
{
    reveal(in_search_order);
    let o2 = order.push(queue[0]);
    let q2 = queue.subrange(1, queue.len() as int);
    let d = queue[0].1 as int;
    assert forall|k: int, l: int| 0 <= k < l < o2.len() implies earlier(depth, tree, (#[trigger] o2[k]).0, (#[trigger] o2[l]).0) by {
        assert(o2[k] == order[k]);
        if l < order.len() {
            assert(o2[l] == order[l]);
        } else {
            assert(o2[l] == queue[0]);
        }
    }
    assert forall|k: int, l: int| 0 <= k < l < q2.len() implies earlier(depth, tree, (#[trigger] q2[k]).0, (#[trigger] q2[l]).0) by {
        assert(q2[k] == queue[k + 1] && q2[l] == queue[l + 1]);
    }
    assert forall|k: int, l: int|
        0 <= k < o2.len() && 0 <= l < q2.len() implies earlier(depth, tree, (#[trigger] o2[k]).0, (#[trigger] q2[l]).0) by {
        assert(q2[l] == queue[l + 1]);
        if k < order.len() {
            assert(o2[k] == order[k]);
        } else {
            assert(o2[k] == queue[0]);
        }
    }
    assert forall|k: int| 0 <= k < o2.len() implies (#[trigger] o2[k]).1 <= d by {
        if k < order.len() {
            assert(o2[k] == order[k]);
        }
    }
    assert forall|k: int| 0 <= k < q2.len() && (#[trigger] q2[k]).1 == d + 1 implies holds_cell(o2, prev_of(previous, q2[k].0)) by {
        assert(q2[k] == queue[k + 1]);
        assert(queue[0].1 <= queue[k + 1].1);
        assert(cur <= queue[0].1);
        assert(queue[k + 1].1 <= cur + 1);
        assert(d == cur);
        assert(holds_cell(order, prev_of(previous, queue[k + 1].0)));
        let j = choose|j: int| 0 <= j < order.len() && (#[trigger] order[j]).0 == prev_of(previous, queue[k + 1].0);
        assert(o2[j] == order[j]);
    }
}

/// Marking `next` reached from `cell`: what stays and what changes.
spec fn marked_next(
    source: Cell,
    blocked: Option<Cell>,
    old_visited: CellFlags,
    visited: CellFlags,
    old_previous: PreviousGrid,
    previous: PreviousGrid,
    depth: Map<Cell, int>,
    cell: Cell,
    next: Cell,
) -> bool {
    &&& in_grid(next)
    &&& in_grid(cell)
    &&& forall|c: Cell| in_grid(c) ==> #[trigger] flag(visited, c) == (flag(old_visited, c) || c == next)
    &&& forall|c: Cell| in_grid(c) && c != next ==> #[trigger] previous[c.1 as int][c.0 as int] == old_previous[c.1 as int][c.0 as int]
    &&& previous[next.1 as int][next.0 as int] == Some(cell)
    &&& !reached(old_visited, blocked, source, next)
    &&& Some(next) != blocked
    &&& reached(old_visited, blocked, source, cell)
    &&& reached(old_visited, blocked, source, source)
}

/// Every reached cell but the source was first reached from a reached cell
/// one step nearer.
spec fn linked(v: CellFlags, x: Option<Cell>, s: Cell, previous: PreviousGrid, depth: Map<Cell, int>) -> bool {
    forall|c: Cell|
        reached(v, x, s, c) && c != s ==> previous[c.1 as int][c.0 as int] is Some && reached(v, x, s, #[trigger] prev_of(previous, c))
            && depth[prev_of(previous, c)] + 1 == depth[c]
}

proof fn lemma_marked_next(
    source: Cell,
    blocked: Option<Cell>,
    old_visited: CellFlags,
    visited: CellFlags,
    old_previous: PreviousGrid,
    previous: PreviousGrid,
    depth: Map<Cell, int>,
    cell: Cell,
    next: Cell,
)
    requires
        marked_next(source, blocked, old_visited, visited, old_previous, previous, depth, cell, next),
    ensures
        prev_of(previous, next) == cell,
        next != source,
        reached(visited, blocked, source, next),
        forall|c: Cell| #[trigger] reached(visited, blocked, source, c) && c != next ==> reached(old_visited, blocked, source, c)
            && prev_of(previous, c) == prev_of(old_previous, c),
        forall|c: Cell| #[trigger] reached(old_visited, blocked, source, c) ==> reached(visited, blocked, source, c) && c != next,
{
    assert(flag(visited, next));
    assert forall|c: Cell| #[trigger] reached(visited, blocked, source, c) && c != next implies reached(old_visited, blocked, source, c)
        && prev_of(previous, c) == prev_of(old_previous, c) by {
        assert(flag(visited, c) == flag(old_visited, c));
    }
    assert forall|c: Cell| #[trigger] reached(old_visited, blocked, source, c) implies reached(visited, blocked, source, c) && c != next by {
        assert(flag(visited, c) == (flag(old_visited, c) || c == next));
    }
}

proof fn lemma_push_tree(
    source: Cell,
    blocked: Option<Cell>,
    old_visited: CellFlags,
    visited: CellFlags,
    old_previous: PreviousGrid,
    previous: PreviousGrid,
    depth: Map<Cell, int>,
    tree: Map<Cell, Seq<Cell>>,
    cell: Cell,
    next: Cell,
    d: int,
)
    requires
        marked_next(source, blocked, old_visited, visited, old_previous, previous, depth, cell, next),
        linked(old_visited, blocked, source, old_previous, depth),
        tree_links(source, blocked, old_visited, old_previous, depth, tree),
        depth[cell] == d,
    ensures
        tree_links(source, blocked, visited, previous, depth.insert(next, d + 1), tree.insert(next, tree[cell].push(next))),
{
    reveal(tree_links);
    lemma_marked_next(source, blocked, old_visited, visited, old_previous, previous, depth, cell, next);
    let depth2 = depth.insert(next, d + 1);
    let tree2 = tree.insert(next, tree[cell].push(next));
    assert forall|c: Cell| #[trigger] reached(visited, blocked, source, c) implies {
        &&& (c == source ==> tree2[c] == seq![source])
        &&& (c != source ==> tree2[c] == tree2[prev_of(previous, c)].push(c))
        &&& tree2[c].len() == depth2[c] + 1
        &&& tree2[c].last() == c
    } by {
        if c != next {
            assert(reached(old_visited, blocked, source, c));
            if c != source {
                let p = prev_of(old_previous, c);
                assert(reached(old_visited, blocked, source, p));
            }
        }
    }
}

proof fn lemma_push_order(
    source: Cell,
    blocked: Option<Cell>,
    old_visited: CellFlags,
    visited: CellFlags,
    old_previous: PreviousGrid,
    previous: PreviousGrid,
    depth: Map<Cell, int>,
    tree: Map<Cell, Seq<Cell>>,
    order: Seq<(Cell, u32)>,
    queue: Seq<(Cell, u32)>,
    cell: Cell,
    next: Cell,
    d: int,
    neighbors: Seq<Cell>,
    i: int,
)
    requires
        marked_next(source, blocked, old_visited, visited, old_previous, previous, depth, cell, next),
        linked(old_visited, blocked, source, old_previous, depth),
        tree_links(source, blocked, old_visited, old_previous, depth, tree),
        in_search_order(old_previous, depth, tree, order, queue, d),
        depth[source] == 0,
        depth[cell] == d,
        order.len() >= 1,
        order[order.len() - 1].0 == cell,
        forall|k: int| 0 <= k < order.len() ==> {
            &&& reached(old_visited, blocked, source, (#[trigger] order[k]).0)
            &&& depth[order[k].0] == order[k].1
        },
        forall|k: int| 0 <= k < queue.len() ==> {
            &&& reached(old_visited, blocked, source, (#[trigger] queue[k]).0)
            &&& depth[queue[k].0] == queue[k].1
            &&& d <= queue[k].1 <= d + 1
        },
        forall|k: int|
            0 <= k < queue.len() && (#[trigger] queue[k]).1 == d + 1 && prev_of(old_previous, queue[k].0) == cell ==> exists|j: int|
                0 <= j < i && #[trigger] neighbors[j] == queue[k].0,
        0 <= i < neighbors.len(),
        neighbors[i] == next,
        forall|j: int, i2: int| 0 <= j < i2 < neighbors.len() ==> turn(cell, #[trigger] neighbors[j]) < turn(cell, #[trigger] neighbors[i2]),
    ensures
        in_search_order(
            previous,
            depth.insert(next, d + 1),
            tree.insert(next, tree[cell].push(next)),
            order,
            queue.push((next, (d + 1) as u32)),
            d,
        ),
{
    reveal(in_search_order);
    lemma_marked_next(source, blocked, old_visited, visited, old_previous, previous, depth, cell, next);
    let depth2 = depth.insert(next, d + 1);
    let tree2 = tree.insert(next, tree[cell].push(next));
    let q2 = queue.push((next, (d + 1) as u32));
    assert forall|k: int| 0 <= k < order.len() implies (#[trigger] order[k]).0 != next by {
        assert(reached(old_visited, blocked, source, order[k].0));
    }
    assert forall|k: int| 0 <= k < queue.len() implies (#[trigger] queue[k]).0 != next by {
        assert(reached(old_visited, blocked, source, queue[k].0));
    }
    assert forall|k: int, l: int| 0 <= k < l < order.len() implies earlier(depth2, tree2, (#[trigger] order[k]).0, (#[trigger] order[l]).0) by {
        assert(earlier(depth, tree, order[k].0, order[l].0));
    }
    assert forall|k: int, l: int|
        0 <= k < order.len() && 0 <= l < q2.len() implies earlier(depth2, tree2, (#[trigger] order[k]).0, (#[trigger] q2[l]).0) by {
        if l < queue.len() {
            assert(q2[l] == queue[l]);
            assert(earlier(depth, tree, order[k].0, queue[l].0));
        } else {
            assert(q2[l].0 == next);
            assert(order[k].1 <= d);
        }
    }
    assert forall|k: int, l: int| 0 <= k < l < q2.len() implies earlier(depth2, tree2, (#[trigger] q2[k]).0, (#[trigger] q2[l]).0) by {
        assert(q2[k] == queue[k]);
        let x = queue[k].0;
        if l < queue.len() {
            assert(q2[l] == queue[l]);
            assert(earlier(depth, tree, x, queue[l].0));
        } else {
            assert(q2[l].0 == next);
            if depth[x] == d + 1 {
                lemma_push_order_step(source, blocked, old_visited, old_previous, depth, tree, order, queue, cell, next, d, neighbors, i, k);
            }
        }
    }
    assert forall|k: int| 0 <= k < q2.len() && (#[trigger] q2[k]).1 == d + 1 implies holds_cell(order, prev_of(previous, q2[k].0)) by {
        if k < queue.len() {
            assert(q2[k] == queue[k]);
            assert(holds_cell(order, prev_of(old_previous, queue[k].0)));
        } else {
            assert(order[order.len() - 1].0 == cell);
        }
    }
}

/// A cell waiting one step further than `cell` comes before `next`.
proof fn lemma_push_order_step(
    source: Cell,
    blocked: Option<Cell>,
    old_visited: CellFlags,
    old_previous: PreviousGrid,
    depth: Map<Cell, int>,
    tree: Map<Cell, Seq<Cell>>,
    order: Seq<(Cell, u32)>,
    queue: Seq<(Cell, u32)>,
    cell: Cell,
    next: Cell,
    d: int,
    neighbors: Seq<Cell>,
    i: int,
    k: int,
)
    requires
        tree_links(source, blocked, old_visited, old_previous, depth, tree),
        in_search_order(old_previous, depth, tree, order, queue, d),
        reached(old_visited, blocked, source, cell),
        depth[cell] == d,
        order.len() >= 1,
        order[order.len() - 1].0 == cell,
        forall|k: int| 0 <= k < order.len() ==> {
            &&& reached(old_visited, blocked, source, (#[trigger] order[k]).0)
            &&& depth[order[k].0] == order[k].1
        },
        0 <= k < queue.len(),
        reached(old_visited, blocked, source, queue[k].0),
        depth[queue[k].0] == queue[k].1,
        queue[k].1 == d + 1,
        queue[k].0 != source,
        linked(old_visited, blocked, source, old_previous, depth),
        prev_of(old_previous, queue[k].0) == cell ==> exists|j: int| 0 <= j < i && #[trigger] neighbors[j] == queue[k].0,
        0 <= i < neighbors.len(),
        neighbors[i] == next,
        forall|j: int, i2: int| 0 <= j < i2 < neighbors.len() ==> turn(cell, #[trigger] neighbors[j]) < turn(cell, #[trigger] neighbors[i2]),
    ensures
        turns_before(tree[queue[k].0].push(queue[k].0).drop_last(), tree[cell].push(next)),
{
    reveal(tree_links);
    reveal(in_search_order);
    let x = queue[k].0;
    let px = prev_of(old_previous, x);
    assert(reached(old_visited, blocked, source, px));
    assert(depth[px] == d);
    assert(tree[x] == tree[px].push(x));
    assert(tree[x].push(x).drop_last() == tree[x]);
    assert(holds_cell(order, px));
    if px == cell {
        let j = choose|j: int| 0 <= j < i && #[trigger] neighbors[j] == x;
        assert(turn(cell, neighbors[j]) < turn(cell, neighbors[i]));
        lemma_turns_before_last(tree[cell], x, next);
    } else {
        let kp = choose|kp: int| 0 <= kp < order.len() && (#[trigger] order[kp]).0 == px;
        assert(kp != order.len() - 1);
        assert(earlier(depth, tree, order[kp].0, order[order.len() - 1].0));
        lemma_turns_before_push(tree[px], tree[cell], x, next);
    }
}

proof fn lemma_push_parents(
    m: MazeMap,
    source: Cell,
    blocked: Option<Cell>,
    limit: int,
    old_visited: CellFlags,
    visited: CellFlags,
    old_previous: PreviousGrid,
    previous: PreviousGrid,
    depth: Map<Cell, int>,
    tree: Map<Cell, Seq<Cell>>,
    order: Seq<(Cell, u32)>,
    queue: Seq<(Cell, u32)>,
    cell: Cell,
    next: Cell,
    d: int,
)
    requires
        marked_next(source, blocked, old_visited, visited, old_previous, previous, depth, cell, next),
        linked(old_visited, blocked, source, old_previous, depth),
        parents_turn_first(m, source, blocked, old_visited, old_previous, depth, tree),
        in_search_order(old_previous, depth, tree, order, queue, d),
        depth[cell] == d,
        0 <= d < limit,
        order.len() >= 1,
        order[order.len() - 1].0 == cell,
        forall|c: Cell| #[trigger] reached(old_visited, blocked, source, c) ==> {
            &&& (holds_cell(queue, c) <==> !holds_cell(order, c))
            &&& 0 <= depth[c] <= d + 1
        },
        forall|k: int| 0 <= k < queue.len() ==> depth[(#[trigger] queue[k]).0] == queue[k].1,
        forall|a: Cell, b: Cell|
            reached(old_visited, blocked, source, a) && !holds_cell(queue, a) && a != cell && depth[a] < limit
                && #[trigger] m.step(a, b, false) && Some(b) != blocked ==> reached(old_visited, blocked, source, b),
    ensures
        parents_turn_first(m, source, blocked, visited, previous, depth.insert(next, d + 1), tree.insert(next, tree[cell].push(next))),
{
    reveal(parents_turn_first);
    lemma_marked_next(source, blocked, old_visited, visited, old_previous, previous, depth, cell, next);
    let depth2 = depth.insert(next, d + 1);
    let tree2 = tree.insert(next, tree[cell].push(next));
    assert forall|c: Cell, q: Cell|
        #[trigger] reached(visited, blocked, source, c) && c != source && #[trigger] reached(visited, blocked, source, q)
            && depth2[q] + 1 == depth2[c] && m.step(q, c, false) && q != prev_of(previous, c) implies turns_before(
            tree2[prev_of(previous, c)],
            tree2[q],
        ) by {
        if c == next {
            assert(q != next);
            assert(reached(old_visited, blocked, source, q));
            assert(q != cell);
            if holds_cell(queue, q) {
                let kq = choose|kq: int| 0 <= kq < queue.len() && (#[trigger] queue[kq]).0 == q;
                reveal(in_search_order);
                assert(earlier(depth, tree, order[order.len() - 1].0, queue[kq].0));
            } else {
                assert(reached(old_visited, blocked, source, next));
            }
        } else if q == next {
            assert(reached(old_visited, blocked, source, c));
        } else {
            assert(reached(old_visited, blocked, source, c));
            assert(reached(old_visited, blocked, source, q));
            assert(prev_of(old_previous, c) != next) by {
                assert(reached(old_visited, blocked, source, prev_of(old_previous, c)));
            }
        }
    }
}

proof fn lemma_order_parents_first(
    m: MazeMap,
    source: Cell,
    blocked: Option<Cell>,
    visited: CellFlags,
    depth: Map<Cell, int>,
    tree: Map<Cell, Seq<Cell>>,
    l: Layers,
)
    requires
        tree_links(source, blocked, visited, l.previous, depth, tree),
        parents_turn_first(m, source, blocked, visited, l.previous, depth, tree),
        depth[source] == 0,
        forall|c: Cell| in_grid(c) ==> (#[trigger] depth_at(l, c) is Some <==> reached(visited, blocked, source, c)),
        forall|c: Cell| #[trigger] reached(visited, blocked, source, c) ==> depth_at(l, c) == Some(depth[c] as u32) && 0 <= depth[c] < 1000,
        linked(visited, blocked, source, l.previous, depth),
    ensures
        parents_first(m, l),
{
    reveal(parents_turn_first);
    assert forall|c: Cell| #[trigger] reached(visited, blocked, source, c) implies {
        &&& (c == source ==> tree[c] == seq![source])
        &&& (c != source ==> tree[c] == tree[prev_of(l.previous, c)].push(c))
        &&& 0 <= depth[c]
    } by {
        reveal(tree_links);
    }
    assert forall|c: Cell, q: Cell|
        in_grid(c) && in_grid(q) && #[trigger] depth_at(l, c) is Some && #[trigger] depth_at(l, q) is Some
            && depth_at(l, q).unwrap() + 1 == depth_at(l, c).unwrap() && m.step(q, c, false) && previous_at(l, c) != Some(
            q,
        ) implies turns_before(
            tree_route(l, previous_at(l, c).unwrap(), depth_at(l, q).unwrap() as nat),
            tree_route(l, q, depth_at(l, q).unwrap() as nat),
        ) by {
        assert(reached(visited, blocked, source, c));
        assert(reached(visited, blocked, source, q));
        assert(c != source);
        let p = prev_of(l.previous, c);
        assert(previous_at(l, c) == Some(p));
        assert(reached(visited, blocked, source, p));
        assert(depth_at(l, q).unwrap() == depth[q]);
        assert(depth_at(l, c).unwrap() == depth[c]);
        assert(depth[p] == depth[q]);
        assert(p != q);
        lemma_tree_is_tree_route(l, visited, blocked, source, depth, tree, p, depth[p] as nat);
        lemma_tree_is_tree_route(l, visited, blocked, source, depth, tree, q, depth[q] as nat);
        assert(turns_before(tree[prev_of(l.previous, c)], tree[q]));
    }
}

/// Breadth-first search from `source` through open sides, never stepping
/// into `blocked`, expanding only cells fewer than `limit` steps away: the
/// distance of every cell at most `limit` steps away, and the cell each was
/// first reached from, with neighbors taken in the order North, East, South, West.
pub fn bfs_layers(maze: &MazeMap, source: Cell, blocked: Option<Cell>, limit: u32) -> (layers: Layers)
    requires
        in_grid(source),
        blocked matches Some(b) ==> in_grid(b),
        limit < 1000,
    ensures
        layers_of(*maze, source, blocked, limit as int, layers),
        parents_first(*maze, layers),
{
    let ghost m = *maze;
    let mut visited: CellFlags = [[false; MAZE_COLUMNS]; MAZE_ROWS];
    let mut queue: VecDeque<(Cell, u32)> = VecDeque::new();
    let ghost mut order: Seq<(Cell, u32)> = Seq::empty();
    let mut depths: DepthGrid = [[None; MAZE_COLUMNS]; MAZE_ROWS];
    let mut previous: PreviousGrid = [[None; MAZE_COLUMNS]; MAZE_ROWS];
    visited[source.1][source.0] = true;
    depths[source.1][source.0] = Some(0);
    let ghost mut seen: Set<int> = set![flat(source)];
    if let Some(b) = blocked {
        visited[b.1][b.0] = true;
        proof {
            seen = seen.insert(flat(b));
        }
    }
    queue.push_back((source, 0));
    let ghost mut depth: Map<Cell, int> = Map::empty().insert(source, 0int);
    let ghost mut tree: Map<Cell, Seq<Cell>> = Map::empty().insert(source, seq![source]);
    let ghost mut cur: int = 0;
    proof {
        lemma_walk_single(m, source, false);
        assert(m.walk_between(seq![source], source, source, false));
        assert(clear_of(seq![source], blocked));
        assert(within(m, source, source, 0, blocked));
        assert forall|c: Cell| in_grid(c) implies (#[trigger] flag(visited, c) <==> seen.contains(flat(c))) by {
            if flat(c) == flat(source) {
                lemma_flat_injective(c, source);
            }
            if let Some(b) = blocked {
                if flat(c) == flat(b) {
                    lemma_flat_injective(c, b);
                }
            }
        }
        assert(holds_cell(queue@, source)) by {
            assert(queue@[0].0 == source);
        }
        assert forall|c: Cell| #[trigger] reached(visited, blocked, source, c) implies c == source by {
            if c != source {
                assert(seen.contains(flat(c)));
                if flat(c) == flat(source) {
                    lemma_flat_injective(c, source);
                }
                if let Some(b) = blocked {
                    if flat(c) == flat(b) {
                        lemma_flat_injective(c, b);
                    }
                }
            }
        }
        assert(queue@ == seq![(source, 0u32)]);
        lemma_order_start(m, source, blocked, visited, previous, depth, tree, queue@);
    }
    while queue.len() > 0
        invariant
            m == *maze,
            in_grid(source),
            blocked matches Some(b) ==> in_grid(b) && flag(visited, b),
            limit < 1000,
            flagged_set(visited, seen),
            reached(visited, blocked, source, source),
            depth[source] == 0,
            0 <= cur <= limit,
            forall|c: Cell| in_grid(c) ==> (#[trigger] depths[c.1 as int][c.0 as int] is Some <==> reached(visited, blocked, source, c)),
            forall|c: Cell| #[trigger] reached(visited, blocked, source, c) ==> depths[c.1 as int][c.0 as int] == Some(depth[c] as u32),
            forall|c: Cell| #[trigger] reached(visited, blocked, source, c) && c != source ==> (previous[c.1 as int][c.0 as int] matches Some(p)
                && reached(visited, blocked, source, p) && depth[p] + 1 == depth[c] && m.step(p, c, false)),

            forall|c: Cell| in_grid(c) && #[trigger] flag(visited, c) ==> reached(visited, blocked, source, c) || Some(c) == blocked,
            forall|k: int| 0 <= k < queue@.len() ==> {
                &&& reached(visited, blocked, source, (#[trigger] queue@[k]).0)
                &&& depth[queue@[k].0] == queue@[k].1
                &&& cur <= queue@[k].1 <= cur + 1
            },
            forall|k: int, l: int| 0 <= k < l < queue@.len() ==> (#[trigger] queue@[k]).1 <= (#[trigger] queue@[l]).1,
            forall|k: int, l: int| 0 <= k < l < queue@.len() ==> (#[trigger] queue@[k]).0 != (#[trigger] queue@[l]).0,
            forall|k: int| 0 <= k < order.len() ==> {
                &&& reached(visited, blocked, source, (#[trigger] order[k]).0)
                &&& depth[order[k].0] == order[k].1
            },
            forall|k: int, l: int| 0 <= k < l < order.len() ==> (#[trigger] order[k]).0 != (#[trigger] order[l]).0,
            forall|c: Cell| #[trigger] reached(visited, blocked, source, c) ==> {
                &&& at_distance(m, source, c, depth[c], blocked)
                &&& 0 <= depth[c] <= cur + 1
                &&& depth[c] <= limit
                &&& (holds_cell(queue@, c) <==> !holds_cell(order, c))
            },
            forall|a: Cell, b: Cell|
                reached(visited, blocked, source, a) && !holds_cell(queue@, a) && depth[a] < limit
                    && #[trigger] m.step(a, b, false) && Some(b) != blocked ==> reached(visited, blocked, source, b)
                    && depth[b] <= depth[a] + 1,
            search_order(m, source, blocked, visited, previous, depth, tree, order, queue@, cur),
            linked(visited, blocked, source, previous, depth),
            forall|k: int| 0 <= k < queue@.len() && (#[trigger] queue@[k]).0 != source ==> holds_cell(order, prev_of(previous, queue@[k].0)),
        decreases
            set_int_range(0, (MAZE_COLUMNS * MAZE_ROWS) as int).difference(seen).len(),
            queue@.len(),
    {
        let ghost before = queue@;
        let ghost cur0 = cur;
        let ghost order_start = order;
        proof {
            lemma_order_pop(previous, depth, tree, order, before, cur);
        }
        let (cell, d) = queue.pop_front().unwrap();
        let ghost rest = queue@;
        proof {
            assert(before[0] == (cell, d));
            cur = d as int;
            assert forall|c: Cell| holds_cell(before, c) && c != cell implies holds_cell(rest, c) by {
                let k = choose|k: int| 0 <= k < before.len() && (#[trigger] before[k]).0 == c;
                assert(rest[k - 1] == before[k]);
            }
            assert forall|c: Cell| holds_cell(rest, c) implies holds_cell(before, c) && c != cell by {
                let k = choose|k: int| 0 <= k < rest.len() && (#[trigger] rest[k]).0 == c;
                assert(before[k + 1] == rest[k]);
            }
        }
        let ghost order_before = order;
        proof {
            order = order.push((cell, d));
        }
        proof {
            assert(holds_cell(order, cell)) by {
                assert(order[order.len() - 1] == (cell, d));
            }
            assert forall|c: Cell| holds_cell(order, c) <==> holds_cell(order_before, c) || c == cell by {
                if holds_cell(order, c) {
                    let k = choose|k: int| 0 <= k < order.len() && (#[trigger] order[k]).0 == c;
                    if k < order_before.len() {
                        assert(order_before[k] == order[k]);
                    }
                }
                if holds_cell(order_before, c) {
                    let k = choose|k: int| 0 <= k < order_before.len() && (#[trigger] order_before[k]).0 == c;
                    assert(order[k] == order_before[k]);
                }
            }
            assert forall|k: int, l: int| 0 <= k < l < order.len() implies (#[trigger] order[k]).0 != (#[trigger] order[l]).0 by {
                if l == order.len() - 1 {
                    assert(order_before[k] == order[k]);
                    assert(holds_cell(order_before, order[k].0));
                }
            }
        }
        proof {
            assert(order == order_start.push(before[0]));
            assert(queue@ == before.subrange(1, before.len() as int));
            assert(search_order(m, source, blocked, visited, previous, depth, tree, order, queue@, cur));
            assert(order[order.len() - 1].0 == cell);
            assert(!holds_cell(order_before, cell)) by {
                assert(holds_cell(before, cell)) by {
                    assert(before[0].0 == cell);
                }
            }
            assert forall|k: int| 0 <= k < queue@.len() && (#[trigger] queue@[k]).0 != source implies holds_cell(order, prev_of(previous, queue@[k].0)) by {
                assert(queue@[k] == before[k + 1]);
                assert(holds_cell(order_before, prev_of(previous, before[k + 1].0)));
            }
            assert forall|k: int| 0 <= k < queue@.len() && (#[trigger] queue@[k]).1 == d + 1 implies prev_of(previous, queue@[k].0) != cell by {
                assert(queue@[k] == before[k + 1]);
                if queue@[k].0 == source {
                    assert(depth[source] == 0);
                } else {
                    assert(holds_cell(order_before, prev_of(previous, before[k + 1].0)));
                }
            }
        }
        if d < limit {
            let neighbors = open_neighbors(cell, maze);
            proof {
                lemma_open_neighbor_list(m, cell);
                lemma_open_neighbor_turns(m, cell);
            }
            let ghost queue_start = queue@;
            let ghost seen_start = seen;
            let mut i: usize = 0;
            while i < neighbors.len()
                invariant
                    m == *maze,
                    in_grid(source),
                    blocked matches Some(b) ==> in_grid(b) && flag(visited, b),
                    limit < 1000,
                    d < limit,
                    cur == d as int,
                    in_grid(cell),
                    neighbors@ == open_neighbor_list(m, cell),
                    forall|k: int| 0 <= k < neighbors@.len() ==> in_grid(#[trigger] neighbors@[k]),
                    forall|b: Cell| #[trigger] neighbors@.contains(b) <==> m.step(cell, b, false),
                    0 <= i <= neighbors@.len(),
                    flagged_set(visited, seen),
                    (seen == seen_start && queue@ == queue_start)
                        || set_int_range(0, (MAZE_COLUMNS * MAZE_ROWS) as int).difference(seen).len()
                        < set_int_range(0, (MAZE_COLUMNS * MAZE_ROWS) as int).difference(seen_start).len(),
                    reached(visited, blocked, source, source),
                    reached(visited, blocked, source, cell),
                    depth[cell] == d,
                    depth[source] == 0,
                    holds_cell(order, cell),
                    forall|c: Cell| in_grid(c) ==> (#[trigger] depths[c.1 as int][c.0 as int] is Some <==> reached(visited, blocked, source, c)),
                    forall|c: Cell| #[trigger] reached(visited, blocked, source, c) ==> depths[c.1 as int][c.0 as int] == Some(depth[c] as u32),
                    forall|c: Cell| #[trigger] reached(visited, blocked, source, c) && c != source ==> (previous[c.1 as int][c.0 as int] matches Some(p)
                        && reached(visited, blocked, source, p) && depth[p] + 1 == depth[c] && m.step(p, c, false)),

                    !holds_cell(queue@, cell),
                    forall|c: Cell| in_grid(c) && #[trigger] flag(visited, c) ==> reached(visited, blocked, source, c) || Some(c) == blocked,
                    forall|k: int| 0 <= k < queue@.len() ==> {
                        &&& reached(visited, blocked, source, (#[trigger] queue@[k]).0)
                        &&& depth[queue@[k].0] == queue@[k].1
                        &&& cur <= queue@[k].1 <= cur + 1
                    },
                    forall|k: int, l: int| 0 <= k < l < queue@.len() ==> (#[trigger] queue@[k]).1 <= (#[trigger] queue@[l]).1,
                    forall|k: int, l: int| 0 <= k < l < queue@.len() ==> (#[trigger] queue@[k]).0 != (#[trigger] queue@[l]).0,
                    forall|k: int| 0 <= k < order.len() ==> {
                        &&& reached(visited, blocked, source, (#[trigger] order[k]).0)
                        &&& depth[order[k].0] == order[k].1
                    },
                    forall|k: int, l: int| 0 <= k < l < order.len() ==> (#[trigger] order[k]).0 != (#[trigger] order[l]).0,
                    forall|c: Cell| #[trigger] reached(visited, blocked, source, c) ==> {
                        &&& at_distance(m, source, c, depth[c], blocked)
                        &&& 0 <= depth[c] <= cur + 1
                        &&& depth[c] <= limit
                        &&& (holds_cell(queue@, c) <==> !holds_cell(order, c))
                    },
                    forall|a: Cell, b: Cell|
                        reached(visited, blocked, source, a) && !holds_cell(queue@, a) && a != cell && depth[a] < limit
                            && #[trigger] m.step(a, b, false) && Some(b) != blocked ==> reached(visited, blocked, source, b)
                            && depth[b] <= depth[a] + 1,
                    forall|j: int| 0 <= j < i && Some(#[trigger] neighbors@[j]) != blocked ==> reached(visited, blocked, source, neighbors@[j])
                        && depth[neighbors@[j]] <= d + 1,
                    search_order(m, source, blocked, visited, previous, depth, tree, order, queue@, d as int),
                    linked(visited, blocked, source, previous, depth),
                    forall|k: int| 0 <= k < queue@.len() && (#[trigger] queue@[k]).0 != source ==> holds_cell(order, prev_of(previous, queue@[k].0)),
                    order.len() >= 1 && order[order.len() - 1].0 == cell,
                    forall|k: int|
                        0 <= k < queue@.len() && (#[trigger] queue@[k]).1 == d + 1 && prev_of(previous, queue@[k].0) == cell ==> exists|j: int|
                            0 <= j < i && #[trigger] neighbors@[j] == queue@[k].0,
                    forall|j: int, i2: int|
                        0 <= j < i2 < neighbors@.len() ==> turn(cell, #[trigger] neighbors@[j]) < turn(cell, #[trigger] neighbors@[i2]),
                decreases neighbors@.len() - i,
            {
                let next = neighbors[i];
                if !visited[next.1][next.0] {
                    proof {
                        assert(!flag(visited, next));
                        assert(neighbors@.contains(next));
                        assert(m.step(cell, next, false));
                        assert(Some(next) != blocked);
                        assert(!reached(visited, blocked, source, next));
                        assert(within(m, source, cell, d as int, blocked));
                        lemma_within_step(m, source, cell, next, d as int, blocked);
                        assert forall|j: int| 0 <= j < d + 1 implies !#[trigger] within(m, source, next, j, blocked) by {
                            if within(m, source, next, j, blocked) {
                                assert forall|a: Cell, b: Cell|
                                    reached(visited, blocked, source, a) && depth[a] < d + 1 - 1 && depth[a] < limit
                                        && #[trigger] m.step(a, b, false) && Some(b) != blocked implies reached(visited, blocked, source, b)
                                        && depth[b] <= depth[a] + 1 by {
                                    if holds_cell(queue@, a) {
                                        let k = choose|k: int| 0 <= k < queue@.len() && (#[trigger] queue@[k]).0 == a;
                                    }
                                }
                                lemma_bfs_cover(m, source, blocked, visited, depth, limit as int, d + 1, next, j);
                            }
                        }
                        lemma_flag_one_more(visited, seen, next);
                    }
                    let ghost old_visited = visited;
                    let ghost old_queue = queue@;
                    let ghost old_previous = previous;
                    let ghost old_depth = depth;
                    let ghost old_tree = tree;
                    visited[next.1][next.0] = true;
                    queue.push_back((next, d + 1));
                    depths[next.1][next.0] = Some(d + 1);
                    previous[next.1][next.0] = Some(cell);
                    proof {
                        seen = seen.insert(flat(next));
                        depth = depth.insert(next, d + 1);
                        tree = tree.insert(next, old_tree[cell].push(next));
                        assert forall|c: Cell| in_grid(c) implies (#[trigger] flag(visited, c) <==> seen.contains(flat(c))) by {
                            if flat(c) == flat(next) {
                                lemma_flat_injective(c, next);
                            }
                            assert(old_visited[c.1 as int][c.0 as int] == flag(old_visited, c));
                        }
                        assert forall|c: Cell| in_grid(c) && c != next implies #[trigger] flag(visited, c) == flag(old_visited, c) by {
                            assert(old_visited[c.1 as int][c.0 as int] == flag(old_visited, c));
                        }
                        assert forall|c: Cell| #[trigger] holds_cell(queue@, c) <==> holds_cell(old_queue, c) || c == next by {
                            if holds_cell(queue@, c) {
                                let k = choose|k: int| 0 <= k < queue@.len() && (#[trigger] queue@[k]).0 == c;
                                if k < old_queue.len() {
                                    assert(old_queue[k] == queue@[k]);
                                }
                            }
                            if holds_cell(old_queue, c) {
                                let k = choose|k: int| 0 <= k < old_queue.len() && (#[trigger] old_queue[k]).0 == c;
                                assert(queue@[k] == old_queue[k]);
                            }
                            if c == next {
                                assert(queue@[queue@.len() - 1].0 == next);
                            }
                        }
                        assert(!holds_cell(old_queue, next)) by {
                            if holds_cell(old_queue, next) {
                                let k = choose|k: int| 0 <= k < old_queue.len() && (#[trigger] old_queue[k]).0 == next;
                            }
                        }
                        assert(!holds_cell(order, next)) by {
                            if holds_cell(order, next) {
                                let k = choose|k: int| 0 <= k < order.len() && (#[trigger] order[k]).0 == next;
                            }
                        }
                        assert forall|k: int, l: int| 0 <= k < l < queue@.len() implies (#[trigger] queue@[k]).0 != (#[trigger] queue@[l]).0 by {
                            if l == queue@.len() - 1 {
                                assert(old_queue[k] == queue@[k]);
                                assert(holds_cell(old_queue, old_queue[k].0));
                            }
                        }
                        assert forall|c: Cell| #[trigger] reached(visited, blocked, source, c) implies {
                            &&& at_distance(m, source, c, depth[c], blocked)
                            &&& 0 <= depth[c] <= cur + 1
                            &&& depth[c] <= limit
                            &&& (holds_cell(queue@, c) <==> !holds_cell(order, c))
                        } by {
                            if c != next {
                                assert(reached(old_visited, blocked, source, c));
                            }
                        }
                    }
                    proof {
                        assert forall|c: Cell| in_grid(c) implies #[trigger] flag(visited, c) == (flag(old_visited, c) || c == next) by {
                            assert(old_visited[c.1 as int][c.0 as int] == flag(old_visited, c));
                        }
                        assert forall|c: Cell| in_grid(c) && c != next implies #[trigger] previous[c.1 as int][c.0 as int]
                            == old_previous[c.1 as int][c.0 as int] by {
                        }
                        assert(marked_next(source, blocked, old_visited, visited, old_previous, previous, old_depth, cell, next));
                        lemma_push_tree(source, blocked, old_visited, visited, old_previous, previous, old_depth, old_tree, cell, next, d as int);
                        lemma_push_order(
                            source,
                            blocked,
                            old_visited,
                            visited,
                            old_previous,
                            previous,
                            old_depth,
                            old_tree,
                            order,
                            old_queue,
                            cell,
                            next,
                            d as int,
                            neighbors@,
                            i as int,
                        );
                        lemma_push_parents(
                            m,
                            source,
                            blocked,
                            limit as int,
                            old_visited,
                            visited,
                            old_previous,
                            previous,
                            old_depth,
                            old_tree,
                            order,
                            old_queue,
                            cell,
                            next,
                            d as int,
                        );
                        assert(queue@ == old_queue.push((next, (d + 1) as u32)));
                        assert forall|k: int| 0 <= k < queue@.len() && (#[trigger] queue@[k]).0 != source implies holds_cell(order, prev_of(previous, queue@[k].0)) by {
                            if k < old_queue.len() {
                                assert(queue@[k] == old_queue[k]);
                                assert(holds_cell(order, prev_of(old_previous, old_queue[k].0)));
                            } else {
                                assert(order[order.len() - 1].0 == cell);
                            }
                        }
                        assert forall|k: int|
                            0 <= k < queue@.len() && (#[trigger] queue@[k]).1 == d + 1 && prev_of(previous, queue@[k].0) == cell implies exists|j: int|
                                0 <= j < i + 1 && #[trigger] neighbors@[j] == queue@[k].0 by {
                            if k < old_queue.len() {
                                assert(queue@[k] == old_queue[k]);
                                assert(old_queue[k].0 != next);
                                let j = choose|j: int| 0 <= j < i && #[trigger] neighbors@[j] == old_queue[k].0;
                                assert(neighbors@[j] == queue@[k].0);
                            } else {
                                assert(neighbors@[i as int] == queue@[k].0);
                            }
                        }
                    }
                }
                proof {
                    assert forall|j: int| 0 <= j < i + 1 && Some(#[trigger] neighbors@[j]) != blocked implies reached(visited, blocked, source, neighbors@[j])
                        && depth[neighbors@[j]] <= d + 1 by {
                        if j == i {
                            let b = neighbors@[j];
                            assert(flag(visited, b));
                        }
                    }
                }
                i = i + 1;
            }
            proof {
                assert forall|a: Cell, b: Cell|
                    reached(visited, blocked, source, a) && !holds_cell(queue@, a) && depth[a] < limit
                        && #[trigger] m.step(a, b, false) && Some(b) != blocked implies reached(visited, blocked, source, b)
                        && depth[b] <= depth[a] + 1 by {
                    if a == cell {
                        assert(neighbors@.contains(b));
                        let j = choose|j: int| 0 <= j < neighbors@.len() && neighbors@[j] == b;
                    }
                }
            }
        } else {
            proof {
                assert forall|a: Cell, b: Cell|
                    reached(visited, blocked, source, a) && !holds_cell(queue@, a) && depth[a] < limit
                        && #[trigger] m.step(a, b, false) && Some(b) != blocked implies reached(visited, blocked, source, b)
                        && depth[b] <= depth[a] + 1 by {
                    if a != cell {
                        assert(!holds_cell(before, a));
                    }
                }
            }
        }
    }
    proof {
        assert forall|c: Cell, j: int| 0 <= j <= limit && #[trigger] within(m, source, c, j, blocked) implies holds_cell(order, c) by {
            assert forall|a: Cell, b: Cell|
                reached(visited, blocked, source, a) && depth[a] < limit + 1 - 1 && depth[a] < limit
                    && #[trigger] m.step(a, b, false) && Some(b) != blocked implies reached(visited, blocked, source, b)
                    && depth[b] <= depth[a] + 1 by {
                assert(!holds_cell(queue@, a));
            }
            lemma_bfs_cover(m, source, blocked, visited, depth, limit as int, limit + 1, c, j);
            assert(!holds_cell(queue@, c));
        }
    }
    let layers = Layers { depth: depths, previous };
    proof {
        assert forall|c: Cell| in_grid(c) implies (#[trigger] depth_at(layers, c) is Some <==> dist_within(m, source, c, limit as int, blocked) is Some)
            && (depth_at(layers, c) is Some ==> dist_within(m, source, c, limit as int, blocked) == Some(depth_at(layers, c).unwrap() as int)) by {
            if reached(visited, blocked, source, c) {
                assert(at_distance(m, source, c, depth[c], blocked));
                let j = choose|j: int| 0 <= j <= limit && #[trigger] at_distance(m, source, c, j, blocked);
                lemma_at_distance_unique(m, source, c, j, depth[c], blocked);
            } else {
                if dist_within(m, source, c, limit as int, blocked) is Some {
                    let j = choose|j: int| 0 <= j <= limit && #[trigger] at_distance(m, source, c, j, blocked);
                    assert(within(m, source, c, j, blocked));
                    assert(holds_cell(order, c));
                    let k = choose|k: int| 0 <= k < order.len() && (#[trigger] order[k]).0 == c;
                }
            }
        }
        assert forall|c: Cell|
            in_grid(c) && #[trigger] depth_at(layers, c) is Some && c != source implies (previous_at(layers, c) matches Some(p) && in_grid(p)
                && m.step(p, c, false) && depth_at(layers, p) == Some((depth_at(layers, c).unwrap() - 1) as u32)) by {
            assert(reached(visited, blocked, source, c));
            let p = previous_at(layers, c).unwrap();
            assert(reached(visited, blocked, source, p));
        }
        lemma_order_parents_first(m, source, blocked, visited, depth, tree, layers);
    }
    layers
}

/// The longest a walk without repeated cells can be, in steps.
pub const ROUTE_LIMIT: u32 = 144;

/// Any walk can be shortened to one without repeated cells, which has at
/// most one step fewer than the grid has cells.
pub proof fn lemma_short_walk(m: MazeMap, p: Seq<Cell>, s: Cell, c: Cell, x: Option<Cell>)
    requires
        m.walk_between(p, s, c, false),
        clear_of(p, x),
    ensures
        within(m, s, c, (MAZE_COLUMNS * MAZE_ROWS - 1) as int, x),
    decreases p.len(),
{
    if p.no_duplicates() {
        let f = p.map_values(|q: Cell| flat(q));
        assert(f.no_duplicates()) by {
            assert forall|i: int, j: int| 0 <= i < f.len() && 0 <= j < f.len() && i != j implies f[i] != f[j] by {
                if f[i] == f[j] {
                    assert(in_grid(p[i]));
                    assert(in_grid(p[j]));
                    lemma_flat_injective(p[i], p[j]);
                }
            }
        }
        f.unique_seq_to_set();
        let range = set_int_range(0, (MAZE_COLUMNS * MAZE_ROWS) as int);
        vstd::set_lib::lemma_int_range(0, (MAZE_COLUMNS * MAZE_ROWS) as int);
        assert(f.to_set().subset_of(range)) by {
            assert forall|v: int| f.to_set().contains(v) implies range.contains(v) by {
                assert(f.contains(v));
                let k = choose|k: int| 0 <= k < f.len() && f[k] == v;
                assert(in_grid(p[k]));
            }
        }
        vstd::set_lib::lemma_len_subset(f.to_set(), range);
        assert(m.walk_between(p, s, c, false) && p.len() <= (MAZE_COLUMNS * MAZE_ROWS - 1) as int + 1 && clear_of(p, x));
    } else {
        let (i, j) = choose|i: int, j: int| 0 <= i < p.len() && 0 <= j < p.len() && i != j && p[i] == p[j];
        let (i, j) = if i < j { (i, j) } else { (j, i) };
        let q = p.subrange(0, i) + p.subrange(j, p.len() as int);
        assert(q.len() < p.len());
        assert forall|k: int| 0 <= k < q.len() implies in_grid(#[trigger] q[k]) by {
            if k < i {
                assert(q[k] == p[k]);
            } else {
                assert(q[k] == p[k - i + j]);
            }
        }
        assert forall|k: int| 0 <= k < q.len() - 1 implies #[trigger] m.link_at(q, k, false) by {
            if k < i - 1 {
                assert(q[k] == p[k] && q[k + 1] == p[k + 1]);
                assert(m.link_at(p, k, false));
            } else if k == i - 1 {
                assert(q[k] == p[k] && q[k + 1] == p[j]);
                assert(m.link_at(p, k, false));
            } else {
                assert(q[k] == p[k - i + j] && q[k + 1] == p[k - i + j + 1]);
                assert(m.link_at(p, k - i + j, false));
            }
        }
        assert(q[0] == s) by {
            if i == 0 {
                assert(q[0] == p[j]);
            } else {
                assert(q[0] == p[0]);
            }
        }
        assert(q.last() == c) by {
            assert(q[q.len() - 1] == p[p.len() - 1]);
        }
        assert(clear_of(q, x)) by {
            assert forall|k: int| 1 <= k < q.len() implies Some(#[trigger] q[k]) != x by {
                if k < i {
                    assert(q[k] == p[k]);
                } else {
                    assert(q[k] == p[k - i + j]);
                }
            }
        }
        lemma_short_walk(m, q, s, c, x);
    }
}

/// Some walk through open sides from `s` to `c`, never stepping into `x`,
/// is the same as one of at most `ROUTE_LIMIT` steps.
pub proof fn lemma_reaches_within(m: MazeMap, s: Cell, c: Cell)
    ensures
        m.reaches(s, c, false) <==> within(m, s, c, ROUTE_LIMIT as int, None),
{
    if m.reaches(s, c, false) {
        let p = choose|p: Seq<Cell>| #[trigger] m.walk_between(p, s, c, false);
        assert(clear_of(p, None));
        lemma_short_walk(m, p, s, c, None);
        let q = choose|q: Seq<Cell>| #[trigger] m.walk_between(q, s, c, false) && q.len() <= (MAZE_COLUMNS * MAZE_ROWS - 1) as int + 1 && clear_of(q, None);
        assert(m.walk_between(q, s, c, false) && q.len() <= ROUTE_LIMIT as int + 1 && clear_of(q, None));
    }
    if within(m, s, c, ROUTE_LIMIT as int, None) {
        let q = choose|q: Seq<Cell>| #[trigger] m.walk_between(q, s, c, false) && q.len() <= ROUTE_LIMIT as int + 1 && clear_of(q, None);
    }
}

/// Within some number of steps is within the distance, which is the least.
pub proof fn lemma_dist_within(m: MazeMap, s: Cell, c: Cell, limit: int, x: Option<Cell>, j: int)
    requires
        0 <= j <= limit,
        within(m, s, c, j, x),
    ensures
        dist_within(m, s, c, limit, x) is Some,
        dist_within(m, s, c, limit, x).unwrap() <= j,
        at_distance(m, s, c, dist_within(m, s, c, limit, x).unwrap(), x),
    decreases j,
{
    if exists|i: int| 0 <= i < j && within(m, s, c, i, x) {
        let i = choose|i: int| 0 <= i < j && within(m, s, c, i, x);
        lemma_dist_within(m, s, c, limit, x, i);
    } else {
        assert(at_distance(m, s, c, j, x));
        let k = choose|k: int| 0 <= k <= limit && #[trigger] at_distance(m, s, c, k, x);
        lemma_at_distance_unique(m, s, c, k, j, x);
    }
}

/// A walk through open sides from `start` to `goal` with no shorter one.
pub open spec fn shortest_route(m: MazeMap, start: Cell, goal: Cell, r: Seq<Cell>) -> bool {
    m.walk_between(r, start, goal, false) && at_distance(m, start, goal, r.len() - 1, None)
}

/// The compass slot (North 0, East 1, South 2, West 3) of the step from `a`
/// to `b`.
pub open spec fn turn(a: Cell, b: Cell) -> int {
    match step_direction(a, b) {
        Some(d) => d.slot(),
        None => 4,
    }
}

/// Route `a` parts from route `b` toward an earlier compass direction: both
/// share their first `k` cells, and from there `a` steps earlier in the
/// order North, East, South, West than `b` does.
pub open spec fn turns_before(a: Seq<Cell>, b: Seq<Cell>) -> bool {
    exists|k: int|
        #![trigger a[k], b[k]]
        1 <= k < a.len() && k < b.len() && (forall|i: int| 0 <= i < k ==> a[i] == b[i]) && turn(a[k - 1], a[k]) < turn(
            b[k - 1],
            b[k],
        )
}

/// The shortest route from `start` to `goal` that no other shortest route
/// turns before: at every parting, it takes the earliest of North, East,
/// South, West.
pub open spec fn first_route(m: MazeMap, start: Cell, goal: Cell, r: Seq<Cell>) -> bool {
    &&& shortest_route(m, start, goal, r)
    &&& forall|r2: Seq<Cell>| #[trigger] shortest_route(m, start, goal, r2) ==> !turns_before(r2, r)
}

proof fn lemma_first_routes_agree(m: MazeMap, s: Cell, g: Cell, r1: Seq<Cell>, r2: Seq<Cell>, i: int)
    requires
        first_route(m, s, g, r1),
        first_route(m, s, g, r2),
        r1.len() == r2.len(),
        0 <= i < r1.len(),
    ensures
        forall|j: int| 0 <= j <= i ==> r1[j] == r2[j],
    decreases i,
{
    if i > 0 {
        lemma_first_routes_agree(m, s, g, r1, r2, i - 1);
        if r1[i] != r2[i] {
            let a = r1[i - 1];
            assert(r2[i - 1] == a);
            assert(m.link_at(r1, i - 1, false));
            assert(m.link_at(r2, i - 1, false));
            lemma_step_direction(a, r1[i]);
            lemma_step_direction(a, r2[i]);
            let d1 = step_direction(a, r1[i]).unwrap();
            let d2 = step_direction(a, r2[i]).unwrap();
            assert(d1 != d2);
            assert(d1.slot() != d2.slot());
            if d1.slot() < d2.slot() {
                assert(turns_before(r1, r2)) by {
                    assert(r1[i] == r1[i] && r2[i] == r2[i]);
                }
            } else {
                assert(turns_before(r2, r1)) by {
                    assert(r1[i] == r1[i] && r2[i] == r2[i]);
                }
            }
        }
    }
}

/// Only one route is the first route: a shortest route that no other
/// shortest route turns before is the same as any other such route.
pub proof fn law_first_route_is_unique(m: MazeMap, start: Cell, goal: Cell, r1: Seq<Cell>, r2: Seq<Cell>)
    requires
        first_route(m, start, goal, r1),
        first_route(m, start, goal, r2),
    ensures
        r1 == r2,
{
    lemma_at_distance_unique(m, start, goal, r1.len() - 1, r2.len() - 1, None);
    lemma_first_routes_agree(m, start, goal, r1, r2, r1.len() - 1);
    assert(r1 =~= r2);
}

proof fn lemma_turns_before_push(a: Seq<Cell>, b: Seq<Cell>, x: Cell, y: Cell)
    requires
        turns_before(a, b),
        a.len() == b.len(),
    ensures
        turns_before(a.push(x), b.push(y)),
{
    let k = choose|k: int|
        #![trigger a[k], b[k]]
        1 <= k < a.len() && k < b.len() && (forall|i: int| 0 <= i < k ==> a[i] == b[i]) && turn(a[k - 1], a[k]) < turn(
            b[k - 1],
            b[k],
        );
    let a2 = a.push(x);
    let b2 = b.push(y);
    assert(a2[k] == a[k] && b2[k] == b[k] && a2[k - 1] == a[k - 1] && b2[k - 1] == b[k - 1]);
    assert forall|i: int| 0 <= i < k implies a2[i] == b2[i] by {
        assert(a2[i] == a[i] && b2[i] == b[i]);
    }
}

proof fn lemma_turns_before_last(a: Seq<Cell>, x: Cell, y: Cell)
    requires
        a.len() >= 1,
        turn(a.last(), x) < turn(a.last(), y),
    ensures
        turns_before(a.push(x), a.push(y)),
{
    let k = a.len() as int;
    let a2 = a.push(x);
    let b2 = a.push(y);
    assert(a2[k] == x && b2[k] == y && a2[k - 1] == a.last() && b2[k - 1] == a.last());
    assert forall|i: int| 0 <= i < k implies a2[i] == b2[i] by {
        assert(a2[i] == a[i] && b2[i] == a[i]);
    }
}

proof fn lemma_turns_before_trans(a: Seq<Cell>, b: Seq<Cell>, c: Seq<Cell>)
    requires
        turns_before(a, b),
        turns_before(b, c),
    ensures
        turns_before(a, c),
{
    let k1 = choose|k: int|
        #![trigger a[k], b[k]]
        1 <= k < a.len() && k < b.len() && (forall|i: int| 0 <= i < k ==> a[i] == b[i]) && turn(a[k - 1], a[k]) < turn(
            b[k - 1],
            b[k],
        );
    let k2 = choose|k: int|
        #![trigger b[k], c[k]]
        1 <= k < b.len() && k < c.len() && (forall|i: int| 0 <= i < k ==> b[i] == c[i]) && turn(b[k - 1], b[k]) < turn(
            c[k - 1],
            c[k],
        );
    if k1 < k2 {
        assert(b[k1] == c[k1] && b[k1 - 1] == c[k1 - 1]);
        assert(a[k1] == a[k1] && c[k1] == c[k1]);
    } else if k2 < k1 {
        assert(a[k2] == b[k2] && a[k2 - 1] == b[k2 - 1]);
        assert(a[k2] == a[k2] && c[k2] == c[k2]);
    } else {
        assert(a[k1] == a[k1] && c[k1] == c[k1]);
    }
}

/// The route to `c` along first-reached-from links, `n` steps long.
pub open spec fn tree_route(l: Layers, c: Cell, n: nat) -> Seq<Cell>
    decreases n,
{
    if n == 0 {
        seq![c]
    } else {
        tree_route(l, previous_at(l, c).unwrap(), (n - 1) as nat).push(c)
    }
}

/// Each cell was first reached from the neighbor whose own route comes
/// first in compass order among all neighbors one step nearer.
pub open spec fn parents_first(m: MazeMap, l: Layers) -> bool {
    forall|c: Cell, q: Cell|
        in_grid(c) && in_grid(q) && #[trigger] depth_at(l, c) is Some && #[trigger] depth_at(l, q) is Some
            && depth_at(l, q).unwrap() + 1 == depth_at(l, c).unwrap() && m.step(q, c, false) && previous_at(l, c) != Some(
            q,
        ) ==> turns_before(
            tree_route(l, previous_at(l, c).unwrap(), depth_at(l, q).unwrap() as nat),
            tree_route(l, q, depth_at(l, q).unwrap() as nat),
        )
}

proof fn lemma_tree_route(m: MazeMap, l: Layers, s: Cell, x: Option<Cell>, limit: int, c: Cell, n: nat)
    requires
        layers_of(m, s, x, limit, l),
        in_grid(c),
        depth_at(l, c) is Some,
        depth_at(l, c).unwrap() == n,
    ensures
        tree_route(l, c, n).len() == n + 1,
        tree_route(l, c, n)[0] == s,
        tree_route(l, c, n).last() == c,
        m.walk_between(tree_route(l, c, n), s, c, false),
    decreases n,
{
    if n == 0 {
        assert(c == s) by {
            if c != s {
                let p = previous_at(l, c).unwrap();
                assert(depth_at(l, p) == Some((depth_at(l, c).unwrap() - 1) as u32));
            }
        }
        lemma_walk_single(m, c, false);
        assert(tree_route(l, c, n) == seq![c]);
    } else {
        assert(c != s) by {
            if c == s {
                lemma_walk_single(m, s, false);
                assert(m.walk_between(seq![s], s, s, false) && seq![s].len() <= 0 + 1 && clear_of(seq![s], x));
                assert(within(m, s, s, 0, x));
                assert(dist_within(m, s, c, limit, x) == Some(n as int));
                assert(at_distance(m, s, s, n as int, x));
            }
        }
        let p = previous_at(l, c).unwrap();
        assert(depth_at(l, p) == Some((depth_at(l, c).unwrap() - 1) as u32));
        lemma_tree_route(m, l, s, x, limit, p, (n - 1) as nat);
        let t = tree_route(l, p, (n - 1) as nat);
        lemma_walk_push(m, t, c, false);
    }
}

/// When every cell was first reached from its first neighbor, the route
/// along first-reached-from links is turned before by no shortest route.
proof fn lemma_tree_route_first(m: MazeMap, l: Layers, s: Cell, c: Cell, n: nat, r2: Seq<Cell>)
    requires
        layers_of(m, s, None, ROUTE_LIMIT as int, l),
        parents_first(m, l),
        in_grid(c),
        depth_at(l, c) is Some,
        depth_at(l, c).unwrap() == n,
        shortest_route(m, s, c, r2),
    ensures
        r2.len() == n + 1,
        !turns_before(r2, tree_route(l, c, n)),
    decreases n,
{
    let limit = ROUTE_LIMIT as int;
    lemma_tree_route(m, l, s, None, limit, c, n);
    assert(dist_within(m, s, c, limit, None) == Some(n as int));
    let j = choose|j: int| 0 <= j <= limit && #[trigger] at_distance(m, s, c, j, None);
    lemma_at_distance_unique(m, s, c, j, r2.len() - 1, None);
    if n > 0 {
        assert(c != s) by {
            if c == s {
                lemma_walk_single(m, s, false);
                assert(m.walk_between(seq![s], s, s, false) && seq![s].len() <= 0 + 1 && clear_of(seq![s], None));
                assert(within(m, s, s, 0, None));
            }
        }
        let p = previous_at(l, c).unwrap();
        let t = tree_route(l, c, n);
        let tp = tree_route(l, p, (n - 1) as nat);
        assert(depth_at(l, p) == Some((depth_at(l, c).unwrap() - 1) as u32));
        lemma_tree_route(m, l, s, None, limit, p, (n - 1) as nat);
        assert(t == tp.push(c));
        let r1 = r2.drop_last();
        let q = r1.last();
        assert(q == r2[n - 1]);
        assert(m.link_at(r2, n - 1, false));
        assert(m.step(q, c, false));
        assert(m.is_walk(r1, false)) by {
            assert forall|i: int| 0 <= i < r1.len() implies in_grid(#[trigger] r1[i]) by {
                assert(r1[i] == r2[i]);
            }
            assert forall|i: int| 0 <= i < r1.len() - 1 implies #[trigger] m.link_at(r1, i, false) by {
                assert(m.link_at(r2, i, false));
            }
        }
        assert(m.walk_between(r1, s, q, false));
        assert(within(m, s, q, n - 1, None)) by {
            assert(clear_of(r1, None));
        }
        assert forall|i: int| 0 <= i < n - 1 implies !#[trigger] within(m, s, q, i, None) by {
            if within(m, s, q, i, None) {
                lemma_within_step(m, s, q, c, i, None);
                assert(!within(m, s, c, i + 1, None));
            }
        }
        assert(at_distance(m, s, q, n - 1, None));
        assert(shortest_route(m, s, q, r1));
        lemma_dist_within(m, s, q, limit, None, n - 1);
        let dq = dist_within(m, s, q, limit, None).unwrap();
        lemma_at_distance_unique(m, s, q, dq, n - 1, None);
        assert(depth_at(l, q) is Some);
        assert(depth_at(l, q).unwrap() == n - 1);
        lemma_tree_route_first(m, l, s, q, (n - 1) as nat, r1);
        let tq = tree_route(l, q, (n - 1) as nat);
        if turns_before(r2, t) {
            let k = choose|k: int|
                #![trigger r2[k], t[k]]
                1 <= k < r2.len() && k < t.len() && (forall|i: int| 0 <= i < k ==> r2[i] == t[i]) && turn(r2[k - 1], r2[k])
                    < turn(t[k - 1], t[k]);
            if k < n {
                assert(r1[k] == r2[k] && r1[k - 1] == r2[k - 1]);
                assert(tp[k] == t[k] && tp[k - 1] == t[k - 1]);
                assert forall|i: int| 0 <= i < k implies r1[i] == tp[i] by {
                    assert(r1[i] == r2[i] && tp[i] == t[i]);
                }
                assert(turns_before(r1, tp));
                if q != p {
                    assert(in_grid(q));
                    assert(depth_at(l, q).unwrap() + 1 == depth_at(l, c).unwrap());
                    assert(turns_before(tp, tq));
                    lemma_turns_before_trans(r1, tp, tq);
                }
            } else {
                assert(r2[n - 1] == t[n - 1]);
                assert(t[n - 1] == tp[n - 1]);
                assert(q == p);
                assert(t[n as int] == c && r2[n as int] == c);
            }
        }
    }
}

/// Follows first-reached-from links from `goal` back to `start`.
fn trace_back(maze: &MazeMap, layers: &Layers, start: Cell, goal: Cell) -> (back: Vec<Cell>)
    requires
        layers_of(*maze, start, None, ROUTE_LIMIT as int, *layers),
        in_grid(start),
        in_grid(goal),
        depth_at(*layers, start) == Some(0u32),
        depth_at(*layers, goal) is Some,
    ensures
        back@.len() == depth_at(*layers, goal).unwrap() + 1,
        back@[0] == goal,
        back@.last() == start,
        forall|k: int| 0 <= k < back@.len() ==> in_grid(#[trigger] back@[k]),
        forall|k: int| 0 <= k < back@.len() - 1 ==> maze.step(#[trigger] back@[k + 1], back@[k], false),
        forall|k: int|
            0 <= k < back@.len() ==> #[trigger] back@[k] == tree_route(
                *layers,
                goal,
                depth_at(*layers, goal).unwrap() as nat,
            )[depth_at(*layers, goal).unwrap() - k],
{
    let ghost m = *maze;
    let ghost goal_depth = depth_at(*layers, goal).unwrap();
    let ghost t = tree_route(*layers, goal, goal_depth as nat);
    proof {
        lemma_tree_route(m, *layers, start, None, ROUTE_LIMIT as int, goal, goal_depth as nat);
        assert(t.subrange(0, goal_depth + 1) == t);
    }
    let mut back: Vec<Cell> = Vec::new();
    back.push(goal);
    let mut current = goal;
    while !(current.0 == start.0 && current.1 == start.1)
        invariant
            layers_of(m, start, None, ROUTE_LIMIT as int, *layers),
            m == *maze,
            in_grid(start),
            in_grid(current),
            depth_at(*layers, start) == Some(0u32),
            depth_at(*layers, current) is Some,
            back@.len() >= 1,
            back@[0] == goal,
            back@.last() == current,
            depth_at(*layers, current).unwrap() + back@.len() - 1 == goal_depth,
            forall|k: int| 0 <= k < back@.len() ==> in_grid(#[trigger] back@[k]),
            forall|k: int| 0 <= k < back@.len() - 1 ==> m.step(#[trigger] back@[k + 1], back@[k], false),
            t == tree_route(*layers, goal, goal_depth as nat),
            t.len() == goal_depth + 1,
            t.subrange(0, depth_at(*layers, current).unwrap() + 1) == tree_route(
                *layers,
                current,
                depth_at(*layers, current).unwrap() as nat,
            ),
            forall|k: int| 0 <= k < back@.len() ==> #[trigger] back@[k] == t[goal_depth - k],
        decreases depth_at(*layers, current).unwrap(),
    {
        proof {
            if depth_at(*layers, current).unwrap() == 0 {
                assert(dist_within(m, start, current, ROUTE_LIMIT as int, None) == Some(0int));
                let j = choose|j: int| 0 <= j <= ROUTE_LIMIT && #[trigger] at_distance(m, start, current, j, None);
                assert(within(m, start, current, 0, None));
                let p = choose|p: Seq<Cell>| #[trigger] m.walk_between(p, start, current, false) && p.len() <= 1 && clear_of(p, None);
                assert(current == start);
            }
        }
        let previous = layers.previous[current.1][current.0].unwrap();
        let ghost prior = back@;
        let ghost dc = depth_at(*layers, current).unwrap() as int;
        proof {
            assert(current != start) by {
                if current == start {
                    assert(dc == 0) by {
                        lemma_walk_single(m, start, false);
                        assert(m.walk_between(seq![start], start, start, false) && seq![start].len() <= 0 + 1 && clear_of(seq![start], None));
                        assert(within(m, start, start, 0, None));
                        let j = choose|j: int| 0 <= j <= ROUTE_LIMIT && #[trigger] at_distance(m, start, current, j, None);
                    }
                }
            }
            assert(depth_at(*layers, previous) == Some((dc - 1) as u32));
            lemma_tree_route(m, *layers, start, None, ROUTE_LIMIT as int, previous, (dc - 1) as nat);
            let tc = tree_route(*layers, current, dc as nat);
            let tp = tree_route(*layers, previous, (dc - 1) as nat);
            assert(tc == tp.push(current));
            assert(t.subrange(0, dc) == tp) by {
                assert(t.subrange(0, dc) =~= tc.subrange(0, dc));
                assert(tc.subrange(0, dc) =~= tp);
            }
            assert(t[dc - 1] == previous) by {
                assert(t.subrange(0, dc)[dc - 1] == tp[dc - 1]);
            }
        }
        back.push(previous);
        proof {
            assert forall|k: int| 0 <= k < back@.len() - 1 implies m.step(#[trigger] back@[k + 1], back@[k], false) by {
                if k < prior.len() - 1 {
                    assert(back@[k + 1] == prior[k + 1] && back@[k] == prior[k]);
                }
            }
        }
        current = previous;
    }
    back
}

fn reversed_cells(back: &Vec<Cell>) -> (route: Vec<Cell>)
    ensures
        route@.len() == back@.len(),
        forall|i: int| 0 <= i < route@.len() ==> #[trigger] route@[i] == back@[back@.len() - 1 - i],
{
    let mut route: Vec<Cell> = Vec::new();
    let mut k: usize = back.len();
    while k > 0
        invariant
            0 <= k <= back@.len(),
            route@.len() == back@.len() - k,
            forall|i: int| 0 <= i < route@.len() ==> #[trigger] route@[i] == back@[back@.len() - 1 - i],
        decreases k,
    {
        k = k - 1;
        route.push(back[k]);
    }
    route
}

proof fn lemma_reversed_walk(m: MazeMap, back: Seq<Cell>, r: Seq<Cell>, start: Cell, goal: Cell)
    requires
        back.len() >= 1,
        back[0] == goal,
        back.last() == start,
        forall|k: int| 0 <= k < back.len() ==> in_grid(#[trigger] back[k]),
        forall|k: int| 0 <= k < back.len() - 1 ==> m.step(#[trigger] back[k + 1], back[k], false),
        r.len() == back.len(),
        forall|i: int| 0 <= i < r.len() ==> #[trigger] r[i] == back[back.len() - 1 - i],
    ensures
        m.walk_between(r, start, goal, false),
{
    assert forall|i: int| 0 <= i < r.len() implies in_grid(#[trigger] r[i]) by {
        assert(r[i] == back[back.len() - 1 - i]);
    }
    assert forall|i: int| 0 <= i < r.len() - 1 implies #[trigger] m.link_at(r, i, false) by {
        assert(r[i] == back[back.len() - 1 - i]);
        assert(r[i + 1] == back[back.len() - 1 - (i + 1)]);
        let kk = back.len() - 2 - i;
        assert(m.step(back[kk + 1], back[kk], false));
    }
    assert(r[0] == back[back.len() - 1]);
    assert(r[r.len() - 1] == back[0]);
}

/// The first route from `start` to `goal` through open sides: a shortest
/// one that, wherever shortest routes part, takes the earliest of North,
/// East, South, West (the route a breadth-first search that looks at
/// neighbors in that order finds); the cells in the order met. `None` when
/// no walk leads there.
pub fn route_between(start: Cell, goal: Cell, maze: &MazeMap) -> (route: Option<Vec<Cell>>)
    requires
        in_grid(start),
    ensures
        route is Some <==> maze.reaches(start, goal, false),
        route matches Some(r) ==> first_route(*maze, start, goal, r@),
{
    proof {
        lemma_reaches_within(*maze, start, goal);
    }
    if !(goal.0 < MAZE_COLUMNS && goal.1 < MAZE_ROWS) {
        proof {
            if maze.reaches(start, goal, false) {
                let p = choose|p: Seq<Cell>| #[trigger] maze.walk_between(p, start, goal, false);
                assert(in_grid(p[p.len() - 1]));
            }
        }
        return None;
    }
    let layers = bfs_layers(maze, start, None, ROUTE_LIMIT);
    let ghost m = *maze;
    proof {
        lemma_walk_single(m, start, false);
        assert(m.walk_between(seq![start], start, start, false));
        assert(clear_of(seq![start], None));
        lemma_dist_within(m, start, start, ROUTE_LIMIT as int, None, 0);
    }
    match layers.depth[goal.1][goal.0] {
        None => {
            proof {
                if maze.reaches(start, goal, false) {
                    lemma_dist_within(m, start, goal, ROUTE_LIMIT as int, None, ROUTE_LIMIT as int);
                }
            }
            None
        },
        Some(goal_depth) => {
            proof {
                assert(depth_at(layers, goal) == Some(goal_depth));
            }
            let back = trace_back(maze, &layers, start, goal);
            let route = reversed_cells(&back);
            proof {
                lemma_reversed_walk(m, back@, route@, start, goal);
                let j = choose|j: int| 0 <= j <= ROUTE_LIMIT && #[trigger] at_distance(m, start, goal, j, None);
                assert(j == goal_depth);
                assert(within(m, start, goal, ROUTE_LIMIT as int, None)) by {
                    assert(m.walk_between(route@, start, goal, false) && route@.len() <= ROUTE_LIMIT as int + 1 && clear_of(route@, None));
                }
                let t = tree_route(layers, goal, goal_depth as nat);
                lemma_tree_route(m, layers, start, None, ROUTE_LIMIT as int, goal, goal_depth as nat);
                assert(route@ =~= t) by {
                    assert forall|i: int| 0 <= i < route@.len() implies route@[i] == t[i] by {
                        assert(route@[i] == back@[back@.len() - 1 - i]);
                    }
                }
                assert forall|r2: Seq<Cell>| #[trigger] shortest_route(m, start, goal, r2) implies !turns_before(r2, route@) by {
                    lemma_tree_route_first(m, layers, start, goal, goal_depth as nat, r2);
                }
            }
            Some(route)
        },
    }
}

/// The first step of the first route from `start` to `goal` through open
/// sides (`goal` itself when already there), or `None` when no walk leads there.
pub fn next_step_toward(start: Cell, goal: Cell, maze: &MazeMap) -> (step: Option<Cell>)
    requires
        start == goal || in_grid(start),
    ensures
        start == goal ==> step == Some(goal),
        start != goal ==> (step is Some <==> maze.reaches(start, goal, false)),
        start != goal && step is Some ==> exists|r: Seq<Cell>|
            #[trigger] first_route(*maze, start, goal, r) && r[1] == step.unwrap(),
{
    if start.0 == goal.0 && start.1 == goal.1 {
        return Some(goal);
    }
    match route_between(start, goal, maze) {
        Some(route) => {
            proof {
                assert(route@.len() >= 2) by {
                    if route@.len() == 1 {
                        assert(route@[0] == route@.last());
                    }
                }
                assert(first_route(*maze, start, goal, route@));
            }
            Some(route[1])
        },
        None => None,
    }
}

/// How far the start cell must be from the exit before a search gives up.
/// Weight of cell `c` when judging the opening from `origin` into `first`:
/// six points at `first`, one fewer per step further, none beyond five steps
/// (never stepping back into `origin`).
pub open spec fn spawn_weight(m: MazeMap, origin: Cell, first: Cell, c: Cell) -> int {
    match dist_within(m, first, c, 5, Some(origin)) {
        Some(j) => 6 - j,
        None => 0,
    }
}

pub open spec fn spawn_score_upto(m: MazeMap, origin: Cell, first: Cell, n: int) -> int
    decreases n,
{
    if n <= 0 {
        0
    } else {
        spawn_score_upto(m, origin, first, n - 1) + spawn_weight(m, origin, first, cell_at(n - 1))
    }
}

/// How open the maze is beyond `first`, seen from `origin`: the sum of the
/// weights of all cells.
pub open spec fn spawn_score(m: MazeMap, origin: Cell, first: Cell) -> int {
    spawn_score_upto(m, origin, first, (MAZE_COLUMNS * MAZE_ROWS) as int)
}

pub fn spawn_direction_score(origin: Cell, first_cell: Cell, maze: &MazeMap) -> (score: u32)
    requires
        in_grid(origin),
        in_grid(first_cell),
    ensures
        score == spawn_score(*maze, origin, first_cell),
{
    let layers = bfs_layers(maze, first_cell, Some(origin), 5);
    let mut score: u32 = 0;
    let mut z: usize = 0;
    while z < MAZE_ROWS
        invariant
            0 <= z <= MAZE_ROWS,
            layers_of(*maze, first_cell, Some(origin), 5, layers),
            score == spawn_score_upto(*maze, origin, first_cell, z * MAZE_COLUMNS),
            score <= 6 * z * MAZE_COLUMNS,
        decreases MAZE_ROWS - z,
    {
        let mut x: usize = 0;
        while x < MAZE_COLUMNS
            invariant
                0 <= z < MAZE_ROWS,
                0 <= x <= MAZE_COLUMNS,
                layers_of(*maze, first_cell, Some(origin), 5, layers),
                score == spawn_score_upto(*maze, origin, first_cell, z * MAZE_COLUMNS + x),
                score <= 6 * (z * MAZE_COLUMNS + x),
            decreases MAZE_COLUMNS - x,
        {
            proof {
                lemma_cell_at(x, z);
                assert(depth_at(layers, (x, z)) == layers.depth[z as int][x as int]);
                if depth_at(layers, (x, z)) is Some {
                    let j = choose|j: int| 0 <= j <= 5 && #[trigger] at_distance(*maze, first_cell, (x, z), j, Some(origin));
                }
            }
            if let Some(d) = layers.depth[z][x] {
                score = score + (6 - d);
            }
            x = x + 1;
        }
        z = z + 1;
    }
    score
}

/// Scanning the directions in the order North, East, South, West, the best
/// opening so far from `c`: (direction, score, whether any was found). An
/// opening needs both sides of the wall open; a later one must score higher.
pub open spec fn spawn_pick(m: MazeMap, c: Cell, i: int) -> (Direction, int, bool)
    decreases i,
{
    if i <= 0 {
        (Direction::North, 0, false)
    } else {
        let prev = spawn_pick(m, c, i - 1);
        let d = direction_at(i - 1);
        if m.passage(c, d) {
            let score = spawn_score(m, c, neighbor_of(c, d).unwrap());
            if !prev.2 || score > prev.1 {
                (d, score, true)
            } else {
                prev
            }
        } else {
            prev
        }
    }
}

/// The direction to face at the start: the opening toward the most open
/// part of the maze, North when there is none.
pub fn best_spawn_direction(cell: Cell, maze: &MazeMap) -> (direction: Direction)
    requires
        in_grid(cell),
    ensures
        direction == spawn_pick(*maze, cell, 4).0,
{
    let mut best_direction = Direction::North;
    let mut best_score: u32 = 0;
    let mut found_opening = false;
    let mut i: usize = 0;
    while i < 4
        invariant
            0 <= i <= 4,
            in_grid(cell),
            spawn_pick(*maze, cell, i as int) == (best_direction, best_score as int, found_opening),
        decreases 4 - i,
    {
        let direction = direction_from_index(i);
        if !maze.has_wall(cell, direction) {
            if let Some(next) = neighbor_cell(cell, direction) {
                proof {
                    lemma_neighbor_back(cell, direction);
                }
                if !maze.has_wall(next, direction.opposite()) {
                    let score = spawn_direction_score(cell, next, maze);
                    if !found_opening || score > best_score {
                        found_opening = true;
                        best_direction = direction;
                        best_score = score;
                    }
                }
            }
        }
        i = i + 1;
    }
    best_direction
}

/// What the player has seen, cell by cell.
pub struct FogMemory {
    pub seen: CellFlags,
}

impl FogMemory {
    pub fn new() -> (memory: FogMemory)
        ensures
            forall|c: Cell| in_grid(c) ==> !#[trigger] flag(memory.seen, c),
    {
        FogMemory { seen: [[false; MAZE_COLUMNS]; MAZE_ROWS] }
    }
}

/// How far, in steps, the player sees through open sides.
pub const SIGHT_STEPS: u32 = 3;

/// Marks every cell within three steps of `origin` through open sides as
/// visible now and as seen.
pub fn reveal_visible_area(origin: Cell, maze: &MazeMap, visible: &mut CellFlags, fog_memory: &mut FogMemory)
    requires
        in_grid(origin),
    ensures
        forall|c: Cell| in_grid(c) ==> #[trigger] flag(*final(visible), c) == (flag(*old(visible), c)
            || dist_within(*maze, origin, c, SIGHT_STEPS as int, None) is Some),
        forall|c: Cell| in_grid(c) ==> #[trigger] flag(final(fog_memory).seen, c) == (flag(old(fog_memory).seen, c)
            || dist_within(*maze, origin, c, SIGHT_STEPS as int, None) is Some),
{
    let layers = bfs_layers(maze, origin, None, SIGHT_STEPS);
    let ghost v0 = *visible;
    let ghost s0 = fog_memory.seen;
    let mut z: usize = 0;
    while z < MAZE_ROWS
        invariant
            0 <= z <= MAZE_ROWS,
            layers_of(*maze, origin, None, SIGHT_STEPS as int, layers),
            forall|c: Cell| in_grid(c) ==> #[trigger] flag(*visible, c) == (flag(v0, c)
                || (c.1 < z && depth_at(layers, c) is Some)),
            forall|c: Cell| in_grid(c) ==> #[trigger] flag(fog_memory.seen, c) == (flag(s0, c)
                || (c.1 < z && depth_at(layers, c) is Some)),
        decreases MAZE_ROWS - z,
    {
        let mut x: usize = 0;
        while x < MAZE_COLUMNS
            invariant
                0 <= z < MAZE_ROWS,
                0 <= x <= MAZE_COLUMNS,
                layers_of(*maze, origin, None, SIGHT_STEPS as int, layers),
                forall|c: Cell| in_grid(c) ==> #[trigger] flag(*visible, c) == (flag(v0, c)
                    || ((c.1 < z || (c.1 == z && c.0 < x)) && depth_at(layers, c) is Some)),
                forall|c: Cell| in_grid(c) ==> #[trigger] flag(fog_memory.seen, c) == (flag(s0, c)
                    || ((c.1 < z || (c.1 == z && c.0 < x)) && depth_at(layers, c) is Some)),
            decreases MAZE_COLUMNS - x,
        {
            let ghost v1 = *visible;
            let ghost s1 = fog_memory.seen;
            if layers.depth[z][x].is_some() {
                visible[z][x] = true;
                fog_memory.seen[z][x] = true;
            }
            proof {
                assert(depth_at(layers, (x, z)) == layers.depth[z as int][x as int]);
                assert(flag(fog_memory.seen, (x, z)) == (flag(s1, (x, z)) || depth_at(layers, (x, z)) is Some));
                assert forall|c: Cell| in_grid(c) && c != (x, z) implies #[trigger] flag(*visible, c) == flag(v1, c) by {
                    assert(v1[c.1 as int][c.0 as int] == flag(v1, c));
                }
                assert forall|c: Cell| in_grid(c) && c != (x, z) implies #[trigger] flag(fog_memory.seen, c) == flag(s1, c) by {
                    assert(s1[c.1 as int][c.0 as int] == flag(s1, c));
                }
            }
            x = x + 1;
        }
        z = z + 1;
    }
}

/// Cell `c` borders visible cell `v` beyond its side `d`, through an edge
/// open on both sides.
pub open spec fn lit_from(m: MazeMap, visible: CellFlags, c: Cell, d: Direction) -> bool {
    match neighbor_of(c, d) {
        Some(v) => flag(visible, v) && m.passage(v, d.reverse()),
        None => false,
    }
}

/// Not visible, but bordering a visible cell through an open edge.
pub open spec fn dimmed(m: MazeMap, visible: CellFlags, c: Cell) -> bool {
    &&& !flag(visible, c)
    &&& (lit_from(m, visible, c, Direction::North) || lit_from(m, visible, c, Direction::East)
        || lit_from(m, visible, c, Direction::South) || lit_from(m, visible, c, Direction::West))
}

fn lit_from_side(maze: &MazeMap, visible: &CellFlags, cell: Cell, direction: Direction) -> (lit: bool)
    requires
        in_grid(cell),
    ensures
        lit == lit_from(*maze, *visible, cell, direction),
{
    match neighbor_cell(cell, direction) {
        Some(v) => {
            proof {
                lemma_neighbor_back(cell, direction);
            }
            visible[v.1][v.0] && !maze.has_wall(v, direction.opposite()) && !maze.has_wall(cell, direction)
        },
        None => false,
    }
}

/// The cells the fog only half hides: not visible, next to a visible cell
/// through an edge open on both sides.
pub fn fog_dimmed_cells(maze: &MazeMap, visible: &CellFlags) -> (dim: CellFlags)
    ensures
        forall|c: Cell| in_grid(c) ==> #[trigger] flag(dim, c) == dimmed(*maze, *visible, c),
{
    let mut dim: CellFlags = [[false; MAZE_COLUMNS]; MAZE_ROWS];
    let mut z: usize = 0;
    while z < MAZE_ROWS
        invariant
            0 <= z <= MAZE_ROWS,
            forall|c: Cell| in_grid(c) ==> #[trigger] flag(dim, c) == (c.1 < z && dimmed(*maze, *visible, c)),
        decreases MAZE_ROWS - z,
    {
        let mut x: usize = 0;
        while x < MAZE_COLUMNS
            invariant
                0 <= z < MAZE_ROWS,
                0 <= x <= MAZE_COLUMNS,
                forall|c: Cell| in_grid(c) ==> #[trigger] flag(dim, c) == ((c.1 < z || (c.1 == z && c.0 < x)) && dimmed(*maze, *visible, c)),
            decreases MAZE_COLUMNS - x,
        {
            let cell: Cell = (x, z);
            let ghost d1 = dim;
            if !visible[z][x] && (lit_from_side(maze, visible, cell, Direction::North)
                || lit_from_side(maze, visible, cell, Direction::East)
                || lit_from_side(maze, visible, cell, Direction::South)
                || lit_from_side(maze, visible, cell, Direction::West)) {
                dim[z][x] = true;
            }
            proof {
                assert forall|c: Cell| in_grid(c) && c != (x, z) implies #[trigger] flag(dim, c) == flag(d1, c) by {
                    assert(d1[c.1 as int][c.0 as int] == flag(d1, c));
                }
            }
            x = x + 1;
        }
        z = z + 1;
    }
    dim
}

/// How many steps lie between `c` and the grid's edge in direction `d`.
pub open spec fn axis_fuel(c: Cell, d: Direction) -> int {
    match d {
        Direction::North => MAZE_ROWS - c.1,
        Direction::East => MAZE_COLUMNS - c.0,
        Direction::South => c.1 + 1,
        Direction::West => c.0 + 1,
    }
}

/// Walking straight from `c` in direction `d`, every edge is open on both
/// sides until `g` is met.
pub open spec fn clear_axis(m: MazeMap, c: Cell, g: Cell, d: Direction) -> bool
    decreases axis_fuel(c, d),
{
    if c == g {
        true
    } else if !in_grid(c) {
        false
    } else if m.wall(c, d) {
        false
    } else {
        match neighbor_of(c, d) {
            None => false,
            Some(n) => if m.wall(n, d.reverse()) {
                false
            } else {
                clear_axis(m, n, g, d)
            },
        }
    }
}

pub fn has_clear_axis_path(current: Cell, goal: Cell, direction: Direction, maze: &MazeMap) -> (clear: bool)
    requires
        in_grid(current) || current == goal,
    ensures
        clear == clear_axis(*maze, current, goal, direction),
{
    let ghost start = current;
    let mut cursor = current;
    while !(cursor.0 == goal.0 && cursor.1 == goal.1)
        invariant
            in_grid(cursor) || cursor == goal,
            start == current,
            clear_axis(*maze, start, goal, direction) == clear_axis(*maze, cursor, goal, direction),
        decreases axis_fuel(cursor, direction),
    {
        proof {
            assert(cursor != goal);
            assert(in_grid(cursor));
        }
        if maze.has_wall(cursor, direction) {
            assert(!clear_axis(*maze, cursor, goal, direction));
            assert(!clear_axis(*maze, start, goal, direction));
            return false;
        }
        let next = match neighbor_cell(cursor, direction) {
            Some(n) => n,
            None => {
                assert(!clear_axis(*maze, cursor, goal, direction));
                return false;
            },
        };
        proof {
            lemma_neighbor_back(cursor, direction);
        }
        if maze.has_wall(next, direction.opposite()) {
            assert(!clear_axis(*maze, cursor, goal, direction));
            return false;
        }
        cursor = next;
    }
    true
}

/// Sound carries straight between two cells in one row or column when every
/// edge between them is open on both sides.
pub open spec fn clear_sound_line(m: MazeMap, start: Cell, goal: Cell) -> bool {
    if start == goal {
        true
    } else if start.0 == goal.0 {
        clear_axis(m, start, goal, if goal.1 > start.1 { Direction::North } else { Direction::South })
    } else if start.1 == goal.1 {
        clear_axis(m, start, goal, if goal.0 > start.0 { Direction::East } else { Direction::West })
    } else {
        false
    }
}

/// The edge between cells (x, z) and (x, z + 1) is open on both sides.
pub open spec fn column_edge_open(m: MazeMap, x: usize, z: int) -> bool {
    !m.wall((x, z as usize), Direction::North) && !m.wall((x, (z + 1) as usize), Direction::South)
}

/// The edge between cells (x, z) and (x + 1, z) is open on both sides.
pub open spec fn row_edge_open(m: MazeMap, x: int, z: usize) -> bool {
    !m.wall((x as usize, z), Direction::East) && !m.wall(((x + 1) as usize, z), Direction::West)
}

proof fn lemma_clear_north(m: MazeMap, c: Cell, g: Cell)
    requires
        in_grid(c),
        in_grid(g),
        c.0 == g.0,
        c.1 <= g.1,
    ensures
        clear_axis(m, c, g, Direction::North) <==> forall|z: int|
            c.1 <= z < g.1 ==> #[trigger] column_edge_open(m, c.0, z),
    decreases g.1 - c.1,
{
    if c != g {
        let n: Cell = (c.0, (c.1 + 1) as usize);
        assert(neighbor_of(c, Direction::North) == Some(n));
        lemma_clear_north(m, n, g);
        assert(c == (c.0, c.1 as int as usize));
        let lo = c.1 as int;
        assert(column_edge_open(m, c.0, lo) == (!m.wall(c, Direction::North) && !m.wall(n, Direction::South)));
        assert(clear_axis(m, c, g, Direction::North) == (column_edge_open(m, c.0, lo) && clear_axis(m, n, g, Direction::North)));
        if forall|z: int| c.1 <= z < g.1 ==> #[trigger] column_edge_open(m, c.0, z) {
            assert(column_edge_open(m, c.0, lo));
        }
    }
}

proof fn lemma_clear_south(m: MazeMap, c: Cell, g: Cell)
    requires
        in_grid(c),
        in_grid(g),
        c.0 == g.0,
        g.1 <= c.1,
    ensures
        clear_axis(m, c, g, Direction::South) <==> forall|z: int|
            g.1 <= z < c.1 ==> #[trigger] column_edge_open(m, c.0, z),
    decreases c.1 - g.1,
{
    if c != g {
        let n: Cell = (c.0, (c.1 - 1) as usize);
        assert(neighbor_of(c, Direction::South) == Some(n));
        lemma_clear_south(m, n, g);
        assert(c == (c.0, ((c.1 - 1) + 1) as usize));
        assert(n == (c.0, (c.1 - 1) as usize));
        let hi = c.1 - 1;
        assert(column_edge_open(m, c.0, hi) == (!m.wall(n, Direction::North) && !m.wall(c, Direction::South)));
        assert(clear_axis(m, c, g, Direction::South) == (column_edge_open(m, c.0, hi) && clear_axis(m, n, g, Direction::South)));
        if forall|z: int| g.1 <= z < c.1 ==> #[trigger] column_edge_open(m, c.0, z) {
            assert(column_edge_open(m, c.0, hi));
        }
    }
}

proof fn lemma_clear_east(m: MazeMap, c: Cell, g: Cell)
    requires
        in_grid(c),
        in_grid(g),
        c.1 == g.1,
        c.0 <= g.0,
    ensures
        clear_axis(m, c, g, Direction::East) <==> forall|x: int|
            c.0 <= x < g.0 ==> #[trigger] row_edge_open(m, x, c.1),
    decreases g.0 - c.0,
{
    if c != g {
        let n: Cell = ((c.0 + 1) as usize, c.1);
        assert(neighbor_of(c, Direction::East) == Some(n));
        lemma_clear_east(m, n, g);
        assert(c == (c.0 as int as usize, c.1));
        let lo = c.0 as int;
        assert(row_edge_open(m, lo, c.1) == (!m.wall(c, Direction::East) && !m.wall(n, Direction::West)));
        assert(clear_axis(m, c, g, Direction::East) == (row_edge_open(m, lo, c.1) && clear_axis(m, n, g, Direction::East)));
        if forall|x: int| c.0 <= x < g.0 ==> #[trigger] row_edge_open(m, x, c.1) {
            assert(row_edge_open(m, lo, c.1));
        }
    }
}

proof fn lemma_clear_west(m: MazeMap, c: Cell, g: Cell)
    requires
        in_grid(c),
        in_grid(g),
        c.1 == g.1,
        g.0 <= c.0,
    ensures
        clear_axis(m, c, g, Direction::West) <==> forall|x: int|
            g.0 <= x < c.0 ==> #[trigger] row_edge_open(m, x, c.1),
    decreases c.0 - g.0,
{
    if c != g {
        let n: Cell = ((c.0 - 1) as usize, c.1);
        assert(neighbor_of(c, Direction::West) == Some(n));
        lemma_clear_west(m, n, g);
        assert(c == (((c.0 - 1) + 1) as usize, c.1));
        let hi = c.0 - 1;
        assert(n == (hi as usize, c.1));
        assert(row_edge_open(m, hi, c.1) == (!m.wall(n, Direction::East) && !m.wall(c, Direction::West)));
        assert(clear_axis(m, c, g, Direction::West) == (row_edge_open(m, hi, c.1) && clear_axis(m, n, g, Direction::West)));
        if forall|x: int| g.0 <= x < c.0 ==> #[trigger] row_edge_open(m, x, c.1) {
            assert(row_edge_open(m, hi, c.1));
        }
    }
}

/// A squeak carries straight to the player exactly when both stand in one
/// column or one row and every edge between them is open on both sides.
pub proof fn law_sound_follows_open_straight_lines(m: MazeMap, a: Cell, b: Cell)
    requires
        in_grid(a),
        in_grid(b),
    ensures
        a.0 == b.0 ==> (clear_sound_line(m, a, b) <==> forall|z: int|
            (if a.1 <= b.1 { a.1 as int } else { b.1 as int }) <= z < (if a.1 <= b.1 { b.1 as int } else { a.1 as int })
                ==> #[trigger] column_edge_open(m, a.0, z)),
        a.1 == b.1 ==> (clear_sound_line(m, a, b) <==> forall|x: int|
            (if a.0 <= b.0 { a.0 as int } else { b.0 as int }) <= x < (if a.0 <= b.0 { b.0 as int } else { a.0 as int })
                ==> #[trigger] row_edge_open(m, x, a.1)),
        a.0 != b.0 && a.1 != b.1 ==> !clear_sound_line(m, a, b),
{
    if a.0 == b.0 {
        if a.1 <= b.1 {
            lemma_clear_north(m, a, b);
        } else {
            lemma_clear_south(m, a, b);
        }
    }
    if a.1 == b.1 {
        if a.0 <= b.0 {
            lemma_clear_east(m, a, b);
        } else {
            lemma_clear_west(m, a, b);
        }
    }
}

pub fn has_clear_sound_line(start: Cell, goal: Cell, maze: &MazeMap) -> (clear: bool)
    requires
        in_grid(start),
    ensures
        clear == clear_sound_line(*maze, start, goal),
{
    if start.0 == goal.0 && start.1 == goal.1 {
        return true;
    }
    if start.0 == goal.0 {
        let direction = if goal.1 > start.1 {
            Direction::North
        } else {
            Direction::South
        };
        return has_clear_axis_path(start, goal, direction, maze);
    }
    if start.1 == goal.1 {
        let direction = if goal.0 > start.0 {
            Direction::East
        } else {
            Direction::West
        };
        return has_clear_axis_path(start, goal, direction, maze);
    }
    false
}

} // verus!
