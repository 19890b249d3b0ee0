//! The rat: where it heads next, and how its squeaks carry through the maze.
use vstd::prelude::*;
use crate::maze::{
    Cell, Direction, MazeMap, in_grid, neighbor_cell, neighbor_of, direction_between,
    step_direction, direction_from_index, direction_at, same_cell, lemma_neighbor_back,
};
use crate::search::{
    route_between, next_step_toward, has_clear_sound_line, clear_sound_line, first_route,
    at_distance,
};
use crate::random::choose_one;

verus! {

/// `c`'s side `d` as a way out for the rat: an edge open on both sides.
pub open spec fn rat_side(m: MazeMap, c: Cell, d: Direction) -> Seq<(Direction, Cell)> {
    if m.passage(c, d) {
        seq![(d, neighbor_of(c, d).unwrap())]
    } else {
        seq![]
    }
}

/// The rat's ways out of `c`, in the order North, East, South, West.
pub open spec fn rat_neighbor_list(m: MazeMap, c: Cell) -> Seq<(Direction, Cell)> {
    rat_side(m, c, Direction::North) + rat_side(m, c, Direction::East) + rat_side(
        m,
        c,
        Direction::South,
    ) + rat_side(m, c, Direction::West)
}

fn push_rat_side(cell: Cell, direction: Direction, maze: &MazeMap, out: &mut Vec<(Direction, Cell)>)
    requires
        in_grid(cell),
    ensures
        final(out)@ == old(out)@ + rat_side(*maze, cell, direction),
{
    if !maze.has_wall(cell, direction) {
        if let Some(next) = neighbor_cell(cell, direction) {
            proof {
                lemma_neighbor_back(cell, direction);
            }
            if !maze.has_wall(next, direction.opposite()) {
                out.push((direction, next));
            }
        }
    }
}

pub fn rat_neighbors(cell: Cell, maze: &MazeMap) -> (ways: Vec<(Direction, Cell)>)
    requires
        in_grid(cell),
    ensures
        ways@ == rat_neighbor_list(*maze, cell),
{
    let mut ways: Vec<(Direction, Cell)> = Vec::new();
    push_rat_side(cell, Direction::North, maze, &mut ways);
    push_rat_side(cell, Direction::East, maze, &mut ways);
    push_rat_side(cell, Direction::South, maze, &mut ways);
    push_rat_side(cell, Direction::West, maze, &mut ways);
    ways
}

/// The entries of `s` not heading in direction `d`, in order.
pub open spec fn without_direction(s: Seq<(Direction, Cell)>, d: Direction) -> Seq<(Direction, Cell)>
    decreases s.len(),
{
    if s.len() == 0 {
        seq![]
    } else {
        without_direction(s.drop_last(), d) + if s.last().0 == d {
            seq![]
        } else {
            seq![s.last()]
        }
    }
}

/// Where the wandering rat may go from `c`: its ways out, but not straight
/// back the way it came unless that is the only way.
pub open spec fn rat_options(m: MazeMap, c: Cell, last: Option<Direction>) -> Seq<(Direction, Cell)> {
    let all = rat_neighbor_list(m, c);
    match last {
        Some(l) => if all.len() > 1 {
            without_direction(all, l.reverse())
        } else {
            all
        },
        None => all,
    }
}

fn drop_direction(ways: &Vec<(Direction, Cell)>, d: Direction) -> (kept: Vec<(Direction, Cell)>)
    ensures
        kept@ == without_direction(ways@, d),
{
    let mut kept: Vec<(Direction, Cell)> = Vec::new();
    let mut i: usize = 0;
    while i < ways.len()
        invariant
            0 <= i <= ways@.len(),
            kept@ == without_direction(ways@.subrange(0, i as int), d),
        decreases ways@.len() - i,
    {
        let way = ways[i];
        proof {
            assert(ways@.subrange(0, i + 1).drop_last() == ways@.subrange(0, i as int));
        }
        if way.0 != d {
            kept.push(way);
        }
        i = i + 1;
    }
    proof {
        assert(ways@.subrange(0, ways@.len() as int) == ways@);
    }
    kept
}

/// A random next cell for the wandering rat among its options; its own cell
/// when it has none.
pub fn choose_rat_target(cell: Cell, last_direction: Option<Direction>, maze: &MazeMap) -> (target: Cell)
    requires
        in_grid(cell),
    ensures
        rat_options(*maze, cell, last_direction).len() == 0 ==> target == cell,
        rat_options(*maze, cell, last_direction).len() > 0 ==> exists|i: int|
            0 <= i < rat_options(*maze, cell, last_direction).len()
                && #[trigger] rat_options(*maze, cell, last_direction)[i].1 == target,
{
    let mut options = rat_neighbors(cell, maze);
    if let Some(last) = last_direction {
        let reverse = last.opposite();
        if options.len() > 1 {
            options = drop_direction(&options, reverse);
        }
    }
    match choose_one(&options) {
        Some(way) => {
            proof {
                let i = choose|i: int| 0 <= i < options@.len() && options@[i] == way;
                assert(options@[i].1 == way.1);
            }
            way.1
        },
        None => cell,
    }
}

/// What the rat knows of itself between frames.
#[derive(Clone, Copy)]
pub struct RatBrain {
    pub cell: Cell,
    pub target_cell: Cell,
    pub last_direction: Option<Direction>,
    pub hunting: bool,
}

impl RatBrain {
    pub fn new(cell: Cell) -> (rat: RatBrain)
        ensures
            rat.cell == cell,
            rat.target_cell == cell,
            rat.last_direction is None,
            !rat.hunting,
    {
        RatBrain { cell, target_cell: cell, last_direction: None, hunting: false }
    }

    /// At its target and not beside the player, the rat picks a new target:
    /// while it knows the player's cell it hunts, heading to the next cell of
    /// the first route to the player (wandering when there is none);
    /// otherwise it wanders. Returns whether it has just begun to hunt.
    pub fn retarget(&mut self, player_cell: Option<Cell>, maze: &MazeMap) -> (began_hunt: bool)
        requires
            in_grid(old(self).cell),
        ensures
            final(self).cell == old(self).cell,
            final(self).last_direction == old(self).last_direction,
            player_cell == Some(old(self).cell) || old(self).cell != old(self).target_cell ==> *final(self) == *old(self) && !began_hunt,
            player_cell != Some(old(self).cell) && old(self).cell == old(self).target_cell ==> {
                let c = old(self).cell;
                let options = rat_options(*maze, c, old(self).last_direction);
                let wander = (options.len() == 0 ==> final(self).target_cell == c)
                    && (options.len() > 0 ==> exists|i: int| 0 <= i < options.len() && #[trigger] options[i].1 == final(self).target_cell);
                match player_cell {
                    Some(p) => {
                        &&& final(self).hunting
                        &&& began_hunt == !old(self).hunting
                        &&& maze.reaches(c, p, false) ==> exists|r: Seq<Cell>|
                            #[trigger] first_route(*maze, c, p, r) && r[1] == final(self).target_cell
                        &&& !maze.reaches(c, p, false) ==> wander
                    },
                    None => final(self).hunting == old(self).hunting && !began_hunt && wander,
                }
            },
    {
        let same_player_cell = match player_cell {
            Some(p) => same_cell(p, self.cell),
            None => false,
        };
        if same_player_cell || !same_cell(self.cell, self.target_cell) {
            return false;
        }
        match player_cell {
            Some(p) => {
                let began = !self.hunting;
                self.hunting = true;
                self.target_cell = match next_step_toward(self.cell, p, maze) {
                    Some(step) => step,
                    None => choose_rat_target(self.cell, self.last_direction, maze),
                };
                began
            },
            None => {
                self.target_cell = choose_rat_target(self.cell, self.last_direction, maze);
                false
            },
        }
    }

    /// The rat has come to its target (or to the player): it moves into the
    /// target cell, remembering the direction it came, and the target becomes
    /// its cell. Beside the player it stays as it is.
    pub fn arrive(&mut self, beside_player: bool)
        ensures
            beside_player ==> *final(self) == *old(self),
            !beside_player ==> {
                &&& final(self).cell == old(self).target_cell
                &&& final(self).target_cell == old(self).target_cell
                &&& final(self).hunting == old(self).hunting
                &&& final(self).last_direction == if old(self).cell != old(self).target_cell {
                    step_direction(old(self).cell, old(self).target_cell)
                } else {
                    old(self).last_direction
                }
            },
    {
        if beside_player {
            return;
        }
        if !same_cell(self.cell, self.target_cell) {
            self.last_direction = direction_between(self.cell, self.target_cell);
            self.cell = self.target_cell;
        }
        self.target_cell = self.cell;
    }
}

/// The direction from `player` into the second cell of `route`, if any.
pub open spec fn echo_dir(player: Cell, route: Seq<Cell>) -> Option<Direction> {
    if route.len() >= 2 {
        step_direction(player, route[1])
    } else {
        None
    }
}

pub fn echo_direction(player_cell: Cell, route: &Vec<Cell>) -> (d: Option<Direction>)
    ensures
        d == echo_dir(player_cell, route@),
{
    if route.len() >= 2 {
        direction_between(player_cell, route[1])
    } else {
        None
    }
}

/// How a squeak reaches the player.
pub struct SqueakPlan {
    /// Steps along a shortest route from the player to the rat, if one exists.
    pub route_steps: Option<usize>,
    /// Heard as an echo: no straight open line, and the rat not within a step.
    pub use_echo: bool,
    /// The doorway of the player's cell the echo comes through: the first
    /// step of the first route from the player to the rat.
    pub echo_direction: Option<Direction>,
}

/// How the rat's next squeak reaches the player.
pub fn squeak_plan(player_cell: Cell, rat_cell: Cell, maze: &MazeMap) -> (plan: SqueakPlan)
    requires
        in_grid(player_cell),
    ensures
        plan.route_steps is Some <==> maze.reaches(player_cell, rat_cell, false),
        plan.route_steps matches Some(k) ==> at_distance(*maze, player_cell, rat_cell, k as int, None),
        plan.use_echo == (!clear_sound_line(*maze, player_cell, rat_cell) && match plan.route_steps {
            Some(k) => k >= 2,
            None => true,
        }),
        maze.reaches(player_cell, rat_cell, false) ==> exists|r: Seq<Cell>|
            #[trigger] first_route(*maze, player_cell, rat_cell, r) && plan.echo_direction == echo_dir(player_cell, r),
        !maze.reaches(player_cell, rat_cell, false) ==> plan.echo_direction is None,
{
    let route = route_between(player_cell, rat_cell, maze);
    let route_steps = match &route {
        Some(r) => Some(if r.len() >= 1 { r.len() - 1 } else { 0 }),
        None => None,
    };
    let clear_line = has_clear_sound_line(player_cell, rat_cell, maze);
    let use_echo = !clear_line && match route_steps {
        Some(k) => k >= 2,
        None => true,
    };
    let echo = match &route {
        Some(r) => echo_direction(player_cell, r),
        None => None,
    };
    proof {
        if let Some(r) = route {
            assert(first_route(*maze, player_cell, rat_cell, r@));
        }
    }
    SqueakPlan { route_steps, use_echo, echo_direction: echo }
}

} // verus!
