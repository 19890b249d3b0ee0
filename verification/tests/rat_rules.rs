use monkey_miner::maze::{neighbor_cell, Direction, MazeMap};
use monkey_miner::rat::{choose_rat_target, echo_direction, rat_neighbors, squeak_plan, RatBrain};

fn open_edge(maze: &mut MazeMap, cell: (usize, usize), direction: Direction) {
    maze.set_wall(cell, direction, false);
    if let Some(next) = neighbor_cell(cell, direction) {
        maze.set_wall(next, direction.opposite(), false);
    }
}

fn crossroads() -> MazeMap {
    let mut maze = MazeMap::closed();
    for d in [Direction::North, Direction::East, Direction::South, Direction::West] {
        open_edge(&mut maze, (5, 5), d);
    }
    maze
}

#[test]
fn rat_ways_out_need_both_sides_open() {
    let mut maze = crossroads();
    assert_eq!(
        rat_neighbors((5, 5), &maze),
        vec![
            (Direction::North, (5, 6)),
            (Direction::East, (6, 5)),
            (Direction::South, (5, 4)),
            (Direction::West, (4, 5)),
        ]
    );
    maze.set_wall((6, 5), Direction::West, true);
    assert_eq!(rat_neighbors((5, 5), &maze).len(), 3);
}

#[test]
fn wandering_rat_does_not_turn_back() {
    let maze = crossroads();
    let mut seen = Vec::new();
    for _ in 0..200 {
        let target = choose_rat_target((5, 5), Some(Direction::East), &maze);
        assert_ne!(target, (4, 5));
        if !seen.contains(&target) {
            seen.push(target);
        }
    }
    assert_eq!(seen.len(), 3);
}

#[test]
fn rat_turns_back_only_at_a_dead_end() {
    let mut maze = MazeMap::closed();
    open_edge(&mut maze, (5, 5), Direction::West);
    assert_eq!(choose_rat_target((5, 5), Some(Direction::East), &maze), (4, 5));
    let closed = MazeMap::closed();
    assert_eq!(choose_rat_target((5, 5), None, &closed), (5, 5));
}

#[test]
fn hunting_rat_heads_for_the_player() {
    let mut maze = MazeMap::closed();
    for x in 2..8 {
        open_edge(&mut maze, (x, 3), Direction::East);
    }
    let mut rat = RatBrain::new((6, 3));
    assert!(rat.retarget(Some((2, 3)), &maze));
    assert!(rat.hunting);
    assert_eq!(rat.target_cell, (5, 3));
    // Not yet at its target: nothing changes.
    assert!(!rat.retarget(Some((2, 3)), &maze));
    assert_eq!(rat.target_cell, (5, 3));
    rat.arrive(false);
    assert_eq!(rat.cell, (5, 3));
    assert_eq!(rat.target_cell, (5, 3));
    assert_eq!(rat.last_direction, Some(Direction::West));
    // Already hunting: it does not begin again.
    assert!(!rat.retarget(Some((2, 3)), &maze));
    assert_eq!(rat.target_cell, (4, 3));
    // Beside the player the rat stays put.
    let before = (rat.cell, rat.target_cell, rat.last_direction);
    rat.arrive(true);
    assert_eq!((rat.cell, rat.target_cell, rat.last_direction), before);
}

#[test]
fn rat_without_a_player_cell_wanders() {
    let maze = crossroads();
    let mut rat = RatBrain::new((5, 5));
    assert!(!rat.retarget(None, &maze));
    assert!(!rat.hunting);
    assert_ne!(rat.target_cell, (5, 5));
    let mut beside = RatBrain::new((5, 5));
    assert!(!beside.retarget(Some((5, 5)), &maze));
    assert_eq!(beside.target_cell, (5, 5));
}

#[test]
fn squeaks_echo_around_corners() {
    let mut maze = MazeMap::closed();
    for x in 0..4 {
        open_edge(&mut maze, (x, 0), Direction::East);
    }
    open_edge(&mut maze, (4, 0), Direction::North);
    open_edge(&mut maze, (4, 1), Direction::North);
    // Straight line along the row: heard directly.
    let plan = squeak_plan((0, 0), (3, 0), &maze);
    assert_eq!(plan.route_steps, Some(3));
    assert!(!plan.use_echo);
    assert_eq!(plan.echo_direction, Some(Direction::East));
    // Round the corner, six steps: an echo through the player's east doorway.
    let plan = squeak_plan((0, 0), (4, 2), &maze);
    assert_eq!(plan.route_steps, Some(6));
    assert!(plan.use_echo);
    assert_eq!(plan.echo_direction, Some(Direction::East));
    // Unreachable: an echo, with no doorway to come through.
    let plan = squeak_plan((0, 0), (9, 9), &maze);
    assert_eq!(plan.route_steps, None);
    assert!(plan.use_echo);
    assert_eq!(plan.echo_direction, None);
    // One step away round no corner: never an echo.
    let plan = squeak_plan((4, 0), (4, 1), &maze);
    assert!(!plan.use_echo);
}

#[test]
fn echo_comes_through_the_first_doorway_of_the_route() {
    assert_eq!(echo_direction((2, 2), &vec![(2, 2), (2, 3), (2, 4)]), Some(Direction::North));
    assert_eq!(echo_direction((2, 2), &vec![(2, 2)]), None);
}
