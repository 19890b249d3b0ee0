use monkey_miner::maze::{neighbor_cell, Direction, MazeMap, MAZE_COLUMNS, MAZE_ROWS};
use monkey_miner::placement::{
    chest_cells, chest_treasure_total, exit_door, far_spawn_candidate, key_cell_on_exit_route,
    key_cell_on_route, navigation_candidates, navigation_pickup_cells, pick_navigation_cells,
    treasure_cells, RAT_SPAWN_CELL,
};

fn open_edge(maze: &mut MazeMap, cell: (usize, usize), direction: Direction) {
    maze.set_wall(cell, direction, false);
    if let Some(next) = neighbor_cell(cell, direction) {
        maze.set_wall(next, direction.opposite(), false);
    }
}

/// A snake through the whole grid: along row 0 east, up, row 1 west, ...
fn snake() -> MazeMap {
    let mut maze = MazeMap::closed();
    for z in 0..MAZE_ROWS {
        for x in 0..MAZE_COLUMNS - 1 {
            open_edge(&mut maze, (x, z), Direction::East);
        }
        if z + 1 < MAZE_ROWS {
            let x = if z % 2 == 0 { MAZE_COLUMNS - 1 } else { 0 };
            open_edge(&mut maze, (x, z), Direction::North);
        }
    }
    maze
}

#[test]
fn treasure_sits_in_far_dead_ends() {
    let mut maze = MazeMap::closed();
    // Dead ends: (5,5)-(6,5) pair, and (1,0) next to the start.
    open_edge(&mut maze, (5, 5), Direction::East);
    open_edge(&mut maze, (0, 0), Direction::East);
    assert_eq!(treasure_cells(&maze, (0, 0)), vec![(5, 5), (6, 5)]);
    // A cell with two open sides is no dead end.
    open_edge(&mut maze, (6, 5), Direction::North);
    assert_eq!(treasure_cells(&maze, (0, 0)), vec![(5, 5), (6, 6)]);
}

#[test]
fn chests_take_the_first_three_dead_ends() {
    let mut maze = MazeMap::closed();
    open_edge(&mut maze, (1, 1), Direction::East);
    open_edge(&mut maze, (4, 1), Direction::East);
    open_edge(&mut maze, (6, 6), Direction::North);
    let chests = chest_cells(&maze, (0, 0), (2, 1));
    // (2,1) is the key cell; (6,6) is the rat's.
    assert_eq!(chests, vec![(1, 1), (4, 1), (5, 1)]);
    assert_eq!(chest_treasure_total(chests.len()), 6);
    assert_eq!(RAT_SPAWN_CELL, (6, 6));
}

#[test]
fn the_door_stands_in_the_exit_chambers_first_opening() {
    let mut maze = MazeMap::closed();
    assert_eq!(exit_door(&maze), None);
    open_edge(&mut maze, (11, 11), Direction::West);
    assert_eq!(exit_door(&maze), Some(((10, 11), Direction::East)));
    open_edge(&mut maze, (11, 11), Direction::South);
    assert_eq!(exit_door(&maze), Some(((11, 10), Direction::North)));
}

#[test]
fn far_spawn_prefers_the_farthest_reachable_cell() {
    let mut maze = MazeMap::closed();
    for x in 0..9 {
        open_edge(&mut maze, (x, 0), Direction::East);
    }
    assert_eq!(far_spawn_candidate((0, 0), (11, 11), &maze, 8), Some((9, 0)));
    assert_eq!(far_spawn_candidate((0, 0), (11, 11), &maze, 10), None);
    assert_eq!(far_spawn_candidate((0, 0), (9, 0), &maze, 8), Some((8, 0)));
}

#[test]
fn key_goes_along_the_route() {
    let route: Vec<(usize, usize)> = (0..12).map(|x| (x, 0)).collect();
    // Twelve cells: furthest 10, min index 8, preferred 7 clamped to 8.
    assert_eq!(key_cell_on_route((0, 0), &route), Some((8, 0)));
    let short = vec![(0, 0), (1, 0)];
    assert_eq!(key_cell_on_route((0, 0), &short), None);
    let near: Vec<(usize, usize)> = (0..5).map(|x| (x, 0)).collect();
    // No cell is eight steps away: the furthest, (3,0), is taken.
    assert_eq!(key_cell_on_route((0, 0), &near), Some((3, 0)));
}

#[test]
fn key_cell_lies_on_the_exit_route() {
    let maze = snake();
    let key = key_cell_on_exit_route((0, 0), (11, 11), &maze);
    // The route runs rows 0 to 10 and then up into the exit: 133 cells, the
    // search starting at index 79, row 6 going east.
    assert_eq!(key, (7, 6));
    let closed = MazeMap::closed();
    assert_eq!(key_cell_on_exit_route((0, 0), (11, 11), &closed), (0, 0));
}

#[test]
fn navigation_pickups_pick_two_different_candidates() {
    let maze = snake();
    let candidates = navigation_candidates(&maze, (0, 0), (7, 6));
    assert!(!candidates.contains(&(7, 6)));
    assert!(!candidates.contains(&(6, 6)));
    assert!(candidates.iter().all(|c| c.0 + c.1 >= 5));
    assert_eq!(pick_navigation_cells(&vec![(3, 3), (3, 3), (4, 4)], (0, 0)), ((3, 3), (4, 4)));
    assert_eq!(pick_navigation_cells(&vec![(3, 3)], (1, 1)), ((3, 3), (1, 1)));
    assert_eq!(pick_navigation_cells(&Vec::new(), (1, 1)), ((1, 1), (1, 1)));
    let (compass, map) = navigation_pickup_cells(&maze, (0, 0), (7, 6));
    assert!(candidates.contains(&compass));
    assert!(candidates.contains(&map));
    assert_ne!(compass, map);
    let varies = (0..20).any(|_| navigation_pickup_cells(&maze, (0, 0), (7, 6)).0 != compass);
    assert!(varies);
}
