use monkey_miner::maze::{neighbor_cell, Direction, MazeMap, MAZE_COLUMNS, MAZE_ROWS};
use monkey_miner::search::{
    best_spawn_direction, fog_dimmed_cells, has_clear_axis_path, has_clear_sound_line,
    next_step_toward, reveal_visible_area, route_between, spawn_direction_score, FogMemory,
};

fn open_edge(maze: &mut MazeMap, cell: (usize, usize), direction: Direction) {
    maze.set_wall(cell, direction, false);
    if let Some(next) = neighbor_cell(cell, direction) {
        maze.set_wall(next, direction.opposite(), false);
    }
}

/// A corridor along row 0 from (0,0) to (7,0).
fn row_corridor(len: usize) -> MazeMap {
    let mut maze = MazeMap::closed();
    for x in 0..len - 1 {
        open_edge(&mut maze, (x, 0), Direction::East);
    }
    maze
}

#[test]
fn route_follows_the_corridor() {
    let maze = row_corridor(8);
    let route = route_between((0, 0), (5, 0), &maze).unwrap();
    assert_eq!(route, vec![(0, 0), (1, 0), (2, 0), (3, 0), (4, 0), (5, 0)]);
    assert_eq!(route_between((3, 0), (3, 0), &maze), Some(vec![(3, 0)]));
    assert_eq!(route_between((0, 0), (0, 1), &maze), None);
    assert_eq!(route_between((0, 0), (20, 0), &maze), None);
}

#[test]
fn route_takes_the_shorter_way_round_a_loop() {
    let mut maze = MazeMap::closed();
    // A square loop: (0,0)-(1,0)-(2,0) and (0,0)-(0,1)-(0,2)-(1,2)-(2,2)-(2,1)-(2,0).
    open_edge(&mut maze, (0, 0), Direction::East);
    open_edge(&mut maze, (1, 0), Direction::East);
    open_edge(&mut maze, (0, 0), Direction::North);
    open_edge(&mut maze, (0, 1), Direction::North);
    open_edge(&mut maze, (0, 2), Direction::East);
    open_edge(&mut maze, (1, 2), Direction::East);
    open_edge(&mut maze, (2, 2), Direction::South);
    open_edge(&mut maze, (2, 1), Direction::South);
    let route = route_between((0, 0), (2, 1), &maze).unwrap();
    assert_eq!(route, vec![(0, 0), (1, 0), (2, 0), (2, 1)]);
    let route = route_between((0, 0), (1, 2), &maze).unwrap();
    assert_eq!(route, vec![(0, 0), (0, 1), (0, 2), (1, 2)]);
}

#[test]
fn one_sided_openings_can_be_walked_one_way() {
    let mut maze = MazeMap::closed();
    maze.set_wall((0, 0), Direction::East, false);
    assert!(route_between((0, 0), (1, 0), &maze).is_some());
    assert!(route_between((1, 0), (0, 0), &maze).is_none());
}

#[test]
fn next_step_heads_along_the_route() {
    let maze = row_corridor(8);
    assert_eq!(next_step_toward((2, 0), (2, 0), &maze), Some((2, 0)));
    assert_eq!(next_step_toward((2, 0), (6, 0), &maze), Some((3, 0)));
    assert_eq!(next_step_toward((6, 0), (2, 0), &maze), Some((5, 0)));
    assert_eq!(next_step_toward((2, 0), (2, 5), &maze), None);
}

#[test]
fn spawn_score_weighs_cells_by_distance() {
    let maze = row_corridor(3);
    // (1,0) is one step out, (2,0) two: 6 + 5.
    assert_eq!(spawn_direction_score((0, 0), (1, 0), &maze), 11);
    let long = row_corridor(12);
    // Six cells within reach, weights 6 down to 1.
    assert_eq!(spawn_direction_score((0, 0), (1, 0), &long), 21);
    // Never stepping back into the origin.
    assert_eq!(spawn_direction_score((2, 0), (1, 0), &long), 6 + 5);
}

#[test]
fn spawn_faces_the_more_open_side() {
    let mut maze = row_corridor(6);
    open_edge(&mut maze, (0, 0), Direction::North);
    assert_eq!(best_spawn_direction((0, 0), &maze), Direction::East);
    let closed = MazeMap::closed();
    assert_eq!(best_spawn_direction((3, 3), &closed), Direction::North);
    let mut single = MazeMap::closed();
    open_edge(&mut single, (3, 3), Direction::West);
    assert_eq!(best_spawn_direction((3, 3), &single), Direction::West);
}

#[test]
fn sight_reaches_three_steps() {
    let maze = row_corridor(8);
    let mut visible = [[false; MAZE_COLUMNS]; MAZE_ROWS];
    let mut memory = FogMemory::new();
    reveal_visible_area((2, 0), &maze, &mut visible, &mut memory);
    for x in 0..8 {
        assert_eq!(visible[0][x], x <= 5, "cell {x}");
        assert_eq!(memory.seen[0][x], x <= 5);
    }
    assert!(!visible[1][2]);
    let mut later = [[false; MAZE_COLUMNS]; MAZE_ROWS];
    reveal_visible_area((7, 0), &maze, &mut later, &mut memory);
    assert!(memory.seen[0][0] && memory.seen[0][7]);
    assert!(!later[0][3]);
}

#[test]
fn fog_thins_next_to_what_is_visible() {
    let maze = row_corridor(8);
    let mut visible = [[false; MAZE_COLUMNS]; MAZE_ROWS];
    visible[0][2] = true;
    visible[0][3] = true;
    let dim = fog_dimmed_cells(&maze, &visible);
    assert!(dim[0][1]);
    assert!(dim[0][4]);
    assert!(!dim[0][2]);
    assert!(!dim[0][5]);
    assert!(!dim[1][2]);
}

#[test]
fn sound_carries_only_along_open_straight_lines() {
    let maze = row_corridor(8);
    assert!(has_clear_sound_line((0, 0), (0, 0), &maze));
    assert!(has_clear_sound_line((0, 0), (6, 0), &maze));
    assert!(has_clear_sound_line((6, 0), (1, 0), &maze));
    assert!(!has_clear_sound_line((0, 0), (0, 3), &maze));
    assert!(!has_clear_sound_line((0, 0), (3, 3), &maze));
    assert!(!has_clear_axis_path((0, 0), (9, 0), Direction::East, &maze));
    assert!(!has_clear_axis_path((3, 0), (1, 0), Direction::East, &maze));
}

#[test]
fn tied_routes_take_the_earlier_compass_direction() {
    // An open 3x3 block in the corner: many shortest routes tie.
    let mut maze = MazeMap::closed();
    for z in 0..3 {
        for x in 0..3 {
            if x < 2 {
                open_edge(&mut maze, (x, z), Direction::East);
            }
            if z < 2 {
                open_edge(&mut maze, (x, z), Direction::North);
            }
        }
    }
    // North comes before East: go up first, then across.
    let route = route_between((0, 0), (2, 2), &maze).unwrap();
    assert_eq!(route, vec![(0, 0), (0, 1), (0, 2), (1, 2), (2, 2)]);
    assert_eq!(next_step_toward((0, 0), (2, 2), &maze), Some((0, 1)));
    // From the far corner South comes before West: go down first.
    let route = route_between((2, 2), (0, 0), &maze).unwrap();
    assert_eq!(route, vec![(2, 2), (2, 1), (2, 0), (1, 0), (0, 0)]);
    assert_eq!(next_step_toward((2, 2), (0, 0), &maze), Some((2, 1)));
    // East comes before South.
    let route = route_between((0, 2), (2, 0), &maze).unwrap();
    assert_eq!(route, vec![(0, 2), (1, 2), (2, 2), (2, 1), (2, 0)]);
}
