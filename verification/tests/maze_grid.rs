use monkey_miner::maze::{
    cell_from_indices, direction_between, hard_wall_near_exit, horizontal_wall_at,
    manhattan_distance, neighbor_cell, open_neighbors, ore_move_blocked, same_wall_edge,
    vertical_wall_at, wall_touches_vertex, Direction, MazeMap, WallSegment, MAZE_COLUMNS,
    MAZE_ROWS,
};

fn test_maze() -> MazeMap {
    MazeMap::closed()
}

fn open_edge(maze: &mut MazeMap, cell: (usize, usize), direction: Direction) {
    maze.set_wall(cell, direction, false);
    if let Some(next) = neighbor_cell(cell, direction) {
        maze.set_wall(next, direction.opposite(), false);
    }
}

#[test]
fn direction_indices_opposites_and_deltas() {
    assert_eq!(Direction::North.index(), 0);
    assert_eq!(Direction::East.index(), 1);
    assert_eq!(Direction::South.index(), 2);
    assert_eq!(Direction::West.index(), 3);
    for d in [Direction::North, Direction::East, Direction::South, Direction::West] {
        assert_eq!(d.opposite().opposite(), d);
        let (dx, dz) = d.delta();
        let (ox, oz) = d.opposite().delta();
        assert_eq!((dx + ox, dz + oz), (0, 0));
    }
    assert_eq!(Direction::North.delta(), (0, 1));
    assert_eq!(Direction::West.delta(), (-1, 0));
}

#[test]
fn neighbors_stop_at_the_grid_edge() {
    assert_eq!(neighbor_cell((0, 0), Direction::South), None);
    assert_eq!(neighbor_cell((0, 0), Direction::West), None);
    assert_eq!(neighbor_cell((0, 0), Direction::North), Some((0, 1)));
    assert_eq!(neighbor_cell((MAZE_COLUMNS - 1, 3), Direction::East), None);
    assert_eq!(neighbor_cell((4, MAZE_ROWS - 1), Direction::North), None);
    assert_eq!(neighbor_cell((MAZE_COLUMNS, 3), Direction::West), Some((MAZE_COLUMNS - 1, 3)));
    assert_eq!(neighbor_cell((50, 3), Direction::West), None);
}

#[test]
fn direction_between_side_by_side_cells_only() {
    assert_eq!(direction_between((3, 3), (3, 4)), Some(Direction::North));
    assert_eq!(direction_between((3, 3), (4, 3)), Some(Direction::East));
    assert_eq!(direction_between((3, 3), (3, 2)), Some(Direction::South));
    assert_eq!(direction_between((3, 3), (2, 3)), Some(Direction::West));
    assert_eq!(direction_between((3, 3), (4, 4)), None);
    assert_eq!(direction_between((3, 3), (3, 3)), None);
    assert_eq!(direction_between((3, 3), (5, 3)), None);
}

#[test]
fn cell_indices_outside_the_grid_are_rejected() {
    assert_eq!(cell_from_indices(0, 0), Some((0, 0)));
    assert_eq!(cell_from_indices(11, 11), Some((11, 11)));
    assert_eq!(cell_from_indices(-1, 0), None);
    assert_eq!(cell_from_indices(0, 12), None);
    assert_eq!(cell_from_indices(12, 5), None);
}

#[test]
fn manhattan_distance_counts_both_axes() {
    assert_eq!(manhattan_distance((0, 0), (11, 11)), 22);
    assert_eq!(manhattan_distance((5, 2), (2, 5)), 6);
    assert_eq!(manhattan_distance((4, 4), (4, 4)), 0);
}

#[test]
fn hard_walls_surround_the_exit_chamber() {
    assert!(hard_wall_near_exit((11, 11), Direction::South));
    assert!(hard_wall_near_exit((10, 11), Direction::West));
    assert!(hard_wall_near_exit((9, 11), Direction::East));
    assert!(hard_wall_near_exit((11, 9), Direction::North));
    assert!(!hard_wall_near_exit((9, 11), Direction::West));
    assert!(!hard_wall_near_exit((0, 0), Direction::North));
}

#[test]
fn wall_lines_and_vertices() {
    let mut maze = test_maze();
    assert!(horizontal_wall_at(0, 0, &maze));
    assert!(vertical_wall_at(12, 0, &maze));
    assert!(!horizontal_wall_at(12, 0, &maze));
    assert!(!vertical_wall_at(0, 12, &maze));
    for z in 0..=MAZE_ROWS {
        for x in 0..=MAZE_COLUMNS {
            assert!(wall_touches_vertex(x, z, &maze));
        }
    }
    open_edge(&mut maze, (3, 3), Direction::North);
    open_edge(&mut maze, (4, 3), Direction::North);
    open_edge(&mut maze, (3, 3), Direction::East);
    open_edge(&mut maze, (3, 4), Direction::East);
    assert!(!wall_touches_vertex(4, 4, &maze));
    assert!(wall_touches_vertex(3, 4, &maze));
}

#[test]
fn the_same_edge_seen_from_both_cells() {
    assert!(same_wall_edge((2, 2), Direction::North, (2, 2), Direction::North));
    assert!(same_wall_edge((2, 3), Direction::South, (2, 2), Direction::North));
    assert!(!same_wall_edge((2, 3), Direction::North, (2, 2), Direction::North));
    assert!(!same_wall_edge((0, 0), Direction::North, (0, 0), Direction::South));
}

#[test]
fn open_neighbors_follow_the_cells_own_walls() {
    let mut maze = test_maze();
    assert!(open_neighbors((5, 5), &maze).is_empty());
    open_edge(&mut maze, (5, 5), Direction::West);
    open_edge(&mut maze, (5, 5), Direction::North);
    assert_eq!(open_neighbors((5, 5), &maze), vec![(5, 6), (4, 5)]);
    maze.set_wall((0, 0), Direction::South, false);
    assert!(open_neighbors((0, 0), &maze).is_empty());
}

#[test]
fn ore_burst_crossing_respects_maze_walls() {
    let mut maze = test_maze();
    maze.set_wall((0, 0), Direction::East, false);
    maze.set_wall((1, 0), Direction::West, false);

    let old_cell = Some((0, 0));
    let open_candidate = Some((1, 0));
    assert!(!ore_move_blocked(old_cell, open_candidate, &maze));

    maze.set_wall((0, 0), Direction::East, true);
    assert!(ore_move_blocked(old_cell, open_candidate, &maze));

    let out_of_bounds = cell_from_indices(-1, 0);
    assert!(ore_move_blocked(old_cell, out_of_bounds, &maze));
}

#[test]
fn ore_staying_in_its_cell_is_never_blocked() {
    let maze = test_maze();
    assert!(!ore_move_blocked(Some((4, 4)), Some((4, 4)), &maze));
    assert!(ore_move_blocked(Some((4, 4)), Some((6, 4)), &maze));
    assert!(ore_move_blocked(None, Some((4, 4)), &maze));
}

#[test]
fn wall_segments_take_at_least_one_hit() {
    let segment = WallSegment::new((1, 1), Direction::North, true, 0, false);
    assert_eq!(segment.max_hits, 1);
    assert_eq!(segment.hits_remaining, 1);
    let hard = WallSegment::new((1, 1), Direction::North, true, 3, true);
    assert_eq!(hard.max_hits, 3);
    assert!(hard.ore_deposit);
}
