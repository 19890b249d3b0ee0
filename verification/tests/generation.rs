use monkey_miner::generate::{
    connects_to_start_without_exit, generate_connected_maze, seal_extra_exit_passages,
};
use monkey_miner::layout::{
    choose_ore_deposit_edges, plan_maze, wall_pieces, wall_post_vertices, MAX_ORE_DEPOSITS,
};
use monkey_miner::maze::{neighbor_cell, Direction, MazeMap, MAZE_COLUMNS, MAZE_ROWS};
use monkey_miner::search::route_between;

const DIRECTIONS: [Direction; 4] = [Direction::North, Direction::East, Direction::South, Direction::West];

fn open_edge(maze: &mut MazeMap, cell: (usize, usize), direction: Direction) {
    maze.set_wall(cell, direction, false);
    if let Some(next) = neighbor_cell(cell, direction) {
        maze.set_wall(next, direction.opposite(), false);
    }
}

fn assert_consistent(maze: &MazeMap) {
    for z in 0..MAZE_ROWS {
        for x in 0..MAZE_COLUMNS {
            for d in DIRECTIONS {
                match neighbor_cell((x, z), d) {
                    Some(n) => assert_eq!(maze.has_wall((x, z), d), maze.has_wall(n, d.opposite())),
                    None => assert!(maze.has_wall((x, z), d)),
                }
            }
        }
    }
}

fn open_sides(maze: &MazeMap, cell: (usize, usize)) -> usize {
    DIRECTIONS.iter().filter(|d| !maze.has_wall(cell, **d)).count()
}

#[test]
fn generated_maze_is_consistent_and_connected() {
    for _ in 0..5 {
        let maze = generate_connected_maze();
        assert_consistent(&maze);
        for z in 0..MAZE_ROWS {
            for x in 0..MAZE_COLUMNS {
                assert!(route_between((0, 0), (x, z), &maze).is_some());
            }
        }
        let passages: usize = (0..MAZE_ROWS)
            .flat_map(|z| (0..MAZE_COLUMNS).map(move |x| (x, z)))
            .map(|c| open_sides(&maze, c))
            .sum();
        assert_eq!(passages, 2 * (MAZE_COLUMNS * MAZE_ROWS - 1));
    }
}

#[test]
fn generated_mazes_differ() {
    let first = generate_connected_maze();
    let differs = (0..10).any(|_| {
        let other = generate_connected_maze();
        (0..MAZE_ROWS).any(|z| {
            (0..MAZE_COLUMNS).any(|x| {
                DIRECTIONS.iter().any(|d| first.has_wall((x, z), *d) != other.has_wall((x, z), *d))
            })
        })
    });
    assert!(differs);
}

fn corridor_maze() -> MazeMap {
    // A corridor from the start up column 0, then along the top row to the
    // cell west of the exit.
    let mut maze = MazeMap::closed();
    for z in 0..MAZE_ROWS - 1 {
        open_edge(&mut maze, (0, z), Direction::North);
    }
    for x in 0..MAZE_COLUMNS - 1 {
        open_edge(&mut maze, (x, MAZE_ROWS - 1), Direction::East);
    }
    // A dead end south of the exit.
    open_edge(&mut maze, (11, 11), Direction::South);
    maze
}

#[test]
fn connects_to_start_avoids_the_exit() {
    let maze = corridor_maze();
    assert!(connects_to_start_without_exit(&maze, (10, 11), (11, 11)));
    assert!(!connects_to_start_without_exit(&maze, (11, 10), (11, 11)));
    assert!(connects_to_start_without_exit(&maze, (0, 0), (11, 11)));
    assert!(!connects_to_start_without_exit(&maze, (5, 5), (11, 11)));
    // With the exit on the only way back, the start is cut off.
    assert!(!connects_to_start_without_exit(&maze, (10, 11), (0, 5)));
}

#[test]
fn sealing_keeps_the_exit_side_that_leads_to_the_start() {
    let mut maze = corridor_maze();
    let kept = seal_extra_exit_passages(&mut maze);
    // West is the side whose neighbor reaches the start; it stays open...
    assert_eq!(kept, Some(Direction::West));
    assert!(!maze.has_wall((11, 11), Direction::West));
    assert!(!maze.has_wall((10, 11), Direction::East));
    // ...and the dead end to the South is sealed off.
    assert!(maze.has_wall((11, 11), Direction::South));
    assert!(maze.has_wall((11, 10), Direction::North));
    assert_eq!(open_sides(&maze, (11, 11)), 1);
    assert!(route_between((0, 0), (11, 11), &maze).is_some());
    assert_consistent(&maze);
}

#[test]
fn sealing_keeps_the_first_side_when_none_leads_back() {
    // Two dead ends off the exit, and no way back to the start.
    let mut maze = MazeMap::closed();
    open_edge(&mut maze, (11, 11), Direction::South);
    open_edge(&mut maze, (11, 11), Direction::West);
    let kept = seal_extra_exit_passages(&mut maze);
    assert_eq!(kept, Some(Direction::South));
    assert!(!maze.has_wall((11, 11), Direction::South));
    assert!(maze.has_wall((11, 11), Direction::West));
    assert!(maze.has_wall((10, 11), Direction::East));
    assert_consistent(&maze);
}

#[test]
fn sealing_a_closed_exit_changes_nothing() {
    let mut maze = MazeMap::closed();
    assert_eq!(seal_extra_exit_passages(&mut maze), None);
    assert_eq!(open_sides(&maze, (11, 11)), 0);
}

#[test]
fn planned_maze_has_one_way_into_the_exit() {
    for _ in 0..5 {
        let plan = plan_maze();
        assert_consistent(&plan.maze);
        assert_eq!(open_sides(&plan.maze, (11, 11)), 1);
        assert!(plan.exit_passage.is_some());
        let door = plan.exit_passage.unwrap();
        assert!(!plan.maze.has_wall((11, 11), door));
        assert!(route_between((0, 0), (11, 11), &plan.maze).is_some());
        assert!(plan.ore_edges.len() <= MAX_ORE_DEPOSITS);
        for piece in &plan.walls {
            assert!(plan.maze.has_wall(piece.cell, piece.direction));
            if piece.mineable {
                assert!(neighbor_cell(piece.cell, piece.direction).is_some());
            }
            if piece.ore_deposit {
                assert!(plan.ore_edges.contains(&(piece.cell, piece.direction)));
                assert_eq!(piece.max_hits, 1);
            }
        }
    }
}

#[test]
fn ore_deposits_are_random_and_far_from_the_start() {
    let maze = generate_connected_maze();
    let first = choose_ore_deposit_edges(&maze);
    assert_eq!(first.len(), MAX_ORE_DEPOSITS);
    for (cell, direction) in &first {
        assert!(matches!(direction, Direction::North | Direction::West));
        assert!(cell.0 + cell.1 > 3);
        assert!(maze.has_wall(*cell, *direction));
    }
    let varies = (0..20).any(|_| choose_ore_deposit_edges(&maze) != first);
    assert!(varies);
}

#[test]
fn closed_maze_raises_every_wall_and_post() {
    let maze = MazeMap::closed();
    let pieces = wall_pieces(&maze, &Vec::new());
    assert_eq!(pieces.len(), 2 * MAZE_COLUMNS * MAZE_ROWS + MAZE_COLUMNS + MAZE_ROWS);
    let first = pieces[0];
    assert_eq!(first.cell, (0, 0));
    assert_eq!(first.direction, Direction::North);
    assert!(first.mineable);
    assert_eq!(pieces[1].direction, Direction::West);
    assert!(!pieces[1].mineable);
    assert_eq!(pieces[2].direction, Direction::South);
    assert!(!pieces[2].mineable);
    let hard: Vec<_> = pieces.iter().filter(|p| p.max_hits == 3).collect();
    assert!(hard.iter().all(|p| p.cell.0 >= 9 && p.cell.1 >= 9));
    assert!(!hard.is_empty());
    let posts = wall_post_vertices(&maze);
    assert_eq!(posts.len(), (MAZE_COLUMNS + 1) * (MAZE_ROWS + 1));
    assert_eq!(posts[0], (0, 0));
    assert_eq!(posts[1], (1, 0));
}

#[test]
fn ore_walls_take_ore_only_where_chosen() {
    let maze = MazeMap::closed();
    let ore = vec![((5, 5), Direction::North), ((11, 11), Direction::West)];
    let pieces = wall_pieces(&maze, &ore);
    let north = pieces.iter().find(|p| p.cell == (5, 5) && p.direction == Direction::North).unwrap();
    assert!(north.ore_deposit);
    // A hard wall holds no ore even when chosen.
    let hard = pieces.iter().find(|p| p.cell == (11, 11) && p.direction == Direction::West).unwrap();
    assert!(!hard.ore_deposit);
    assert_eq!(hard.max_hits, 3);
    assert_eq!(pieces.iter().filter(|p| p.ore_deposit).count(), 1);
}
