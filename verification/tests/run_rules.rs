use monkey_miner::maze::{neighbor_cell, Direction, MazeMap, WallSegment, MAZE_COLUMNS, MAZE_ROWS};
use monkey_miner::run::{
    score_for, upgrade_cost, CompassView, MapView, MarkerOutcome, MineOutcome, NavigationState,
    RunState, UpgradeKeys, UpgradeOutcome,
};

fn fresh_run() -> RunState {
    let mut run = RunState::new();
    run.begin_run();
    run
}

const NO_KEYS: UpgradeKeys = UpgradeKeys { toggle: false, close: false, switch: false, buy: false };

#[test]
fn a_run_starts_with_markers_energy_and_first_levels() {
    let mut run = RunState::new();
    run.best_score = 500;
    run.begin_run();
    assert_eq!(run.markers, 5);
    assert_eq!(run.energy, 3);
    assert_eq!(run.max_energy, 3);
    assert_eq!(run.pickaxe_level, 1);
    assert_eq!(run.speed_level, 1);
    assert_eq!(run.best_score, 500);
    assert!(!run.is_over());
    assert!(run.clock_running());
}

#[test]
fn score_follows_the_points_table() {
    let mut run = fresh_run();
    run.treasure = 2;
    run.ore = 3;
    run.keys = 1;
    run.doors_unlocked = 1;
    run.chests_opened = 1;
    run.mined_walls = 4;
    // 200 + 75 + 20 + 150 + 75 + 40 = 560, less 60 seconds.
    assert_eq!(score_for(&run, 60), 500);
    run.won = true;
    assert_eq!(score_for(&run, 60), 1500);
    // The time penalty never takes the score below zero.
    let empty = fresh_run();
    assert_eq!(score_for(&empty, 1000), 0);
}

#[test]
fn the_score_freezes_when_the_run_ends() {
    let mut run = fresh_run();
    run.treasure = 3;
    run.update_score(10);
    assert_eq!(run.score, 290);
    assert!(!run.finalize_score(10));
    run.get_caught();
    assert!(run.finalize_score(20));
    assert_eq!(run.score, 280);
    assert_eq!(run.best_score, 280);
    run.treasure = 10;
    run.update_score(20);
    assert_eq!(run.score, 280);
    assert!(!run.finalize_score(20));
    // A worse run keeps the best score.
    run.begin_run();
    run.get_caught();
    assert!(run.finalize_score(5));
    assert_eq!(run.score, 0);
    assert_eq!(run.best_score, 280);
}

#[test]
fn restart_only_after_the_run_is_over() {
    let mut run = fresh_run();
    assert!(!run.can_restart(true));
    assert!(run.reach_exit());
    assert!(!run.reach_exit());
    assert!(run.can_restart(true));
    assert!(!run.can_restart(false));
    assert!(!run.clock_running());
}

#[test]
fn treasure_brings_markers_and_chests_bring_ore() {
    let mut run = fresh_run();
    run.collect_treasure(1);
    assert_eq!(run.treasure, 1);
    assert_eq!(run.markers, 7);
    run.open_chest();
    assert_eq!(run.treasure, 3);
    assert_eq!(run.ore, 1);
    assert_eq!(run.chests_opened, 1);
    run.collect_ore(1);
    assert_eq!(run.ore, 2);
    run.set_total_treasure(4, 6);
    assert_eq!(run.total_treasure, 10);
}

#[test]
fn the_door_needs_a_key() {
    let mut run = fresh_run();
    let mut nav = NavigationState::new();
    assert!(!run.unlock_door(&mut nav));
    assert!(!nav.door_unlocked);
    run.collect_key(&mut nav);
    assert!(nav.key_collected);
    assert_eq!(run.keys, 1);
    assert!(run.unlock_door(&mut nav));
    assert_eq!(run.keys, 0);
    assert_eq!(run.doors_unlocked, 1);
    assert!(nav.door_unlocked);
}

#[test]
fn upgrades_cost_their_level_in_ore() {
    assert_eq!(upgrade_cost(1), 1);
    assert_eq!(upgrade_cost(4), 4);
    let mut run = fresh_run();
    assert_eq!(run.apply_upgrade_keys(UpgradeKeys { buy: true, ..NO_KEYS }), UpgradeOutcome::Ignored);
    assert_eq!(run.apply_upgrade_keys(UpgradeKeys { toggle: true, ..NO_KEYS }), UpgradeOutcome::MenuToggled);
    assert!(run.upgrade_menu_open);
    assert_eq!(run.apply_upgrade_keys(UpgradeKeys { buy: true, ..NO_KEYS }), UpgradeOutcome::NotEnoughOre(1));
    run.ore = 3;
    assert_eq!(run.apply_upgrade_keys(UpgradeKeys { buy: true, ..NO_KEYS }), UpgradeOutcome::BoughtMining);
    assert_eq!(run.ore, 2);
    assert_eq!(run.pickaxe_level, 2);
    assert_eq!(run.max_energy, 4);
    assert_eq!(run.energy, 4);
    assert_eq!(run.apply_upgrade_keys(UpgradeKeys { switch: true, ..NO_KEYS }), UpgradeOutcome::SelectionChanged);
    assert_eq!(run.upgrade_selection, 1);
    assert_eq!(run.apply_upgrade_keys(UpgradeKeys { buy: true, ..NO_KEYS }), UpgradeOutcome::BoughtSpeed);
    assert_eq!(run.ore, 1);
    assert_eq!(run.speed_level, 2);
    assert_eq!(run.speed_bonus_levels(), 1);
    assert_eq!(run.apply_upgrade_keys(UpgradeKeys { buy: true, ..NO_KEYS }), UpgradeOutcome::NotEnoughOre(2));
    assert_eq!(run.apply_upgrade_keys(NO_KEYS), UpgradeOutcome::Ignored);
    assert_eq!(run.apply_upgrade_keys(UpgradeKeys { close: true, ..NO_KEYS }), UpgradeOutcome::MenuClosed);
    assert!(!run.upgrade_menu_open);
    run.get_caught();
    assert_eq!(run.apply_upgrade_keys(UpgradeKeys { toggle: true, ..NO_KEYS }), UpgradeOutcome::Ignored);
}

#[test]
fn the_upgrade_menu_shows_costs_and_levels() {
    let mut run = fresh_run();
    assert!(run.upgrade_menu().is_none());
    run.upgrade_menu_open = true;
    run.ore = 7;
    let menu = run.upgrade_menu().unwrap();
    assert_eq!(menu.ore, 7);
    assert!(menu.mining_selected && !menu.speed_selected);
    assert_eq!((menu.mining_cost, menu.mining_level, menu.mining_next_level), (1, 1, 2));
    assert_eq!((menu.speed_cost, menu.speed_level, menu.speed_next_level), (1, 1, 2));
}

fn corridor_with_wall() -> MazeMap {
    let mut maze = MazeMap::closed();
    maze.set_wall((2, 2), Direction::North, true);
    maze
}

#[test]
fn mining_outcomes() {
    let mut maze = corridor_with_wall();
    let mut run = fresh_run();
    let plain = WallSegment::new((2, 2), Direction::North, true, 1, false);
    let boundary = WallSegment::new((2, 0), Direction::South, false, 1, false);
    maze.set_wall((3, 3), Direction::East, false);
    assert_eq!(run.mine_wall(&mut maze, (3, 3), Direction::East, Some(plain)).0, MineOutcome::NoWall);
    assert_eq!(run.mine_wall(&mut maze, (2, 2), Direction::North, None).0, MineOutcome::NoSegment);
    assert_eq!(run.mine_wall(&mut maze, (2, 0), Direction::South, Some(boundary)).0, MineOutcome::Unbreakable);
    assert_eq!(run.energy, 3);
    let (outcome, left) = run.mine_wall(&mut maze, (2, 2), Direction::North, Some(plain));
    assert_eq!(outcome, MineOutcome::Broken(false));
    assert!(left.is_none());
    assert!(!maze.has_wall((2, 2), Direction::North));
    assert!(!maze.has_wall((2, 3), Direction::South));
    assert_eq!(run.energy, 2);
    assert_eq!(run.mined_walls, 1);
}

#[test]
fn hard_walls_crack_before_they_break() {
    let mut maze = MazeMap::closed();
    let mut run = fresh_run();
    let hard = WallSegment::new((10, 10), Direction::North, true, 3, true);
    let (outcome, after) = run.mine_wall(&mut maze, (10, 10), Direction::North, Some(hard));
    assert_eq!(outcome, MineOutcome::Cracked(1));
    let after = after.unwrap();
    assert_eq!(after.hits_remaining, 2);
    assert!(maze.has_wall((10, 10), Direction::North));
    let (outcome, after) = run.mine_wall(&mut maze, (10, 10), Direction::North, Some(after));
    assert_eq!(outcome, MineOutcome::Cracked(2));
    let (outcome, _) = run.mine_wall(&mut maze, (10, 10), Direction::North, after);
    assert_eq!(outcome, MineOutcome::Broken(true));
    assert_eq!(run.energy, 0);
    let plain = WallSegment::new((4, 4), Direction::West, true, 1, false);
    assert_eq!(run.mine_wall(&mut maze, (4, 4), Direction::West, Some(plain)).0, MineOutcome::OutOfEnergy);
    assert!(maze.has_wall((4, 4), Direction::West));
    assert_eq!(neighbor_cell((4, 4), Direction::West), Some((3, 4)));
}

#[test]
fn trail_markers_mark_each_cell_once() {
    let mut run = fresh_run();
    let mut marked = [[false; MAZE_COLUMNS]; MAZE_ROWS];
    assert_eq!(run.drop_trail_marker(&mut marked, (3, 4)), MarkerOutcome::Dropped);
    assert!(marked[4][3]);
    assert_eq!(run.markers, 4);
    assert_eq!(run.drop_trail_marker(&mut marked, (3, 4)), MarkerOutcome::AlreadyMarked);
    assert_eq!(run.markers, 4);
    run.markers = 0;
    assert_eq!(run.drop_trail_marker(&mut marked, (5, 5)), MarkerOutcome::NoneLeft);
    assert!(!marked[5][5]);
}

#[test]
fn navigation_tools_show_what_was_found() {
    let mut nav = NavigationState::new();
    let run = fresh_run();
    assert_eq!(nav.compass_view(), CompassView::Hidden);
    assert_eq!(nav.map_view(), MapView::Hidden);
    nav.toggle_treasure_map(&run, true);
    assert!(!nav.show_treasure_map);
    nav.key_cell = Some((8, 3));
    nav.compass_cell = Some((2, 9));
    nav.collect_treasure_map();
    assert_eq!(nav.map_view(), MapView::Key((8, 3)));
    nav.collect_compass();
    assert_eq!(nav.compass_view(), CompassView::ExitLocked);
    let mut run = fresh_run();
    run.collect_key(&mut nav);
    assert_eq!(nav.compass_view(), CompassView::ExitUnlocked);
    assert_eq!(nav.map_view(), MapView::TreasureFound);
    nav.toggle_treasure_map(&run, true);
    assert_eq!(nav.map_view(), MapView::Hidden);
    nav.toggle_treasure_map(&run, false);
    assert_eq!(nav.map_view(), MapView::Hidden);
    let mut lost = NavigationState::new();
    lost.collect_treasure_map();
    assert_eq!(lost.map_view(), MapView::KeyLost);
    lost.key_collected = true;
    assert_eq!(lost.map_view(), MapView::CompassLost);
    lost.compass_cell = Some((1, 1));
    assert_eq!(lost.map_view(), MapView::Compass((1, 1)));
}

#[test]
fn hud_lines_follow_the_run() {
    let mut run = fresh_run();
    let mut nav = NavigationState::new();
    assert_eq!(run.objective_text(), "Find the exit");
    assert_eq!(run.restart_hint(), "");
    assert_eq!(nav.map_hint(), "");
    assert_eq!(nav.compass_hint(), "  Find compass");
    nav.collect_treasure_map();
    nav.collect_compass();
    assert_eq!(nav.map_hint(), "  M: map");
    assert_eq!(nav.compass_hint(), "");
    run.get_caught();
    assert_eq!(run.objective_text(), "Caught by the rat!");
    assert_eq!(run.restart_hint(), "  R: restart");
    run.won = true;
    assert_eq!(run.objective_text(), "Escaped!");
}

#[test]
fn a_run_keeps_its_bookkeeping() {
    let mut maze = MazeMap::closed();
    let mut run = fresh_run();
    let keep = |r: &RunState| {
        assert!(r.energy <= r.max_energy);
        assert!(r.upgrade_selection <= 1);
        assert!(!r.score_finalized || r.score <= r.best_score);
    };
    keep(&run);
    let plain = WallSegment::new((4, 4), Direction::West, true, 1, false);
    run.mine_wall(&mut maze, (4, 4), Direction::West, Some(plain));
    keep(&run);
    run.collect_ore(5);
    run.apply_upgrade_keys(UpgradeKeys { toggle: true, ..NO_KEYS });
    run.apply_upgrade_keys(UpgradeKeys { buy: true, ..NO_KEYS });
    assert_eq!(run.energy, 4);
    assert_eq!(run.max_energy, 4);
    keep(&run);
    run.apply_upgrade_keys(UpgradeKeys { switch: true, ..NO_KEYS });
    run.apply_upgrade_keys(UpgradeKeys { switch: true, ..NO_KEYS });
    keep(&run);
    run.best_score = 10_000;
    run.reach_exit();
    assert!(run.finalize_score(5));
    keep(&run);
}
