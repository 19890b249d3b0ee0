//! One run through the maze: what the player holds, the score, upgrades,
//! mining, trail markers, and what the navigation tools show.
use vstd::prelude::*;
use crate::maze::{Cell, Direction, MazeMap, WallSegment, in_grid, neighbor_cell, neighbor_of};
use crate::generate::{CellFlags, flag};

verus! {

/// Trail markers at the start of a run.
pub const STARTING_TRAIL_MARKERS: u32 = 5;

/// Trail markers earned with each loose treasure.
pub const TRAIL_MARKERS_PER_TREASURE: u32 = 2;

/// Mining energy at the start of a run.
pub const STARTING_MAX_ENERGY: u32 = 3;

pub const TREASURE_POINTS: u32 = 100;
pub const ORE_POINTS: u32 = 25;
pub const KEY_POINTS: u32 = 20;
pub const DOOR_POINTS: u32 = 150;
pub const CHEST_POINTS: u32 = 75;
pub const MINED_WALL_POINTS: u32 = 10;
pub const ESCAPE_BONUS: u32 = 1000;

/// Treasure and ore found in a chest.
pub const CHEST_TREASURE: u32 = 2;
pub const CHEST_ORE: u32 = 1;

/// The player's tally for the current run (time is kept by the caller).
#[derive(Clone, Copy)]
pub struct RunState {
    pub won: bool,
    pub treasure: u32,
    pub total_treasure: u32,
    pub ore: u32,
    pub markers: u32,
    pub mined_walls: u32,
    pub keys: u32,
    pub doors_unlocked: u32,
    pub chests_opened: u32,
    pub caught_by_rat: bool,
    pub energy: u32,
    pub max_energy: u32,
    pub pickaxe_level: u32,
    pub speed_level: u32,
    pub upgrade_menu_open: bool,
    pub upgrade_selection: usize,
    pub score: u32,
    pub best_score: u32,
    pub score_finalized: bool,
}

/// What every step of a run keeps: energy within its maximum, one of the
/// two upgrades selected, and a frozen score no higher than the best.
pub open spec fn run_ok(r: RunState) -> bool {
    &&& r.energy <= r.max_energy
    &&& r.upgrade_selection <= 1
    &&& r.score_finalized ==> r.score <= r.best_score
}

/// What the navigation tools keep: the treasure map is open only once found.
pub open spec fn nav_ok(n: NavigationState) -> bool {
    n.show_treasure_map ==> n.treasure_map_collected
}

/// Points before the escape bonus and the time penalty.
pub open spec fn base_points(r: RunState) -> int {
    r.treasure * TREASURE_POINTS + r.ore * ORE_POINTS + r.keys * KEY_POINTS + r.doors_unlocked
        * DOOR_POINTS + r.chests_opened * CHEST_POINTS + r.mined_walls * MINED_WALL_POINTS
}

/// Points with the escape bonus, before the time penalty.
pub open spec fn gross_points(r: RunState) -> int {
    base_points(r) + if r.won {
        ESCAPE_BONUS as int
    } else {
        0
    }
}

/// The score after `seconds` whole seconds: gross points less one per
/// second, never below zero.
pub open spec fn score_value(r: RunState, seconds: u32) -> int {
    if gross_points(r) >= seconds {
        gross_points(r) - seconds
    } else {
        0
    }
}

/// `count` items worth `points` each.
fn scaled(count: u32, points: u32) -> (total: u64)
    requires
        points <= 1000,
    ensures
        total == count * points,
        total <= 1000 * u32::MAX,
{
    assert(count * points <= 1000 * u32::MAX) by (nonlinear_arith)
        requires
            points <= 1000,
            count <= u32::MAX,
    ;
    count as u64 * points as u64
}

/// The points table: 100 a treasure, 25 an ore, 20 a key held, 150 a door
/// unlocked, 75 a chest opened, 10 a wall mined, 1000 for escaping; less one
/// point a second, never below zero.
pub proof fn law_points_table(r: RunState, seconds: u32)
    ensures
        gross_points(r) == r.treasure * 100 + r.ore * 25 + r.keys * 20 + r.doors_unlocked * 150 + r.chests_opened * 75
            + r.mined_walls * 10 + if r.won {
            1000int
        } else {
            0int
        },
        score_value(r, seconds) == if gross_points(r) >= seconds {
            gross_points(r) - seconds
        } else {
            0
        },
{
}

/// Each upgrade costs as much ore as its current level.
pub open spec fn upgrade_price(level: u32) -> int {
    level as int
}

pub fn upgrade_cost(level: u32) -> (cost: u32)
    ensures
        cost == upgrade_price(level),
{
    level
}

pub fn score_for(run_state: &RunState, elapsed_seconds: u32) -> (score: u32)
    requires
        gross_points(*run_state) <= u32::MAX,
    ensures
        score == score_value(*run_state, elapsed_seconds),
        ({
            let r = *run_state;
            let points = r.treasure * 100 + r.ore * 25 + r.keys * 20 + r.doors_unlocked * 150 + r.chests_opened * 75
                + r.mined_walls * 10 + if r.won {
                1000int
            } else {
                0int
            };
            score == if points >= elapsed_seconds {
                points - elapsed_seconds
            } else {
                0
            }
        }),
{
    proof {
        law_points_table(*run_state, elapsed_seconds);
    }
    let base = run_state.treasure as u64 * TREASURE_POINTS as u64 + run_state.ore as u64
        * ORE_POINTS as u64 + run_state.keys as u64 * KEY_POINTS as u64
        + run_state.doors_unlocked as u64 * DOOR_POINTS as u64 + run_state.chests_opened as u64
        * CHEST_POINTS as u64 + run_state.mined_walls as u64 * MINED_WALL_POINTS as u64;
    let win_bonus: u64 = if run_state.won {
        ESCAPE_BONUS as u64
    } else {
        0
    };
    let gross = (base + win_bonus) as u32;
    gross.saturating_sub(elapsed_seconds)
}

/// What an upgrade-menu key press did.
#[derive(Clone, Copy, Debug, PartialEq, Eq, Structural)]
pub enum UpgradeOutcome {
    /// The run is over, or the menu is closed and the key does nothing there.
    Ignored,
    /// The menu was opened or closed with the upgrade key.
    MenuToggled,
    /// The menu was closed with the close key.
    MenuClosed,
    /// The selection moved to the other upgrade.
    SelectionChanged,
    /// Not enough ore for the selected upgrade, which costs this much.
    NotEnoughOre(u32),
    /// Mining energy was upgraded.
    BoughtMining,
    /// Movement speed was upgraded.
    BoughtSpeed,
}

/// The keys pressed this frame that the upgrade menu listens to.
#[derive(Clone, Copy)]
pub struct UpgradeKeys {
    pub toggle: bool,
    pub close: bool,
    pub switch: bool,
    pub buy: bool,
}

/// What mining a wall did.
#[derive(Clone, Copy, Debug, PartialEq, Eq, Structural)]
pub enum MineOutcome {
    /// The faced side of the cell has no wall.
    NoWall,
    /// No wall piece stands there: it cannot be broken.
    NoSegment,
    /// A boundary wall: it cannot be broken.
    Unbreakable,
    /// No mining energy is left.
    OutOfEnergy,
    /// A hard wall took a hit and cracked; the crack stage to show (at most 2).
    Cracked(usize),
    /// The wall broke and is gone from the maze; whether it held ore.
    Broken(bool),
}

/// What dropping a trail marker did.
#[derive(Clone, Copy, Debug, PartialEq, Eq, Structural)]
pub enum MarkerOutcome {
    AlreadyMarked,
    NoneLeft,
    Dropped,
}

impl RunState {
    /// The tally before any run.
    pub fn new() -> (r: RunState)
        ensures
            run_ok(r),
            !r.won && !r.caught_by_rat && !r.upgrade_menu_open && !r.score_finalized,
            r.treasure == 0 && r.total_treasure == 0 && r.ore == 0 && r.markers == 0,
            r.mined_walls == 0 && r.keys == 0 && r.doors_unlocked == 0 && r.chests_opened == 0,
            r.energy == 0 && r.max_energy == 0 && r.pickaxe_level == 0 && r.speed_level == 0,
            r.upgrade_selection == 0 && r.score == 0 && r.best_score == 0,
    {
        RunState {
            won: false,
            treasure: 0,
            total_treasure: 0,
            ore: 0,
            markers: 0,
            mined_walls: 0,
            keys: 0,
            doors_unlocked: 0,
            chests_opened: 0,
            caught_by_rat: false,
            energy: 0,
            max_energy: 0,
            pickaxe_level: 0,
            speed_level: 0,
            upgrade_menu_open: false,
            upgrade_selection: 0,
            score: 0,
            best_score: 0,
            score_finalized: false,
        }
    }

    /// A fresh run: everything back to its starting value but the total
    /// treasure and the best score.
    pub fn begin_run(&mut self)
        ensures
            run_ok(*final(self)),
            final(self).treasure == 0 && final(self).ore == 0,
            final(self).markers == STARTING_TRAIL_MARKERS,
            final(self).mined_walls == 0 && final(self).keys == 0,
            final(self).doors_unlocked == 0 && final(self).chests_opened == 0,
            !final(self).caught_by_rat && !final(self).won,
            final(self).max_energy == STARTING_MAX_ENERGY && final(self).energy == STARTING_MAX_ENERGY,
            final(self).pickaxe_level == 1 && final(self).speed_level == 1,
            !final(self).upgrade_menu_open && final(self).upgrade_selection == 0,
            final(self).score == 0 && !final(self).score_finalized,
            final(self).total_treasure == old(self).total_treasure,
            final(self).best_score == old(self).best_score,
    {
        self.treasure = 0;
        self.ore = 0;
        self.markers = STARTING_TRAIL_MARKERS;
        self.mined_walls = 0;
        self.keys = 0;
        self.doors_unlocked = 0;
        self.chests_opened = 0;
        self.caught_by_rat = false;
        self.max_energy = STARTING_MAX_ENERGY;
        self.energy = self.max_energy;
        self.pickaxe_level = 1;
        self.speed_level = 1;
        self.upgrade_menu_open = false;
        self.upgrade_selection = 0;
        self.score = 0;
        self.score_finalized = false;
        self.won = false;
    }

    /// The run is over once the player escaped or was caught.
    pub fn is_over(&self) -> (over: bool)
        ensures
            over == (self.won || self.caught_by_rat),
    {
        self.won || self.caught_by_rat
    }

    /// The score keeps up with the tally until it is final.
    pub fn update_score(&mut self, elapsed_seconds: u32)
        requires
            !old(self).score_finalized ==> gross_points(*old(self)) <= u32::MAX,
        ensures
            run_ok(*old(self)) ==> run_ok(*final(self)),
            old(self).score_finalized ==> *final(self) == *old(self),
            !old(self).score_finalized ==> *final(self) == (RunState {
                score: score_value(*old(self), elapsed_seconds) as u32,
                ..*old(self)
            }),
    {
        if self.score_finalized {
            return;
        }
        self.score = score_for(self, elapsed_seconds);
    }

    /// Once the run is over the score is worked out one last time, the best
    /// score kept, and the score frozen. Returns whether that happened now.
    pub fn finalize_score(&mut self, elapsed_seconds: u32) -> (finalized: bool)
        requires
            !old(self).score_finalized && (old(self).won || old(self).caught_by_rat) ==> gross_points(*old(self)) <= u32::MAX,
        ensures
            run_ok(*old(self)) ==> run_ok(*final(self)),
            finalized == (!old(self).score_finalized && (old(self).won || old(self).caught_by_rat)),
            !finalized ==> *final(self) == *old(self),
            finalized ==> {
                let s = score_value(*old(self), elapsed_seconds);
                *final(self) == (RunState {
                    score: s as u32,
                    best_score: if old(self).best_score >= s { old(self).best_score } else { s as u32 },
                    score_finalized: true,
                    ..*old(self)
                })
            },
    {
        if self.score_finalized || (!self.won && !self.caught_by_rat) {
            return false;
        }
        self.score = score_for(self, elapsed_seconds);
        if self.score > self.best_score {
            self.best_score = self.score;
        }
        self.score_finalized = true;
        true
    }

    /// The restart key works only once the run is over.
    pub fn can_restart(&self, restart_pressed: bool) -> (restart: bool)
        ensures
            restart == (restart_pressed && (self.won || self.caught_by_rat)),
    {
        restart_pressed && (self.won || self.caught_by_rat)
    }

    pub fn set_total_treasure(&mut self, loose: u32, in_chests: u32)
        requires
            loose + in_chests <= u32::MAX,
        ensures
            run_ok(*old(self)) ==> run_ok(*final(self)),
            *final(self) == (RunState { total_treasure: (loose + in_chests) as u32, ..*old(self) }),
    {
        self.total_treasure = loose + in_chests;
    }

    /// Loose treasure adds its value and two trail markers.
    pub fn collect_treasure(&mut self, value: u32)
        requires
            old(self).treasure + value <= u32::MAX,
            old(self).markers + TRAIL_MARKERS_PER_TREASURE <= u32::MAX,
        ensures
            run_ok(*old(self)) ==> run_ok(*final(self)),
            *final(self) == (RunState {
                treasure: (old(self).treasure + value) as u32,
                markers: (old(self).markers + TRAIL_MARKERS_PER_TREASURE) as u32,
                ..*old(self)
            }),
    {
        self.treasure = self.treasure + value;
        self.markers = self.markers + TRAIL_MARKERS_PER_TREASURE;
    }

    pub fn collect_ore(&mut self, value: u32)
        requires
            old(self).ore + value <= u32::MAX,
        ensures
            run_ok(*old(self)) ==> run_ok(*final(self)),
            *final(self) == (RunState { ore: (old(self).ore + value) as u32, ..*old(self) }),
    {
        self.ore = self.ore + value;
    }

    /// A chest holds two treasure and one ore.
    pub fn open_chest(&mut self)
        requires
            old(self).treasure + CHEST_TREASURE <= u32::MAX,
            old(self).ore + CHEST_ORE <= u32::MAX,
            old(self).chests_opened < u32::MAX,
        ensures
            run_ok(*old(self)) ==> run_ok(*final(self)),
            *final(self) == (RunState {
                treasure: (old(self).treasure + CHEST_TREASURE) as u32,
                ore: (old(self).ore + CHEST_ORE) as u32,
                chests_opened: (old(self).chests_opened + 1) as u32,
                ..*old(self)
            }),
    {
        self.treasure = self.treasure + CHEST_TREASURE;
        self.ore = self.ore + CHEST_ORE;
        self.chests_opened = self.chests_opened + 1;
    }

    pub fn collect_key(&mut self, navigation: &mut NavigationState)
        requires
            old(self).keys < u32::MAX,
        ensures
            nav_ok(*old(navigation)) ==> nav_ok(*final(navigation)),
            run_ok(*old(self)) ==> run_ok(*final(self)),
            *final(self) == (RunState { keys: (old(self).keys + 1) as u32, ..*old(self) }),
            *final(navigation) == (NavigationState { key_collected: true, ..*old(navigation) }),
    {
        self.keys = self.keys + 1;
        navigation.key_collected = true;
    }

    /// A key opens the locked door; without one nothing happens. Returns
    /// whether the door was opened.
    pub fn unlock_door(&mut self, navigation: &mut NavigationState) -> (opened: bool)
        requires
            old(self).doors_unlocked < u32::MAX,
        ensures
            nav_ok(*old(navigation)) ==> nav_ok(*final(navigation)),
            run_ok(*old(self)) ==> run_ok(*final(self)),
            opened == (old(self).keys > 0),
            !opened ==> *final(self) == *old(self) && *final(navigation) == *old(navigation),
            opened ==> *final(self) == (RunState {
                keys: (old(self).keys - 1) as u32,
                doors_unlocked: (old(self).doors_unlocked + 1) as u32,
                ..*old(self)
            }) && *final(navigation) == (NavigationState { door_unlocked: true, ..*old(navigation) }),
    {
        if self.keys == 0 {
            return false;
        }
        self.keys = self.keys - 1;
        self.doors_unlocked = self.doors_unlocked + 1;
        navigation.door_unlocked = true;
        true
    }

    /// Reaching the exit wins the run. Returns whether it was won just now.
    pub fn reach_exit(&mut self) -> (won_now: bool)
        ensures
            run_ok(*old(self)) ==> run_ok(*final(self)),
            won_now == !old(self).won,
            *final(self) == (RunState { won: true, ..*old(self) }),
    {
        if self.won {
            return false;
        }
        self.won = true;
        true
    }

    pub fn get_caught(&mut self)
        ensures
            run_ok(*old(self)) ==> run_ok(*final(self)),
            *final(self) == (RunState { caught_by_rat: true, ..*old(self) }),
    {
        self.caught_by_rat = true;
    }

    /// One key press in the upgrade menu. Nothing happens once the run is
    /// over. The upgrade key opens or closes the menu; with the menu closed
    /// nothing else does anything. The close key closes it; up or down moves
    /// the selection; buy spends the selected upgrade's cost in ore, if there
    /// is enough: mining raises its level and the maximum energy by one and
    /// refills the energy, speed raises its level by one.
    pub fn apply_upgrade_keys(&mut self, keys: UpgradeKeys) -> (outcome: UpgradeOutcome)
        requires
            old(self).upgrade_selection <= 1,
            old(self).pickaxe_level < u32::MAX,
            old(self).max_energy < u32::MAX,
            old(self).speed_level < u32::MAX,
        ensures
            run_ok(*old(self)) ==> run_ok(*final(self)),
            final(self).upgrade_selection <= 1,
            outcome == UpgradeOutcome::Ignored ==> *final(self) == *old(self),
            old(self).won || old(self).caught_by_rat ==> outcome == UpgradeOutcome::Ignored,
            !(old(self).won || old(self).caught_by_rat) ==> {
                if keys.toggle {
                    outcome == UpgradeOutcome::MenuToggled && *final(self) == (RunState {
                        upgrade_menu_open: !old(self).upgrade_menu_open,
                        ..*old(self)
                    })
                } else if !old(self).upgrade_menu_open {
                    outcome == UpgradeOutcome::Ignored
                } else if keys.close {
                    outcome == UpgradeOutcome::MenuClosed && *final(self) == (RunState {
                        upgrade_menu_open: false,
                        ..*old(self)
                    })
                } else if keys.switch {
                    outcome == UpgradeOutcome::SelectionChanged && *final(self) == (RunState {
                        upgrade_selection: (1 - old(self).upgrade_selection) as usize,
                        ..*old(self)
                    })
                } else if !keys.buy {
                    outcome == UpgradeOutcome::Ignored
                } else if old(self).upgrade_selection == 0 {
                    let cost = upgrade_price(old(self).pickaxe_level);
                    if old(self).ore < cost {
                        outcome == UpgradeOutcome::NotEnoughOre(cost as u32) && *final(self) == *old(self)
                    } else {
                        outcome == UpgradeOutcome::BoughtMining && *final(self) == (RunState {
                            ore: (old(self).ore - cost) as u32,
                            pickaxe_level: (old(self).pickaxe_level + 1) as u32,
                            max_energy: (old(self).max_energy + 1) as u32,
                            energy: (old(self).max_energy + 1) as u32,
                            ..*old(self)
                        })
                    }
                } else {
                    let cost = upgrade_price(old(self).speed_level);
                    if old(self).ore < cost {
                        outcome == UpgradeOutcome::NotEnoughOre(cost as u32) && *final(self) == *old(self)
                    } else {
                        outcome == UpgradeOutcome::BoughtSpeed && *final(self) == (RunState {
                            ore: (old(self).ore - cost) as u32,
                            speed_level: (old(self).speed_level + 1) as u32,
                            ..*old(self)
                        })
                    }
                }
            },
    {
        if self.won || self.caught_by_rat {
            return UpgradeOutcome::Ignored;
        }
        if keys.toggle {
            self.upgrade_menu_open = !self.upgrade_menu_open;
            return UpgradeOutcome::MenuToggled;
        }
        if !self.upgrade_menu_open {
            return UpgradeOutcome::Ignored;
        }
        if keys.close {
            self.upgrade_menu_open = false;
            return UpgradeOutcome::MenuClosed;
        }
        if keys.switch {
            self.upgrade_selection = 1 - self.upgrade_selection;
            return UpgradeOutcome::SelectionChanged;
        }
        if !keys.buy {
            return UpgradeOutcome::Ignored;
        }
        if self.upgrade_selection == 0 {
            let cost = upgrade_cost(self.pickaxe_level);
            if self.ore < cost {
                return UpgradeOutcome::NotEnoughOre(cost);
            }
            self.ore = self.ore - cost;
            self.pickaxe_level = self.pickaxe_level + 1;
            self.max_energy = self.max_energy + 1;
            self.energy = self.max_energy;
            UpgradeOutcome::BoughtMining
        } else {
            let cost = upgrade_cost(self.speed_level);
            if self.ore < cost {
                return UpgradeOutcome::NotEnoughOre(cost);
            }
            self.ore = self.ore - cost;
            self.speed_level = self.speed_level + 1;
            UpgradeOutcome::BoughtSpeed
        }
    }

    /// What the open upgrade menu shows; `None` while it is closed.
    pub fn upgrade_menu(&self) -> (menu: Option<UpgradeMenu>)
        requires
            self.pickaxe_level < u32::MAX,
            self.speed_level < u32::MAX,
        ensures
            !self.upgrade_menu_open ==> menu is None,
            self.upgrade_menu_open ==> menu == Some(UpgradeMenu {
                ore: self.ore,
                mining_selected: self.upgrade_selection == 0,
                mining_cost: upgrade_price(self.pickaxe_level) as u32,
                mining_level: self.pickaxe_level,
                mining_next_level: (self.pickaxe_level + 1) as u32,
                speed_selected: self.upgrade_selection == 1,
                speed_cost: upgrade_price(self.speed_level) as u32,
                speed_level: self.speed_level,
                speed_next_level: (self.speed_level + 1) as u32,
            }),
    {
        if !self.upgrade_menu_open {
            return None;
        }
        Some(UpgradeMenu {
            ore: self.ore,
            mining_selected: self.upgrade_selection == 0,
            mining_cost: upgrade_cost(self.pickaxe_level),
            mining_level: self.pickaxe_level,
            mining_next_level: self.pickaxe_level + 1,
            speed_selected: self.upgrade_selection == 1,
            speed_cost: upgrade_cost(self.speed_level),
            speed_level: self.speed_level,
            speed_next_level: self.speed_level + 1,
        })
    }

    /// Mining the wall on side `direction` of `cell`, where `segment` is the
    /// wall piece standing on that edge, if any. A boundary wall cannot be
    /// mined; mining spends one energy; a hard wall cracks until its last hit,
    /// and on the last hit the wall is gone from both of its cells.
    pub fn mine_wall(
        &mut self,
        maze: &mut MazeMap,
        cell: Cell,
        direction: Direction,
        segment: Option<WallSegment>,
    ) -> (result: (MineOutcome, Option<WallSegment>))
        requires
            in_grid(cell),
            segment matches Some(s) ==> s.hits_remaining <= s.max_hits,
            old(self).mined_walls < u32::MAX,
        ensures
            run_ok(*old(self)) ==> run_ok(*final(self)),
            !old(maze).wall(cell, direction) ==> result.0 == MineOutcome::NoWall,
            old(maze).wall(cell, direction) && segment is None ==> result.0 == MineOutcome::NoSegment,
            old(maze).wall(cell, direction) ==> (segment matches Some(s) ==> {
                if !s.mineable {
                    result.0 == MineOutcome::Unbreakable
                } else if old(self).energy == 0 {
                    result.0 == MineOutcome::OutOfEnergy
                } else if s.hits_remaining > 1 {
                    let left = (s.hits_remaining - 1) as u8;
                    let stage = (s.max_hits - left) as int;
                    &&& result.0 == MineOutcome::Cracked(if stage < 2 { stage as usize } else { 2 })
                    &&& result.1 == Some(WallSegment { hits_remaining: left, ..s })
                    &&& *final(self) == (RunState { energy: (old(self).energy - 1) as u32, ..*old(self) })
                    &&& *final(maze) == *old(maze)
                } else {
                    &&& result.0 == MineOutcome::Broken(s.ore_deposit)
                    &&& *final(self) == (RunState {
                        energy: (old(self).energy - 1) as u32,
                        mined_walls: (old(self).mined_walls + 1) as u32,
                        ..*old(self)
                    })
                    &&& final(maze).wall(cell, direction) == false
                    &&& old(maze).consistent() && neighbor_of(cell, direction) is Some ==> final(maze).consistent()
                    &&& forall|c: Cell, d: Direction| in_grid(c) ==> #[trigger] final(maze).wall(c, d) == if c == cell && d == direction {
                        false
                    } else if neighbor_of(cell, direction) == Some(c) && d == direction.reverse() {
                        false
                    } else {
                        old(maze).wall(c, d)
                    }
                }
            }),
            match result.0 {
                MineOutcome::Cracked(_) | MineOutcome::Broken(_) => true,
                _ => *final(self) == *old(self) && *final(maze) == *old(maze) && result.1 == segment,
            },
            match result.0 {
                MineOutcome::Broken(_) => result.1 is None,
                _ => true,
            },
    {
        if !maze.has_wall(cell, direction) {
            return (MineOutcome::NoWall, segment);
        }
        let mut piece = match segment {
            Some(s) => s,
            None => {
                return (MineOutcome::NoSegment, segment);
            },
        };
        if !piece.mineable {
            return (MineOutcome::Unbreakable, segment);
        }
        if self.energy == 0 {
            return (MineOutcome::OutOfEnergy, segment);
        }
        self.energy = self.energy - 1;
        if piece.hits_remaining > 1 {
            piece.hits_remaining = piece.hits_remaining - 1;
            let stage = (piece.max_hits - piece.hits_remaining) as usize;
            let crack = if stage < 2 { stage } else { 2 };
            return (MineOutcome::Cracked(crack), Some(piece));
        }
        let ghost before = *maze;
        maze.set_wall(cell, direction, false);
        let ghost middle = *maze;
        if let Some(next) = neighbor_cell(cell, direction) {
            proof {
                crate::maze::lemma_neighbor_back(cell, direction);
            }
            maze.set_wall(next, direction.opposite(), false);
        }
        proof {
            assert forall|c: Cell, d: Direction| in_grid(c) implies #[trigger] maze.wall(c, d) == if c == cell && d == direction {
                false
            } else if neighbor_of(cell, direction) == Some(c) && d == direction.reverse() {
                false
            } else {
                before.wall(c, d)
            } by {
                assert(before.wall(c, d) == before.wall(c, d));
                assert(middle.wall(c, d) == middle.wall(c, d));
                if neighbor_of(cell, direction) == Some(c) {
                    crate::maze::lemma_neighbor_back(cell, direction);
                }
            }
        }
        proof {
            if before.consistent() && neighbor_of(cell, direction) is Some {
                crate::maze::lemma_neighbor_back(cell, direction);
                assert forall|c: Cell, d: Direction| in_grid(c) implies match neighbor_of(c, d) {
                    Some(n) => #[trigger] maze.wall(c, d) == maze.wall(n, d.reverse()),
                    None => maze.wall(c, d),
                } by {
                    assert(before.wall(c, d) == before.wall(c, d));
                    if neighbor_of(c, d) is Some {
                        let n = neighbor_of(c, d).unwrap();
                        crate::maze::lemma_neighbor_back(c, d);
                        assert(before.wall(n, d.reverse()) == before.wall(n, d.reverse()));
                        assert(d.reverse().reverse() == d);
                        if neighbor_of(cell, direction) is Some {
                            crate::maze::lemma_neighbor_back(cell, direction);
                        }
                    }
                }
            }
        }
        self.mined_walls = self.mined_walls + 1;
        (MineOutcome::Broken(piece.ore_deposit), None)
    }

    /// Dropping a trail marker in `cell`: one per cell, and only while
    /// markers are left.
    pub fn drop_trail_marker(&mut self, marked: &mut CellFlags, cell: Cell) -> (outcome: MarkerOutcome)
        requires
            in_grid(cell),
        ensures
            run_ok(*old(self)) ==> run_ok(*final(self)),
            flag(*old(marked), cell) ==> outcome == MarkerOutcome::AlreadyMarked,
            !flag(*old(marked), cell) && old(self).markers == 0 ==> outcome == MarkerOutcome::NoneLeft,
            !flag(*old(marked), cell) && old(self).markers > 0 ==> outcome == MarkerOutcome::Dropped,
            outcome != MarkerOutcome::Dropped ==> *final(self) == *old(self) && *final(marked) == *old(marked),
            outcome == MarkerOutcome::Dropped ==> {
                &&& *final(self) == (RunState { markers: (old(self).markers - 1) as u32, ..*old(self) })
                &&& flag(*final(marked), cell)
                &&& forall|c: Cell| in_grid(c) && c != cell ==> #[trigger] flag(*final(marked), c) == flag(*old(marked), c)
            },
    {
        if marked[cell.1][cell.0] {
            return MarkerOutcome::AlreadyMarked;
        }
        if self.markers == 0 {
            return MarkerOutcome::NoneLeft;
        }
        let ghost before = *marked;
        self.markers = self.markers - 1;
        marked[cell.1][cell.0] = true;
        proof {
            assert forall|c: Cell| in_grid(c) && c != cell implies #[trigger] flag(*marked, c) == flag(before, c) by {
                assert(before[c.1 as int][c.0 as int] == flag(before, c));
            }
        }
        MarkerOutcome::Dropped
    }

    /// Whether the points, with the escape bonus, fit the score's type.
    pub fn score_fits(&self) -> (fits: bool)
        ensures
            fits == (gross_points(*self) <= u32::MAX),
    {
        let base = scaled(self.treasure, TREASURE_POINTS) + scaled(self.ore, ORE_POINTS) + scaled(
            self.keys,
            KEY_POINTS,
        ) + scaled(self.doors_unlocked, DOOR_POINTS) + scaled(self.chests_opened, CHEST_POINTS)
            + scaled(self.mined_walls, MINED_WALL_POINTS);
        let bonus: u64 = if self.won {
            ESCAPE_BONUS as u64
        } else {
            0
        };
        base + bonus <= u32::MAX as u64
    }

    /// The time shown and the score keep running until the run is over.
    pub fn clock_running(&self) -> (running: bool)
        ensures
            running == !(self.won || self.caught_by_rat),
    {
        !(self.won || self.caught_by_rat)
    }

    /// Speed upgrades bought beyond the first level.
    pub fn speed_bonus_levels(&self) -> (levels: u32)
        ensures
            levels == (if self.speed_level >= 1 { self.speed_level - 1 } else { 0 }),
    {
        self.speed_level.saturating_sub(1)
    }
}

impl RunState {
    /// The HUD's last line: how the run stands.
    pub fn objective_text(&self) -> (text: &'static str)
        ensures
            text@ == if self.won {
                "Escaped!"@
            } else if self.caught_by_rat {
                "Caught by the rat!"@
            } else {
                "Find the exit"@
            },
    {
        if self.won {
            "Escaped!"
        } else if self.caught_by_rat {
            "Caught by the rat!"
        } else {
            "Find the exit"
        }
    }

    /// The HUD's restart hint, shown once the run is over.
    pub fn restart_hint(&self) -> (text: &'static str)
        ensures
            text@ == if self.won || self.caught_by_rat {
                "  R: restart"@
            } else {
                ""@
            },
    {
        if self.won || self.caught_by_rat {
            "  R: restart"
        } else {
            ""
        }
    }
}

impl NavigationState {
    /// The HUD's map hint, shown once the treasure map is found.
    pub fn map_hint(&self) -> (text: &'static str)
        ensures
            text@ == if self.treasure_map_collected {
                "  M: map"@
            } else {
                ""@
            },
    {
        if self.treasure_map_collected {
            "  M: map"
        } else {
            ""
        }
    }

    /// The HUD's compass hint, shown until the compass is found.
    pub fn compass_hint(&self) -> (text: &'static str)
        ensures
            text@ == if self.compass_collected {
                ""@
            } else {
                "  Find compass"@
            },
    {
        if self.compass_collected {
            ""
        } else {
            "  Find compass"
        }
    }
}

/// The upgrade menu's contents.
#[derive(Clone, Copy, Debug, PartialEq, Eq, Structural)]
pub struct UpgradeMenu {
    pub ore: u32,
    pub mining_selected: bool,
    pub mining_cost: u32,
    pub mining_level: u32,
    pub mining_next_level: u32,
    pub speed_selected: bool,
    pub speed_cost: u32,
    pub speed_level: u32,
    pub speed_next_level: u32,
}

/// What the player has found of the navigation tools.
#[derive(Clone, Copy)]
pub struct NavigationState {
    pub key_cell: Option<Cell>,
    pub compass_cell: Option<Cell>,
    pub key_collected: bool,
    pub compass_collected: bool,
    pub treasure_map_collected: bool,
    pub door_unlocked: bool,
    pub show_treasure_map: bool,
}

/// What the treasure map shows.
#[derive(Clone, Copy, Debug, PartialEq, Eq)]
pub enum MapView {
    /// Not found yet, or put away.
    Hidden,
    /// Points to the key.
    Key(Cell),
    /// The key's place is unknown.
    KeyLost,
    /// Points to the compass.
    Compass(Cell),
    /// The compass's place is unknown.
    CompassLost,
    /// Key and compass are both found.
    TreasureFound,
}

/// What the exit compass shows.
#[derive(Clone, Copy, Debug, PartialEq, Eq, Structural)]
pub enum CompassView {
    /// The compass is not found yet.
    Hidden,
    /// Points to the exit, red: the key is still missing.
    ExitLocked,
    /// Points to the exit, green: the key is in hand.
    ExitUnlocked,
}

impl NavigationState {
    pub fn new() -> (n: NavigationState)
        ensures
            nav_ok(n),
            n.key_cell is None && n.compass_cell is None,
            !n.key_collected && !n.compass_collected && !n.treasure_map_collected,
            !n.door_unlocked && !n.show_treasure_map,
    {
        NavigationState {
            key_cell: None,
            compass_cell: None,
            key_collected: false,
            compass_collected: false,
            treasure_map_collected: false,
            door_unlocked: false,
            show_treasure_map: false,
        }
    }

    pub fn collect_compass(&mut self)
        ensures
            nav_ok(*old(self)) ==> nav_ok(*final(self)),
            *final(self) == (NavigationState { compass_collected: true, ..*old(self) }),
    {
        self.compass_collected = true;
    }

    /// Picking up the treasure map also opens it.
    pub fn collect_treasure_map(&mut self)
        ensures
            nav_ok(*old(self)) ==> nav_ok(*final(self)),
            *final(self) == (NavigationState { treasure_map_collected: true, show_treasure_map: true, ..*old(self) }),
    {
        self.treasure_map_collected = true;
        self.show_treasure_map = true;
    }

    /// The map key opens or closes the map, once it is found and while the
    /// run goes on.
    pub fn toggle_treasure_map(&mut self, run_state: &RunState, map_pressed: bool)
        ensures
            nav_ok(*old(self)) ==> nav_ok(*final(self)),
            run_state.won || run_state.caught_by_rat || !old(self).treasure_map_collected || !map_pressed ==> *final(self) == *old(self),
            !(run_state.won || run_state.caught_by_rat || !old(self).treasure_map_collected || !map_pressed) ==> *final(self) == (NavigationState {
                show_treasure_map: !old(self).show_treasure_map,
                ..*old(self)
            }),
    {
        if run_state.won || run_state.caught_by_rat || !self.treasure_map_collected || !map_pressed {
            return;
        }
        self.show_treasure_map = !self.show_treasure_map;
    }

    /// The treasure map points to the key first, then to the compass while
    /// that is still missing.
    pub fn map_view(&self) -> (view: MapView)
        ensures
            view == if !self.treasure_map_collected || !self.show_treasure_map {
                MapView::Hidden
            } else if !self.key_collected {
                match self.key_cell {
                    Some(c) => MapView::Key(c),
                    None => MapView::KeyLost,
                }
            } else if !self.compass_collected {
                match self.compass_cell {
                    Some(c) => MapView::Compass(c),
                    None => MapView::CompassLost,
                }
            } else {
                MapView::TreasureFound
            },
    {
        if !self.treasure_map_collected || !self.show_treasure_map {
            return MapView::Hidden;
        }
        if !self.key_collected {
            match self.key_cell {
                Some(c) => MapView::Key(c),
                None => MapView::KeyLost,
            }
        } else if !self.compass_collected {
            match self.compass_cell {
                Some(c) => MapView::Compass(c),
                None => MapView::CompassLost,
            }
        } else {
            MapView::TreasureFound
        }
    }

    /// The exit compass shows once found: red without the key, green with it.
    pub fn compass_view(&self) -> (view: CompassView)
        ensures
            view == if !self.compass_collected {
                CompassView::Hidden
            } else if self.key_collected {
                CompassView::ExitUnlocked
            } else {
                CompassView::ExitLocked
            },
    {
        if !self.compass_collected {
            CompassView::Hidden
        } else if self.key_collected {
            CompassView::ExitUnlocked
        } else {
            CompassView::ExitLocked
        }
    }
}

} // verus!
