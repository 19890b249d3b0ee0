# Monkey Miner

A maze game: a miner monkey looks for the way out of a randomly carved
labyrinth, collects treasure, mines shortcuts, and keeps ahead of a rat.

The game's rules are a library verified with Verus; the window, the 3D scene,
sound and input live in a thin Bevy program around it.

| Path | What it holds |
| --- | --- |
| `src/maze.rs` | The grid, directions, walls, and walks through the maze |
| `src/generate.rs` | Carving a connected maze without loops, and sealing the exit chamber down to one door |
| `src/layout.rs` | Ore walls, the wall pieces and posts to raise, the whole maze plan |
| `src/search.rs` | Breadth-first searches: distances, the first shortest route, sight, sound lines |
| `src/placement.rs` | Where treasure, chests, the key, the door and the navigation tools go |
| `src/rat.rs` | The rat's wandering, hunting and squeaks |
| `src/run.rs` | One run's bookkeeping: score, upgrades, mining, markers, navigation tools |
| `src/random.rs` | The calls into `rand` |
| `tests/` | Tests of the library on concrete mazes and runs |
| `app/` | The Bevy program: scene, camera, physics of ore nuggets, sound, HUD |
