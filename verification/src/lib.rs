//! A deterministic turn-based strategy game on a hexagonal grid.
//!
//! Players own contiguous regions of land tiles, buy and move units paid from
//! per-region treasuries, and capture each other's tiles. The `game` module
//! holds the whole engine: the map with its regions, the unit catalogue, the
//! rule validators and the turn state machine. The `init` module makes the
//! first state of a game of a blank map, and the `saves` module keeps the
//! list of the games that were saved.

pub mod game;
pub mod init;
pub mod saves;
