//! Balancing of players into evenly matched teams for a five-position arena
//! game, from per-position summaries of each player's past games.
//!
//! Point values (MVP points, hit differentials) are fixed-point integers in
//! thousandths of a point; ranking scores are in millionths.
//!
//! - `aggregate`, `stats`: reducing a player's recorded games to one summary
//!   per position (median or mean, with fallbacks for positions never played).
//! - `score`: the ranking score of a summary.
//! - `positions`, `roster`: position labels, game layouts and blank rosters.
//! - `overrides`, `selection`: pinning players to positions, then filling the
//!   roster, randomly or by matching scores across teams.
//! - `grid`, `ledger`: the roster as a grid of slots, and the bookkeeping that
//!   shows every player ends up in at most one slot.
//! - `laws`: properties that relate several calls.
//! - `chance`: the random draws.

pub mod aggregate;
pub mod chance;
pub mod error;
pub mod grid;
pub mod laws;
pub mod ledger;
pub mod overrides;
pub mod positions;
pub mod roster;
pub mod score;
pub mod selection;
pub mod stats;
