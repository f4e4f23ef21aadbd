use vstd::prelude::*;

verus! {

/// Why a balancing run, a roster request or a summary was refused.
#[derive(Clone, Copy, Debug, PartialEq, Eq, Structural)]
pub enum SelectionError {
    /// Fewer players were supplied than the roster has slots.
    NotEnoughPlayers,
    /// The same player id was supplied twice.
    DuplicatePlayer,
    /// A position override names a player who is not in the pool.
    UnknownOverridePlayer(u64),
    /// A position override names a position with no free slot left on the first team.
    NoFreeSlot { player_id: u64, position: u64 },
    /// The roster handed to the engine is not a blank roster of one layout.
    MalformedRoster,
    /// The requested game layout has no roster definition.
    UnsupportedLayout,
    /// The requested algorithm or aggregation mode is declared but not implemented.
    NotImplemented,
}

} // verus!
