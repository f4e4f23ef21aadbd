use vstd::prelude::*;

verus! {

/// Number of positions in the game.
pub const POSITION_COUNT: u64 = 5;

/// Canonical display label of the position with the given index.
pub open spec fn position_label(i: int) -> Seq<char> {
    if i == 0 {
        "Commander"@
    } else if i == 1 {
        "Heavy Weapons"@
    } else if i == 2 {
        "Scout"@
    } else if i == 3 {
        "Ammo Carrier"@
    } else {
        "Medic"@
    }
}

/// The canonical label of position `i` (0 Commander, 1 Heavy Weapons, 2 Scout,
/// 3 Ammo Carrier, 4 Medic).
pub fn set_position_from_index(i: u64) -> (r: String)
    requires
        i < POSITION_COUNT,
    ensures
        r@ == position_label(i as int),
{
    proof {
        reveal_strlit("Commander");
        reveal_strlit("Heavy Weapons");
        reveal_strlit("Scout");
        reveal_strlit("Ammo Carrier");
        reveal_strlit("Medic");
    }
    if i == 0 {
        "Commander".to_owned()
    } else if i == 1 {
        "Heavy Weapons".to_owned()
    } else if i == 2 {
        "Scout".to_owned()
    } else if i == 3 {
        "Ammo Carrier".to_owned()
    } else {
        "Medic".to_owned()
    }
}

} // verus!
