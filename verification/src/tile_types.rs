//! The closed enumeration of tile kinds, with the two static lookup tables
//! gameplay derives from a kind: *blocking* (cannot be entered) and *pickup*
//! (consumed on contact, granting a reward).

use vstd::prelude::*;

verus! {

/// All the available tile types.
#[derive(Debug, Copy, Clone, Eq, PartialEq, Structural)]
pub enum TileType {
    Debug,
    WoodenWall,
    GrassFloor,
    Pengu,
    Door,
    Chest,
    Coin,
    Cat,
    StoneFloor,
    Bush,
    GrassStones,
    Pond,
    SandFloor,
    StoneWall,
    StoneEngraving,
    SandStones,
    WhiteFlower,
    MushroomOrange,
    MushroomBrown,
    TreeStomp,
    VioletFlower,
    MushroomRed,
    Placeholder,
}

impl Default for TileType {
    fn default() -> (r: Self)
        ensures
            r == TileType::Debug,
    {
        Self::Debug
    }
}

/// Whether a tile kind blocks movement into its cell.  A pure function of
/// the kind: one static total lookup table.
pub open spec fn blocking(tile: TileType) -> bool {
    match tile {
        TileType::Debug => false,
        TileType::Placeholder => false,
        TileType::WoodenWall => true,
        TileType::GrassFloor => false,
        TileType::Pengu => true,
        TileType::Door => true,
        TileType::Chest => false,
        TileType::Coin => false,
        TileType::Cat => true,
        TileType::StoneFloor => false,
        TileType::Bush => true,
        TileType::GrassStones => false,
        TileType::Pond => true,
        TileType::SandFloor => false,
        TileType::StoneWall => true,
        TileType::StoneEngraving => true,
        TileType::SandStones => false,
        TileType::WhiteFlower => false,
        TileType::MushroomOrange => false,
        TileType::MushroomBrown => false,
        TileType::TreeStomp => true,
        TileType::VioletFlower => false,
        TileType::MushroomRed => false,
    }
}

/// Whether a tile kind is consumed on contact.
pub open spec fn pickup(tile: TileType) -> bool {
    match tile {
        TileType::Chest => true,
        TileType::Coin => true,
        _ => false,
    }
}

/// Score granted when a pickup of this kind is consumed: a minor reward for
/// a coin, a major one for a chest, nothing otherwise.
pub open spec fn reward(tile: TileType) -> int {
    match tile {
        TileType::Coin => 1,
        TileType::Chest => 5,
        _ => 0,
    }
}

} // verus!
