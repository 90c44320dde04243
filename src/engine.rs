use vstd::prelude::*;

use crate::tile::TileStatus;

verus! {

/// The tool the player acts with.
#[derive(Clone, Copy, Debug, PartialEq, Eq, Structural)]
pub enum ToolType {
    Shovel,
    SimpleFlag,
    QuantFlag,
}

/// A flag tool used on a tile: an opened tile stays, a flag or quantum flag is taken off (a
/// quantum flag goes back to the stock), a hidden tile gets a flag, or a quantum flag while
/// the stock lasts. Gives the new status and the stock left.
pub open spec fn toggled(status: TileStatus, tool: ToolType, flags_left: usize) -> (TileStatus, usize) {
    match status {
        TileStatus::Opened => (status, flags_left),
        TileStatus::Flag => (TileStatus::Hidden, flags_left),
        TileStatus::QuantFlag => (
            TileStatus::Hidden,
            if flags_left < usize::MAX {
                (flags_left + 1) as usize
            } else {
                flags_left
            },
        ),
        TileStatus::Hidden => if tool == ToolType::QuantFlag {
            if flags_left > 0 {
                (TileStatus::QuantFlag, (flags_left - 1) as usize)
            } else {
                (status, flags_left)
            }
        } else {
            (TileStatus::Flag, flags_left)
        },
    }
}

/// The status a flag tool leaves on a tile, and the quantum flags left.
pub fn toggle_flag_status(status: TileStatus, tool: ToolType, flags_left: usize) -> (r: (
    TileStatus,
    usize,
))
    ensures
        r == toggled(status, tool, flags_left),
{
    match status {
        TileStatus::Opened => (status, flags_left),
        TileStatus::Flag => (TileStatus::Hidden, flags_left),
        TileStatus::QuantFlag => (
            TileStatus::Hidden,
            if flags_left < usize::MAX {
                flags_left + 1
            } else {
                flags_left
            },
        ),
        TileStatus::Hidden => {
            if tool == ToolType::QuantFlag {
                if flags_left > 0 {
                    (TileStatus::QuantFlag, flags_left - 1)
                } else {
                    (status, flags_left)
                }
            } else {
                (TileStatus::Flag, flags_left)
            }
        },
    }
}

} // verus!
