//! What a front end needs to decide before it draws: which picture stands for
//! a tile, and which banner, if any, lies over the board.

use crate::data::{GameState, Tile};
use vstd::prelude::*;

verus! {

/// The place of a tile's picture in the row of pictures: the open tile
/// without number first, then the flag, the mine, the closed tile, and the
/// numbers from one upwards.
pub open spec fn sprite_of(t: Tile) -> int {
    if t.is_flagged {
        1
    } else if t.is_opened {
        if t.is_mine {
            2
        } else if t.number != 0 {
            3 + t.number
        } else {
            0
        }
    } else {
        3
    }
}

/// Picks the picture for a tile. A flag hides whatever is beneath it, a
/// closed tile shows nothing of itself, and an open one shows its mine, its
/// number, or that it is empty.
pub fn sprite_index(t: Tile) -> (i: i64)
    ensures
        i == sprite_of(t),
{
    if t.is_flagged {
        1
    } else if t.is_opened {
        if t.is_mine {
            2
        } else if t.number != 0 {
            3 + t.number as i64
        } else {
            0
        }
    } else {
        3
    }
}

/// The banner that lies over the board.
#[derive(Clone, Copy, Debug, PartialEq, Eq, Structural)]
pub enum Banner {
    /// The game is lost.
    Lost,
    /// The game is won.
    Won,
    /// The state carries a message for the player.
    Note,
}

/// Says which banner to show: that the game is lost, else that it is won,
/// else the message if there is one, else none.
pub fn banner(state: &GameState) -> (b: Option<Banner>)
    ensures
        b == if state.lost {
            Some(Banner::Lost)
        } else if state.won {
            Some(Banner::Won)
        } else if state.message@.len() > 0 {
            Some(Banner::Note)
        } else {
            None
        },
{
    if state.lost {
        Some(Banner::Lost)
    } else if state.won {
        Some(Banner::Won)
    } else if !state.message.as_str().is_empty() {
        Some(Banner::Note)
    } else {
        None
    }
}

/// More flags stand on the board than there are mines.
pub fn over_flagged(state: &GameState) -> (b: bool)
    ensures
        b == (state.flags_left < 0),
{
    state.flags_left < 0
}

} // verus!
