//! The card a player has lifted out of the hand and not yet placed.

use crate::cards::CardId;
use crate::game_state::CardStats;
use vstd::prelude::*;

verus! {

/// What the cursor carries: nothing, or one card with the state it had when
/// it was picked up.
#[derive(Clone, Copy, PartialEq, Eq, Debug, Structural)]
pub enum CustomCursor {
    Default,
    Card { card: CardId, stats: CardStats },
}

impl Default for CustomCursor {
    fn default() -> (cursor: CustomCursor)
        ensures
            cursor == CustomCursor::Default,
    {
        CustomCursor::Default
    }
}

} // verus!
