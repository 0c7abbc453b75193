//! The plain values a match is described with: teams, slots, per-card state
//! and the phases of a turn.

use crate::cards::CardType;
use vstd::prelude::*;

verus! {

/// One of the two sides of a match. Red orders before Blue.
#[derive(Clone, Copy, PartialEq, Eq, PartialOrd, Ord, Debug, Hash, Structural)]
pub enum Team {
    Red,
    Blue,
}

impl Team {
    /// The other side.
    pub open spec fn opponent(self) -> Team {
        match self {
            Team::Red => Team::Blue,
            Team::Blue => Team::Red,
        }
    }
}

impl std::ops::Not for Team {
    type Output = Team;

    fn not(self) -> (other: Team) {
        match self {
            Team::Blue => Team::Red,
            Team::Red => Team::Blue,
        }
    }
}

impl vstd::std_specs::ops::NotSpecImpl for Team {
    open spec fn obeys_not_spec() -> bool {
        true
    }

    open spec fn not_req(self) -> bool {
        true
    }

    open spec fn not_spec(self) -> Team {
        self.opponent()
    }
}

impl Default for Team {
    fn default() -> (team: Team)
        ensures
            team == Team::Red,
    {
        Team::Red
    }
}

/// The team whose turn it is.
#[derive(Clone, Copy, PartialEq, Eq, PartialOrd, Ord, Debug, Hash, Structural)]
pub struct CurrentTurnTeam(pub Team);

impl Default for CurrentTurnTeam {
    fn default() -> (current: CurrentTurnTeam)
        ensures
            current == CurrentTurnTeam(Team::Red),
    {
        CurrentTurnTeam(Team::Red)
    }
}

/// The category of the card that the next draw will offer, shown in advance.
#[derive(Clone, Copy, PartialEq, Eq, Debug, Hash, Structural)]
pub struct NextTurnCardType(pub CardType);

impl Default for NextTurnCardType {
    fn default() -> (next: NextTurnCardType)
        ensures
            next == NextTurnCardType(CardType::Hero),
    {
        NextTurnCardType(CardType::Hero)
    }
}

/// The two rows a team owns. Hand orders before Play.
#[derive(Clone, Copy, PartialEq, Eq, PartialOrd, Ord, Debug, Hash, Structural)]
pub enum CardSlotType {
    Hand,
    Play,
}

/// One addressable position of the board. Slots order by team, then row,
/// then index, which is the order rows are walked in.
#[derive(Clone, Copy, PartialEq, Eq, PartialOrd, Ord, Debug, Hash, Structural)]
pub struct CardSlot {
    pub team: Team,
    pub slot_type: CardSlotType,
    pub id: usize,
}

impl CardSlot {
    /// Whether the slot lies on a board with `slot_count` slots per row.
    pub open spec fn within(self, slot_count: nat) -> bool {
        self.id < slot_count
    }

    /// The slot of `team`'s `slot_type` row at position `id`.
    pub open spec fn at(team: Team, slot_type: CardSlotType, id: int) -> CardSlot
        recommends
            0 <= id <= usize::MAX,
    {
        CardSlot { team, slot_type, id: id as usize }
    }
}

/// The state a card carries while it lies on the board. A card without hit
/// points cannot be destroyed.
#[derive(Clone, Copy, PartialEq, Eq, PartialOrd, Ord, Debug, Hash, Structural)]
pub struct CardStats {
    pub hp: Option<u32>,
}

/// The phases of a turn, in the order they are passed through.
#[derive(Clone, Copy, PartialEq, Eq, Debug, Hash, Structural)]
pub enum TurnState {
    DrawCards,
    PlayCards,
    ApplyMoves,
}

impl TurnState {
    /// The phase that follows this one.
    pub open spec fn successor(self) -> TurnState {
        match self {
            TurnState::DrawCards => TurnState::PlayCards,
            TurnState::PlayCards => TurnState::ApplyMoves,
            TurnState::ApplyMoves => TurnState::DrawCards,
        }
    }
}

/// The phase and the team to move after the phase `state` of `team`'s turn
/// has ended: the turn passes to the other team when its moves have been
/// applied.
pub open spec fn turn_after(state: TurnState, team: Team) -> (TurnState, Team) {
    (
        state.successor(),
        if state == TurnState::ApplyMoves {
            team.opponent()
        } else {
            team
        },
    )
}

/// The phases form a cycle of three, and once around the cycle the turn has
/// passed to the other team exactly once: from any phase, three steps lead
/// back to it with the teams swapped, and six steps lead back to where the
/// match was.
pub proof fn lemma_turn_cycle(state: TurnState, team: Team)
    ensures
        ({
            let first = turn_after(state, team);
            let second = turn_after(first.0, first.1);
            let third = turn_after(second.0, second.1);
            &&& first.0 != state && second.0 != state && first.0 != second.0
            &&& third == (state, team.opponent())
            &&& (first.1 != team) != ((second.1 != first.1) != (third.1 != second.1))
            &&& !(first.1 != team && second.1 != first.1)
            &&& !(first.1 != team && third.1 != second.1)
            &&& !(second.1 != first.1 && third.1 != second.1)
        }),
        team.opponent().opponent() == team,
        team.opponent() != team,
{
}

impl Default for TurnState {
    fn default() -> (state: TurnState)
        ensures
            state == TurnState::DrawCards,
    {
        TurnState::DrawCards
    }
}

} // verus!
