//! What combat leaves behind, slot by slot: the cards that faced each other
//! and the health of the teams.

use crate::controller_view::ControllerView;
use crate::game_state::{CardSlot, CardSlotType, CardStats, Team};
use crate::stacking::Occupant;
use vstd::prelude::*;

verus! {

/// What a slot holds after what it held took `damage`: a card without hit
/// points and an empty slot stay as they are, a card whose hit points would
/// fall to zero is gone, any other card has its hit points lowered.
pub open spec fn struck(cell: Occupant, damage: u32) -> Occupant {
    match cell {
        Some((card, CardStats { hp: Some(hp) })) => if hp <= damage {
            None
        } else {
            Some((card, CardStats { hp: Some((hp - damage) as u32) }))
        },
        _ => cell,
    }
}

/// The health that is left of `health` after it lost `amount`.
pub open spec fn drained_health(health: u32, amount: int) -> u32 {
    if health <= amount {
        0
    } else {
        (health - amount) as u32
    }
}

impl ControllerView {
    /// The slot across the board from `slot`: the same row and index of the
    /// other team.
    pub open spec fn facing(slot: CardSlot) -> CardSlot {
        CardSlot { team: slot.team.opponent(), ..slot }
    }

    /// The damage the card in `slot` deals; an empty slot deals none.
    pub open spec fn attack_at(self, slot: CardSlot) -> u32 {
        match self.card(slot) {
            Some((card, _)) => self.cards[card as int].attack(),
            None => 0,
        }
    }

    /// What `slot` holds after combat: a card in a play slot that faces a
    /// card has taken that card's damage; anything else is as it was.
    pub open spec fn after_combat(self, slot: CardSlot) -> Occupant {
        if slot.slot_type == CardSlotType::Play && self.card(slot) is Some && self.card(
            Self::facing(slot),
        ) is Some {
            struck(self.card(slot), self.attack_at(Self::facing(slot)))
        } else {
            self.card(slot)
        }
    }

    /// The damage that `team` takes to its health at the play slot `id`:
    /// that of the card across the board if the team's own slot is empty.
    pub open spec fn unanswered_at(self, team: Team, id: int) -> u32 {
        let own = CardSlot::at(team, CardSlotType::Play, id);
        if self.card(own) is None {
            self.attack_at(Self::facing(own))
        } else {
            0
        }
    }

    /// The damage that `team` takes to its health at the first `upto` play
    /// slots together.
    pub open spec fn unanswered(self, team: Team, upto: nat) -> int
        decreases upto,
    {
        if upto == 0 {
            0
        } else {
            self.unanswered(team, (upto - 1) as nat) + self.unanswered_at(team, upto - 1)
        }
    }

    /// Damage to the card in a slot changes what that slot holds and
    /// nothing else.
    pub proof fn lemma_damage_card(self, slot: CardSlot, damage: u32)
        requires
            self.wf(),
            slot.within(self.slot_count),
        ensures
            self.damage_card(slot, damage).wf(),
            self.damage_card(slot, damage).slot_count == self.slot_count,
            self.damage_card(slot, damage).cards == self.cards,
            self.damage_card(slot, damage).team_health == self.team_health,
            self.damage_card(slot, damage).card(slot) == struck(self.card(slot), damage),
            forall|other: CardSlot|
                other != slot ==> #[trigger] self.damage_card(slot, damage).card(other)
                    == self.card(other),
    {
        let after = self.damage_card(slot, damage);
        self.lemma_card_known(slot);
        assert(self.board.dom().contains(slot));
        assert(after.board.dom() =~= self.board.dom());
        assert forall|other: CardSlot| #[trigger]
            after.board.dom().contains(other) implies after.known(after.board[other]) by {
            assert(self.board.dom().contains(other));
        }
    }

    /// Damage to the health of a team changes that health and nothing else
    /// on the board.
    pub proof fn lemma_hurt_team(self, team: Team, amount: u32)
        requires
            self.wf(),
        ensures
            self.hurt_team(team, amount).wf(),
            self.hurt_team(team, amount).slot_count == self.slot_count,
            self.hurt_team(team, amount).cards == self.cards,
            self.hurt_team(team, amount).board == self.board,
            self.hurt_team(team, amount).team_health[team] == drained_health(
                self.team_health[team],
                amount as int,
            ),
            self.hurt_team(team, amount).team_health[team.opponent()]
                == self.team_health[team.opponent()],
    {
        let after = self.hurt_team(team, amount);
        assert(after.team_health.dom() =~= self.team_health.dom());
    }

    /// When the play slots `id` of the two teams meet, only those two slots
    /// and the health of the teams can change: each slot is left as combat
    /// leaves it, and each team loses what it takes there.
    pub proof fn lemma_fight_pair(self, team: Team, id: int)
        requires
            self.wf(),
            0 <= id < self.slot_count,
        ensures
            self.fight_pair(team, id).wf(),
            self.fight_pair(team, id).slot_count == self.slot_count,
            self.fight_pair(team, id).cards == self.cards,
            forall|slot: CardSlot|
                slot.slot_type == CardSlotType::Play && slot.id == id ==> #[trigger] self.fight_pair(
                    team,
                    id,
                ).card(slot) == self.after_combat(slot),
            forall|slot: CardSlot|
                !(slot.slot_type == CardSlotType::Play && slot.id == id) ==> #[trigger] self.fight_pair(
                    team,
                    id,
                ).card(slot) == self.card(slot),
            forall|side: Team| #[trigger]
                self.fight_pair(team, id).team_health[side] == drained_health(
                    self.team_health[side],
                    self.unanswered_at(side, id) as int,
                ),
    {
        let mine = CardSlot::at(team, CardSlotType::Play, id);
        let theirs = CardSlot::at(team.opponent(), CardSlotType::Play, id);
        let after = self.fight_pair(team, id);
        assert(Self::facing(mine) == theirs);
        assert(Self::facing(theirs) == mine);
        assert forall|slot: CardSlot|
            slot.slot_type == CardSlotType::Play && slot.id == id implies slot == mine || slot
            == theirs by {
            if slot.team == team {
                assert(slot == mine);
            } else {
                assert(slot == theirs);
            }
        }
        match (self.card(mine), self.card(theirs)) {
            (Some((current, _)), Some((foe, _))) => {
                let dealt = self.cards[current as int].attack();
                let taken = self.cards[foe as int].attack();
                self.lemma_damage_card(theirs, dealt);
                self.damage_card(theirs, dealt).lemma_damage_card(mine, taken);
            },
            (None, Some((foe, _))) => {
                self.lemma_hurt_team(team, self.cards[foe as int].attack());
            },
            (Some((current, _)), None) => {
                self.lemma_hurt_team(team.opponent(), self.cards[current as int].attack());
            },
            (None, None) => {},
        }
        assert forall|side: Team| #[trigger]
            after.team_health[side] == drained_health(
                self.team_health[side],
                self.unanswered_at(side, id) as int,
            ) by {
            if side == team {
                assert(CardSlot::at(side, CardSlotType::Play, id) == mine);
            } else {
                assert(side == team.opponent());
                assert(CardSlot::at(side, CardSlotType::Play, id) == theirs);
            }
        }
    }

    /// What combat over the first `upto` pairs of play slots leaves behind.
    /// Each of those slots is left as combat leaves it: a card that faced a
    /// card has taken that card's damage. Every other slot holds what it
    /// held. Each team has lost, down to zero at most, the damage of the
    /// cards that faced an empty slot of the team.
    pub proof fn lemma_fight(self, team: Team, upto: nat)
        requires
            self.wf(),
            upto <= self.slot_count,
        ensures
            self.fight(team, upto).wf(),
            self.fight(team, upto).slot_count == self.slot_count,
            self.fight(team, upto).cards == self.cards,
            forall|slot: CardSlot|
                slot.slot_type == CardSlotType::Play && slot.id < upto ==> #[trigger] self.fight(
                    team,
                    upto,
                ).card(slot) == self.after_combat(slot),
            forall|slot: CardSlot|
                !(slot.slot_type == CardSlotType::Play && slot.id < upto) ==> #[trigger] self.fight(
                    team,
                    upto,
                ).card(slot) == self.card(slot),
            forall|side: Team| #[trigger]
                self.fight(team, upto).team_health[side] == drained_health(
                    self.team_health[side],
                    self.unanswered(side, upto),
                ),
            forall|side: Team| 0 <= #[trigger] self.unanswered(side, upto),
        decreases upto,
    {
        if upto > 0 {
            let before = self.fight(team, (upto - 1) as nat);
            let id = upto - 1;
            self.lemma_fight(team, (upto - 1) as nat);
            before.lemma_fight_pair(team, id);
            let after = self.fight(team, upto);
            assert forall|slot: CardSlot|
                slot.slot_type == CardSlotType::Play && slot.id < upto implies #[trigger] after.card(
                slot,
            ) == self.after_combat(slot) by {
                if slot.id == id {
                    assert(before.card(slot) == self.card(slot));
                    assert(before.card(Self::facing(slot)) == self.card(Self::facing(slot)));
                    assert(before.after_combat(slot) == self.after_combat(slot));
                }
            }
            assert forall|side: Team| #[trigger]
                after.team_health[side] == drained_health(
                    self.team_health[side],
                    self.unanswered(side, upto),
                ) by {
                let own = CardSlot::at(side, CardSlotType::Play, id);
                assert(before.card(own) == self.card(own));
                assert(before.card(Self::facing(own)) == self.card(Self::facing(own)));
                assert(before.unanswered_at(side, id) == self.unanswered_at(side, id));
                assert(0 <= self.unanswered(side, (upto - 1) as nat));
            }
            assert forall|side: Team| 0 <= #[trigger] self.unanswered(side, upto) by {
                assert(0 <= self.unanswered(side, (upto - 1) as nat));
            }
        }
    }
}

} // verus!
