//! The slot board with the team health and the queue of pending board
//! changes: the authoritative state that the presentation follows.

use crate::cards::{Card, CardColor, CardId, CardType};
use crate::combat::drained_health;
use crate::controller_view::{
    compact_actions, dealt_to, hp_not_raised, lemma_compact_step,
    lemma_drawable_cards, stack_insert_actions, ControllerView,
};
use crate::entropy::next_uniform_index;
use crate::fusion::{first_with_colors, has_colors, lemma_first_with_colors_from_is, same_colors};
use crate::game_state::{CardSlot, CardSlotType, CardStats, Team};
use crate::stacking::{
    first_open, first_open_from, full, lemma_first_open_from, lemma_first_open_from_is,
    lemma_full_iff_no_first_open, lemma_partly_compacted_start, lemma_stack_insert, occupants,
    packed, partly_compacted, partly_inserted, stack_insert, Occupant,
};
use bevy_prng::WyRand;
use std::ops::Not;
use vstd::prelude::*;

verus! {

/// The health both teams start a match with.
pub const STARTING_HEALTH: u32 = 100;

/// The number of slots in each row of the standard board.
pub const CARD_SLOT_COUNT: usize = 8;

/// The number of cards each team is dealt for its opening hand.
pub const OPENING_HAND_SIZE: usize = 4;

/// A change of one slot that the board has made and the presentation has not
/// shown yet.
#[derive(Clone, Copy, PartialEq, Eq, Debug, Structural)]
pub enum ModifyCardAction {
    Remove { slot: CardSlot },
    Push { slot: CardSlot, card: CardId, stats: CardStats },
}

/// Why a card could not be drawn: the catalog is unfit for the match.
#[derive(Clone, Copy, PartialEq, Eq, Debug, Structural)]
pub enum CatalogError {
    /// The catalog holds no drawable card at all.
    NoDrawableCard,
    /// The catalog holds no drawable card of this category with this many
    /// colors.
    NoMatchingCard { card_type: CardType, color_len: usize },
}

/// Where a slot lies in the board's storage: the rows follow each other in
/// slot order.
spec fn storage_index(slot_count: nat, slot: CardSlot) -> int {
    match (slot.team, slot.slot_type) {
        (Team::Red, CardSlotType::Hand) => slot.id as int,
        (Team::Red, CardSlotType::Play) => slot_count + slot.id,
        (Team::Blue, CardSlotType::Hand) => 2 * slot_count + slot.id,
        (Team::Blue, CardSlotType::Play) => 3 * slot_count + slot.id,
    }
}

/// The board of a match, the health of its teams and the changes queued for
/// the presentation, together with the catalog the cards come from.
pub struct GameController {
    slot_count: usize,
    cards: Vec<Card>,
    red_health: u32,
    blue_health: u32,
    current_cards: Vec<Occupant>,
    valid_new_cards: Vec<CardId>,
    card_modifications: Vec<ModifyCardAction>,
    team_health_updated: bool,
}

impl View for GameController {
    type V = ControllerView;

    closed spec fn view(&self) -> ControllerView {
        ControllerView {
            slot_count: self.slot_count as nat,
            cards: self.cards@,
            valid_new_cards: self.valid_new_cards@,
            board: Map::new(
                |slot: CardSlot| slot.within(self.slot_count as nat),
                |slot: CardSlot| self.current_cards@[storage_index(self.slot_count as nat, slot)],
            ),
            team_health: map![Team::Red => self.red_health, Team::Blue => self.blue_health],
            card_modifications: self.card_modifications@,
            team_health_updated: self.team_health_updated,
        }
    }
}

impl GameController {
    /// The storage holds one cell for every slot.
    pub closed spec fn stored(&self) -> bool {
        self.current_cards.len() == 4 * self.slot_count
    }

    /// The invariant of a controller.
    pub open spec fn wf(&self) -> bool {
        self.stored() && self@.wf()
    }

    /// A controller for a match on a board with `slot_count` slots in each
    /// row, drawing from `cards`.
    pub fn new(cards: Vec<Card>, slot_count: usize) -> (controller: GameController)
        requires
            4 * slot_count <= usize::MAX,
        ensures
            controller.wf(),
            controller@ == ControllerView::start(cards@, slot_count as nat),
    {
        let mut current_cards: Vec<Occupant> = Vec::new();
        let total: usize = 4 * slot_count;
        while current_cards.len() < total
            invariant
                current_cards@.len() <= total,
                forall|i: int|
                    0 <= i < current_cards@.len() ==> (#[trigger] current_cards@[i]) is None,
            decreases total - current_cards@.len(),
        {
            current_cards.push(None);
        }
        let ghost ids = Seq::new(cards@.len(), |i: int| i as CardId);
        let ghost pred = |id: CardId| cards@[id as int].drawable();
        let mut valid_new_cards: Vec<CardId> = Vec::new();
        let mut id: usize = 0;
        while id < cards.len()
            invariant
                id <= cards@.len(),
                ids == Seq::new(cards@.len(), |i: int| i as CardId),
                pred == |id: CardId| cards@[id as int].drawable(),
                valid_new_cards@ == ids.take(id as int).filter(pred),
            decreases cards@.len() - id,
        {
            proof {
                ids.lemma_take_succ_push(id as int);
                ids.take(id as int).lemma_filter_push(ids[id as int], pred);
            }
            if cards[id].colors.len() < 3 {
                valid_new_cards.push(id);
            }
            id += 1;
        }
        proof {
            ids.lemma_take_len();
        }
        let controller = GameController {
            slot_count,
            cards,
            red_health: STARTING_HEALTH,
            blue_health: STARTING_HEALTH,
            current_cards,
            valid_new_cards,
            card_modifications: Vec::new(),
            team_health_updated: false,
        };
        proof {
            let start = ControllerView::start(cards@, slot_count as nat);
            assert(controller@.board =~= start.board);
            assert(controller@.team_health =~= start.team_health);
        }
        controller
    }

    /// The number of slots in each row.
    pub fn slot_count(&self) -> (count: usize)
        ensures
            count == self@.slot_count,
    {
        self.slot_count
    }

    /// The catalog.
    pub fn cards(&self) -> (cards: &Vec<Card>)
        ensures
            cards@ == self@.cards,
    {
        &self.cards
    }

    /// The definition of the card `id`.
    pub fn card(&self, id: CardId) -> (card: &Card)
        requires
            id < self@.cards.len(),
        ensures
            *card == self@.cards[id as int],
    {
        &self.cards[id]
    }

    /// The health of `team`.
    pub fn get_team_health(&self, team: Team) -> (health: u32)
        ensures
            health == self@.team_health[team],
    {
        match team {
            Team::Red => self.red_health,
            Team::Blue => self.blue_health,
        }
    }

    /// Sets the health of `team` and records that a health has changed.
    pub fn set_team_health(&mut self, team: Team, health: u32)
        requires
            old(self).wf(),
        ensures
            final(self).wf(),
            final(self)@ == old(self)@.set_team_health(team, health),
            old(self)@.replays_to(final(self)@),
    {
        self.team_health_updated = true;
        match team {
            Team::Red => {
                self.red_health = health;
            },
            Team::Blue => {
                self.blue_health = health;
            },
        }
        proof {
            let after = old(self)@.set_team_health(team, health);
            assert(self@.team_health =~= after.team_health);
            assert(self@.board =~= after.board);
            old(self)@.lemma_replays_aside(after);
        }
    }

    /// Takes `amount` from the health of `team`, which does not fall below
    /// zero.
    pub fn hurt_team(&mut self, team: Team, amount: u32)
        requires
            old(self).wf(),
        ensures
            final(self).wf(),
            final(self)@ == old(self)@.hurt_team(team, amount),
            old(self)@.replays_to(final(self)@),
    {
        let health = self.get_team_health(team);
        self.set_team_health(team, health.saturating_sub(amount));
    }

    /// Whether a team's health was set since the match began.
    pub fn team_health_updated(&self) -> (updated: bool)
        ensures
            updated == self@.team_health_updated,
    {
        self.team_health_updated
    }

    fn storage_index(&self, slot: &CardSlot) -> (index: usize)
        requires
            self.stored(),
            slot.within(self.slot_count as nat),
        ensures
            index == storage_index(self.slot_count as nat, *slot),
            index < self.current_cards@.len(),
    {
        match (slot.team, slot.slot_type) {
            (Team::Red, CardSlotType::Hand) => slot.id,
            (Team::Red, CardSlotType::Play) => self.slot_count + slot.id,
            (Team::Blue, CardSlotType::Hand) => self.slot_count + self.slot_count + slot.id,
            (Team::Blue, CardSlotType::Play) => self.slot_count + self.slot_count
                + self.slot_count + slot.id,
        }
    }

    /// What `slot` holds. A slot off the board holds nothing.
    pub fn get_card(&self, slot: &CardSlot) -> (cell: Option<(CardId, CardStats)>)
        requires
            self.wf(),
        ensures
            cell == self@.card(*slot),
    {
        if slot.id < self.slot_count {
            let index = self.storage_index(slot);
            self.current_cards[index]
        } else {
            None
        }
    }

    /// What the slots of a row hold, in index order.
    pub fn cards_in_row(&self, team: Team, slot_type: CardSlotType) -> (row: Vec<Occupant>)
        requires
            self.wf(),
        ensures
            row@ == self@.row(team, slot_type),
    {
        let mut row: Vec<Occupant> = Vec::new();
        let mut id: usize = 0;
        while id < self.slot_count
            invariant
                self.wf(),
                id <= self@.slot_count,
                row@ == self@.row(team, slot_type).take(id as int),
            decreases self@.slot_count - id,
        {
            let cell = self.get_card(&CardSlot { team, slot_type, id });
            row.push(cell);
            proof {
                assert(row@ =~= self@.row(team, slot_type).take(id + 1));
            }
            id += 1;
        }
        proof {
            assert(row@ =~= self@.row(team, slot_type));
        }
        row
    }

    fn put(&mut self, slot: CardSlot, cell: Occupant)
        requires
            old(self).wf(),
            slot.within(old(self)@.slot_count),
            old(self)@.known(cell),
        ensures
            final(self).wf(),
            final(self)@ == (ControllerView {
                board: old(self)@.board.insert(slot, cell),
                ..old(self)@
            }),
    {
        let index = self.storage_index(&slot);
        self.current_cards.set(index, cell);
        proof {
            let after = ControllerView { board: old(self)@.board.insert(slot, cell), ..old(self)@ };
            assert forall|other: CardSlot| other.within(self.slot_count as nat) implies #[trigger]
                self@.board[other] == after.board[other] by {
                if other != slot {
                    assert(storage_index(self.slot_count as nat, other) != index);
                }
            }
            assert(self@.board =~= after.board);
            assert(self@.team_health =~= after.team_health);
        }
    }

    /// Overwrites `slot` with a card and queues the push.
    pub fn push_card_at(&mut self, slot: CardSlot, card: CardId, stats: CardStats)
        requires
            old(self).wf(),
            slot.within(old(self)@.slot_count),
            card < old(self)@.cards.len(),
        ensures
            final(self).wf(),
            final(self)@ == old(self)@.push_card_at(slot, card, stats),
            old(self)@.replays_to(final(self)@),
    {
        self.card_modifications.push(ModifyCardAction::Push { slot, card, stats });
        self.put(slot, Some((card, stats)));
        proof {
            old(self)@.lemma_replays_step(ModifyCardAction::Push { slot, card, stats });
        }
    }

    /// Empties `slot` and queues the removal.
    pub fn remove_card(&mut self, slot: CardSlot)
        requires
            old(self).wf(),
            slot.within(old(self)@.slot_count),
        ensures
            final(self).wf(),
            final(self)@ == old(self)@.remove_card(slot),
            old(self)@.replays_to(final(self)@),
    {
        self.card_modifications.push(ModifyCardAction::Remove { slot });
        self.put(slot, None);
        proof {
            old(self)@.lemma_replays_step(ModifyCardAction::Remove { slot });
        }
    }

    /// Applies `damage` to the card in `slot`. A card without hit points and
    /// an empty slot are left alone. A card whose hit points would fall to
    /// zero is removed; any other card stays, with its hit points lowered.
    pub fn damage_card(&mut self, slot: &CardSlot, damage: u32)
        requires
            old(self).wf(),
            slot.within(old(self)@.slot_count),
        ensures
            final(self).wf(),
            final(self)@ == old(self)@.damage_card(*slot, damage),
            hp_not_raised(old(self)@.card(*slot), final(self)@.card(*slot)),
            old(self)@.replays_to(final(self)@),
    {
        proof {
            self@.lemma_card_known(*slot);
            self@.lemma_replays_to_itself();
        }
        match self.get_card(slot) {
            Some((card, CardStats { hp: Some(hp) })) => {
                let left = hp.saturating_sub(damage);
                if left == 0 {
                    self.remove_card(*slot);
                } else {
                    self.push_card_at(*slot, card, CardStats { hp: Some(left) });
                }
            },
            _ => {},
        }
    }

    /// The lowest index at or after `start` whose slot in the row is empty,
    /// or the number of slots if there is none.
    fn open_slot_from(&self, team: Team, slot_type: CardSlotType, start: usize) -> (open: usize)
        requires
            self.wf(),
            start <= self@.slot_count,
        ensures
            open == first_open_from(self@.row(team, slot_type), start as int),
            start <= open <= self@.slot_count,
    {
        let ghost row = self@.row(team, slot_type);
        let mut open: usize = start;
        while open < self.slot_count
            invariant
                self.wf(),
                row == self@.row(team, slot_type),
                start <= open <= self@.slot_count,
                forall|i: int| start <= i < open ==> (#[trigger] row[i]) is Some,
            decreases self@.slot_count - open,
        {
            let cell = self.get_card(&CardSlot { team, slot_type, id: open });
            if cell.is_none() {
                proof {
                    lemma_first_open_from_is(row, start as int, open as int);
                }
                return open;
            }
            open += 1;
        }
        proof {
            lemma_first_open_from_is(row, start as int, open as int);
        }
        open
    }

    /// Whether every slot of the row holds a card.
    pub fn card_stack_full(&self, team: Team, slot_type: CardSlotType) -> (is_full: bool)
        requires
            self.wf(),
        ensures
            is_full == full(self@.row(team, slot_type)),
    {
        let open = self.open_slot_from(team, slot_type, 0);
        proof {
            lemma_full_iff_no_first_open(self@.row(team, slot_type));
        }
        open == self.slot_count
    }

    /// The lowest index of the row whose slot is empty, if there is one.
    pub fn get_first_open_slot(&self, team: Team, slot_type: CardSlotType) -> (open: Option<usize>)
        requires
            self.wf(),
        ensures
            (match open {
                Some(id) => first_open(self@.row(team, slot_type)) == Some(id as int),
                None => first_open(self@.row(team, slot_type)) is None,
            }),
    {
        let open = self.open_slot_from(team, slot_type, 0);
        if open < self.slot_count {
            Some(open)
        } else {
            None
        }
    }

    /// The lowest index at or after `start` whose slot in the row is empty,
    /// if there is one.
    pub fn get_first_open_slot_from(
        &self,
        team: Team,
        slot_type: CardSlotType,
        start: usize,
    ) -> (open: Option<usize>)
        requires
            self.wf(),
        ensures
            (match open {
                Some(id) => id < self@.slot_count && id == first_open_from(
                    self@.row(team, slot_type),
                    start as int,
                ),
                None => first_open_from(self@.row(team, slot_type), start as int)
                    >= self@.slot_count,
            }),
    {
        if start >= self.slot_count {
            return None;
        }
        let open = self.open_slot_from(team, slot_type, start);
        if open < self.slot_count {
            Some(open)
        } else {
            None
        }
    }

    /// Pushes a card into the row of `slot` at its index. The cards from
    /// there up to the first open slot at or after it move one slot up; a
    /// push is queued for every slot that changed, in index order. Without
    /// such an open slot nothing happens.
    pub fn push_card_into_stack(&mut self, slot: CardSlot, card: CardId, stats: CardStats)
        requires
            old(self).wf(),
            slot.within(old(self)@.slot_count),
            card < old(self)@.cards.len(),
        ensures
            final(self).wf(),
            final(self)@ == old(self)@.push_card_into_stack(slot, card, stats),
            old(self)@.replays_to(final(self)@),
            ({
                let row = old(self)@.row(slot.team, slot.slot_type);
                let open = first_open_from(row, slot.id as int);
                if open < row.len() {
                    forall|i: int|
                        slot.id <= i <= open ==> (#[trigger] final(self)@.row(
                            slot.team,
                            slot.slot_type,
                        )[i]) is Some
                } else {
                    final(self)@ == old(self)@
                }
            }),
    {
        let team = slot.team;
        let slot_type = slot.slot_type;
        let ghost start = self@;
        let ghost row = start.row(team, slot_type);
        let ghost after = stack_insert(row, slot.id as int, (card, stats));
        let ghost actions = stack_insert_actions(
            team,
            slot_type,
            row,
            slot.id as int,
            (card, stats),
        );
        proof {
            start.lemma_with_own_row(team, slot_type);
            start.lemma_replays_to_itself();
            lemma_stack_insert(row, slot.id as int, (card, stats));
            lemma_first_open_from(row, slot.id as int);
        }
        let open = self.open_slot_from(team, slot_type, slot.id);
        if open >= self.slot_count {
            proof {
                start.lemma_same(start.push_card_into_stack(slot, card, stats));
            }
            return ;
        }
        proof {
            assert(partly_inserted(row, after, slot.id as int, slot.id as int) =~= row);
            start.lemma_same(
                start.with_row(
                    team,
                    slot_type,
                    partly_inserted(row, after, slot.id as int, slot.id as int),
                ).with_actions(actions.take(0)),
            );
        }
        let mut carried: (CardId, CardStats) = (card, stats);
        let mut id: usize = slot.id;
        while id <= open
            invariant
                self.wf(),
                start.wf(),
                slot.id <= id <= open + 1,
                open < start.slot_count,
                open == first_open_from(row, slot.id as int),
                row == start.row(team, slot_type),
                after == stack_insert(row, slot.id as int, (card, stats)),
                actions == stack_insert_actions(
                    team,
                    slot_type,
                    row,
                    slot.id as int,
                    (card, stats),
                ),
                id <= open ==> after[id as int] == Some(carried),
                carried.0 < start.cards.len(),
                start.replays_to(self@),
                self@ == start.with_row(
                    team,
                    slot_type,
                    partly_inserted(row, after, slot.id as int, id as int),
                ).with_actions(actions.take(id - slot.id)),
            decreases open + 1 - id,
        {
            let here = CardSlot { team, slot_type, id };
            let ghost before = self@;
            let held = self.get_card(&here);
            self.push_card_at(here, carried.0, carried.1);
            proof {
                start.lemma_replays_on(before, self@);
                let partial = partly_inserted(row, after, slot.id as int, id as int);
                lemma_stack_insert(row, slot.id as int, (card, stats));
                lemma_first_open_from(row, slot.id as int);
                start.lemma_card_known(here);
                assert(held == partial[id as int]);
                assert(here == CardSlot::at(team, slot_type, id as int));
                start.lemma_push_in_row(
                    team,
                    slot_type,
                    partial,
                    actions.take(id - slot.id),
                    id as int,
                    carried.0,
                    carried.1,
                );
                assert(partial.update(id as int, Some(carried)) =~= partly_inserted(
                    row,
                    after,
                    slot.id as int,
                    id + 1,
                ));
                assert(actions.take(id - slot.id).push(actions[id - slot.id]) =~= actions.take(
                    id + 1 - slot.id,
                ));
            }
            if id < open {
                carried = held.unwrap();
            }
            id += 1;
        }
        proof {
            assert(partly_inserted(row, after, slot.id as int, id as int) =~= after);
            assert(actions.take(id - slot.id) =~= actions);
            start.lemma_with_row(team, slot_type, after);
        }
    }

    /// Compacts a row: every card with an empty slot below it moves down to
    /// the lowest empty slot, in index order, so that the cards keep their
    /// order and end up as a prefix of the row. A push and a removal are
    /// queued for every card that moved.
    pub fn stack_cards(&mut self, team: Team, slot_type: CardSlotType)
        requires
            old(self).wf(),
        ensures
            final(self).wf(),
            final(self)@ == old(self)@.stack_cards(team, slot_type),
            packed(final(self)@.row(team, slot_type)),
            old(self)@.replays_to(final(self)@),
    {
        let ghost start = self@;
        let ghost row = start.row(team, slot_type);
        proof {
            start.lemma_stack_cards(team, slot_type);
            start.lemma_stack_cards_by_steps(team, slot_type);
            start.lemma_replays_to_itself();
            lemma_partly_compacted_start(row);
        }
        let mut to: usize = 0;
        let mut from: usize = 0;
        while from < self.slot_count
            invariant
                self.wf(),
                start.wf(),
                row == start.row(team, slot_type),
                to <= from <= start.slot_count,
                to == occupants(row.take(from as int)).len(),
                start.replays_to(self@),
                self@ == start.with_row(
                    team,
                    slot_type,
                    partly_compacted(row, from as int),
                ).with_actions(compact_actions(team, slot_type, row, from as nat)),
            decreases start.slot_count - from,
        {
            let here = CardSlot { team, slot_type, id: from };
            proof {
                lemma_compact_step(start, team, slot_type, from as int);
            }
            match self.get_card(&here) {
                Some((card, stats)) => {
                    if from > to {
                        let ghost before = self@;
                        self.push_card_at(CardSlot { team, slot_type, id: to }, card, stats);
                        let ghost between = self@;
                        self.remove_card(here);
                        proof {
                            start.lemma_replays_on(before, between);
                            start.lemma_replays_on(between, self@);
                        }
                    }
                    to += 1;
                },
                None => {},
            }
            from += 1;
        }
    }

    /// Hands out the queued changes, oldest first, and empties the queue.
    pub fn take_card_modifications(&mut self) -> (taken: Vec<ModifyCardAction>)
        requires
            old(self).wf(),
        ensures
            final(self).wf(),
            taken@ == old(self)@.card_modifications,
            final(self)@ == old(self)@.drained(),
    {
        let mut taken: Vec<ModifyCardAction> = Vec::new();
        std::mem::swap(&mut self.card_modifications, &mut taken);
        proof {
            let after = old(self)@.drained();
            assert(self@.board =~= after.board);
            self@.lemma_same(after);
        }
        taken
    }

    /// Ends a tick: hands out the queued changes, oldest first, empties the
    /// queue, and then compacts the play rows of both teams, which queues
    /// the moves for the next tick.
    pub fn apply_card_modifications(&mut self) -> (taken: Vec<ModifyCardAction>)
        requires
            old(self).wf(),
        ensures
            final(self).wf(),
            taken@ == old(self)@.card_modifications,
            final(self)@ == old(self)@.drained().stack_cards(
                Team::Red,
                CardSlotType::Play,
            ).stack_cards(Team::Blue, CardSlotType::Play),
            old(self)@.drained().replays_to(final(self)@),
    {
        let taken = self.take_card_modifications();
        let ghost drained = self@;
        self.stack_cards(Team::Red, CardSlotType::Play);
        let ghost between = self@;
        self.stack_cards(Team::Blue, CardSlotType::Play);
        proof {
            drained.lemma_replays_on(between, self@);
        }
        taken
    }

    /// Lets the play rows of `team` and of its opponent meet, slot by slot
    /// in index order. Two cards that face each other deal each other their
    /// damage. A card that faces an empty slot deals its damage to the
    /// health of the team whose slot is empty, which does not fall below
    /// zero.
    pub fn resolve_combat(&mut self, team: Team)
        requires
            old(self).wf(),
        ensures
            final(self).wf(),
            final(self)@ == old(self)@.fight(team, old(self)@.slot_count),
            final(self)@.cards == old(self)@.cards,
            final(self)@.slot_count == old(self)@.slot_count,
            forall|slot: CardSlot| #[trigger]
                final(self)@.card(slot) == old(self)@.after_combat(slot),
            forall|side: Team| #[trigger]
                final(self)@.team_health[side] == drained_health(
                    old(self)@.team_health[side],
                    old(self)@.unanswered(side, old(self)@.slot_count),
                ),
            old(self)@.replays_to(final(self)@),
    {
        let ghost start = self@;
        proof {
            start.lemma_replays_to_itself();
            start.lemma_fight(team, start.slot_count);
        }
        let mut id: usize = 0;
        while id < self.slot_count
            invariant
                self.wf(),
                id <= start.slot_count,
                self@.slot_count == start.slot_count,
                self@.cards == start.cards,
                start.replays_to(self@),
                self@ == start.fight(team, id as nat),
            decreases start.slot_count - id,
        {
            let mine = CardSlot { team, slot_type: CardSlotType::Play, id };
            let theirs = CardSlot { team: team.not(), slot_type: CardSlotType::Play, id };
            proof {
                assert(mine == CardSlot::at(team, CardSlotType::Play, id as int));
                assert(theirs == CardSlot::at(team.opponent(), CardSlotType::Play, id as int));
                self@.lemma_card_known(mine);
                self@.lemma_card_known(theirs);
            }
            let ghost before = self@;
            match (self.get_card(&mine), self.get_card(&theirs)) {
                (Some((current, _)), Some((foe, _))) => {
                    let dealt = attack_of(&self.cards[current]);
                    let taken = attack_of(&self.cards[foe]);
                    self.damage_card(&theirs, dealt);
                    let ghost between = self@;
                    self.damage_card(&mine, taken);
                    proof {
                        before.lemma_replays_on(between, self@);
                    }
                },
                (None, Some((foe, _))) => {
                    let taken = attack_of(&self.cards[foe]);
                    self.hurt_team(team, taken);
                },
                (Some((current, _)), None) => {
                    let dealt = attack_of(&self.cards[current]);
                    self.hurt_team(team.not(), dealt);
                },
                (None, None) => {
                    proof {
                        before.lemma_replays_to_itself();
                    }
                },
            }
            proof {
                start.lemma_replays_on(before, self@);
            }
            id += 1;
        }
    }

    /// One of the drawable cards, chosen by `rng`. Fails if the catalog has
    /// no drawable card.
    pub fn get_random_card(&self, rng: &mut WyRand) -> (drawn: Result<CardId, CatalogError>)
        requires
            self.wf(),
        ensures
            drawn is Ok <==> self@.valid_new_cards.len() > 0,
            (match drawn {
                Ok(card) => self@.valid_new_cards.contains(card) && card < self@.cards.len(),
                Err(error) => error == CatalogError::NoDrawableCard,
            }),
    {
        match next_uniform_index(rng, self.valid_new_cards.len()) {
            Some(pick) => {
                proof {
                    lemma_drawable_cards(self@.cards, self.valid_new_cards@[pick as int]);
                }
                Ok(self.valid_new_cards[pick])
            },
            None => Err(CatalogError::NoDrawableCard),
        }
    }

    /// The drawable cards of category `card_type` that carry `color_len`
    /// colors, in catalog order.
    pub fn cards_of_type_with_len(&self, card_type: CardType, color_len: usize) -> (found: Vec<
        CardId,
    >)
        requires
            self.wf(),
        ensures
            found@ == self@.candidates(card_type, color_len as nat),
            forall|i: int| 0 <= i < found@.len() ==> #[trigger] found@[i] < self@.cards.len(),
    {
        let ghost pred = |id: CardId|
            self@.cards[id as int].card_type == card_type && self@.cards[id as int].colors@.len()
                == color_len as nat;
        let mut found: Vec<CardId> = Vec::new();
        let mut at: usize = 0;
        proof {
            reveal_with_fuel(Seq::filter, 1);
            assert(self.valid_new_cards@.take(0) =~= Seq::<CardId>::empty());
        }
        while at < self.valid_new_cards.len()
            invariant
                self.wf(),
                at <= self.valid_new_cards@.len(),
                pred == |id: CardId|
                    self@.cards[id as int].card_type == card_type
                        && self@.cards[id as int].colors@.len() == color_len as nat,
                found@ == self.valid_new_cards@.take(at as int).filter(pred),
                forall|i: int| 0 <= i < found@.len() ==> #[trigger] found@[i] < self@.cards.len(),
            decreases self.valid_new_cards@.len() - at,
        {
            let id = self.valid_new_cards[at];
            proof {
                lemma_drawable_cards(self@.cards, id);
                self.valid_new_cards@.lemma_take_succ_push(at as int);
                self.valid_new_cards@.take(at as int).lemma_filter_push(id, pred);
            }
            let card = &self.cards[id];
            if card.card_type == card_type && card.colors.len() == color_len {
                found.push(id);
            }
            at += 1;
        }
        proof {
            self.valid_new_cards@.lemma_take_len();
        }
        found
    }

    /// One of the drawable cards of category `card_type` that carry
    /// `color_len` colors, chosen by `rng`. Fails if the catalog has no such
    /// card.
    pub fn get_random_card_of_type_with_len(
        &self,
        rng: &mut WyRand,
        card_type: CardType,
        color_len: usize,
    ) -> (drawn: Result<CardId, CatalogError>)
        requires
            self.wf(),
        ensures
            drawn is Ok <==> self@.candidates(card_type, color_len as nat).len() > 0,
            (match drawn {
                Ok(card) => self@.candidates(card_type, color_len as nat).contains(card) && card
                    < self@.cards.len(),
                Err(error) => error == (CatalogError::NoMatchingCard { card_type, color_len }),
            }),
    {
        let found = self.cards_of_type_with_len(card_type, color_len);
        match next_uniform_index(rng, found.len()) {
            Some(pick) => Ok(found[pick]),
            None => Err(CatalogError::NoMatchingCard { card_type, color_len }),
        }
    }

    /// The first card of the catalog that has the category `card_type` and
    /// exactly the colors `colors`, in whatever order, with its position.
    pub fn get_card_with_colors(
        &self,
        colors: Vec<CardColor>,
        card_type: CardType,
    ) -> (found: Option<(&Card, CardId)>)
        ensures
            (match found {
                Some((card, id)) => first_with_colors(
                    self@.cards,
                    colors@.to_multiset(),
                    card_type,
                ) == Some(id) && id < self@.cards.len() && *card == self@.cards[id as int],
                None => first_with_colors(self@.cards, colors@.to_multiset(), card_type) is None,
            }),
    {
        let mut id: usize = 0;
        while id < self.cards.len()
            invariant
                id <= self.cards@.len(),
                forall|i: int|
                    0 <= i < id ==> !has_colors(
                        #[trigger] self.cards@[i],
                        colors@.to_multiset(),
                        card_type,
                    ),
            decreases self.cards@.len() - id,
        {
            let card = &self.cards[id];
            if card.card_type == card_type && same_colors(&card.colors, &colors) {
                proof {
                    lemma_first_with_colors_from_is(
                        self.cards@,
                        colors@.to_multiset(),
                        card_type,
                        0,
                        id as int,
                    );
                }
                return Some((card, id));
            }
            id += 1;
        }
        proof {
            lemma_first_with_colors_from_is(
                self.cards@,
                colors@.to_multiset(),
                card_type,
                0,
                id as int,
            );
        }
        None
    }

    /// Deals `card` to `team`: the card is pushed into the hand at its
    /// first slot, with the hit points of its definition.
    pub fn deal_card(&mut self, team: Team, card: CardId)
        requires
            old(self).wf(),
            old(self)@.slot_count > 0,
            card < old(self)@.cards.len(),
        ensures
            final(self).wf(),
            final(self)@ == old(self)@.deal(team, card),
            old(self)@.replays_to(final(self)@),
    {
        let hp = self.cards[card].hp;
        self.push_card_into_stack(
            CardSlot { team, slot_type: CardSlotType::Hand, id: 0 },
            card,
            CardStats { hp },
        );
    }

    /// Deals the opening hands: `rounds` times over, a card chosen by `rng`
    /// among the drawable ones goes to Blue and then one to Red. Fails, and
    /// deals nothing, if cards are to be dealt and the catalog has no
    /// drawable card.
    pub fn deal_opening_hands(&mut self, rng: &mut WyRand, rounds: usize) -> (outcome: Result<
        (),
        CatalogError,
    >)
        requires
            old(self).wf(),
            old(self)@.slot_count > 0,
        ensures
            final(self).wf(),
            old(self)@.replays_to(final(self)@),
            outcome is Err <==> rounds > 0 && old(self)@.valid_new_cards.len() == 0,
            (match outcome {
                Ok(()) => exists|picks: Seq<CardId>|
                    old(self)@.may_deal(picks, rounds as nat) && final(self)@
                        == #[trigger] old(self)@.dealt(picks),
                Err(error) => error == CatalogError::NoDrawableCard && final(self)@ == old(self)@,
            }),
    {
        let ghost start = self@;
        let ghost mut picks: Seq<CardId> = Seq::empty();
        proof {
            start.lemma_replays_to_itself();
        }
        let mut round: usize = 0;
        while round < rounds
            invariant
                self.wf(),
                start == old(self)@,
                start.wf(),
                start.slot_count > 0,
                round <= rounds,
                picks.len() == 2 * round,
                forall|i: int|
                    0 <= i < picks.len() ==> start.valid_new_cards.contains(#[trigger] picks[i]),
                self@ == start.dealt(picks),
                start.replays_to(self@),
                self@.cards == start.cards,
                self@.valid_new_cards == start.valid_new_cards,
                self@.slot_count == start.slot_count,
            decreases rounds - round,
        {
            let first = match self.get_random_card(rng) {
                Ok(card) => card,
                Err(error) => {
                    proof {
                        if picks.len() > 0 {
                            assert(start.valid_new_cards.contains(picks[0]));
                        }
                    }
                    return Err(error);
                },
            };
            let ghost before = self@;
            self.deal_card(Team::Blue, first);
            proof {
                start.lemma_replays_on(before, self@);
                let longer = picks.push(first);
                assert(longer.drop_last() =~= picks);
                assert(longer.last() == first);
                assert(dealt_to(longer.len() - 1) == Team::Blue);
                assert(start.dealt(longer) == start.dealt(picks).deal(Team::Blue, first));
                picks = longer;
            }
            let second = match self.get_random_card(rng) {
                Ok(card) => card,
                Err(error) => {
                    proof {
                        assert(start.valid_new_cards.contains(picks[0]));
                    }
                    return Err(error);
                },
            };
            let ghost between = self@;
            self.deal_card(Team::Red, second);
            proof {
                start.lemma_replays_on(between, self@);
                let longer = picks.push(second);
                assert(longer.drop_last() =~= picks);
                assert(longer.last() == second);
                assert(dealt_to(longer.len() - 1) == Team::Red);
                assert(start.dealt(longer) == start.dealt(picks).deal(Team::Red, second));
                picks = longer;
            }
            round += 1;
        }
        Ok(())
    }
}

/// The damage a card deals in combat.
pub fn attack_of(card: &Card) -> (damage: u32)
    ensures
        damage == card.attack(),
{
    match card.damage {
        Some(damage) => damage,
        None => 0,
    }
}

} // verus!
