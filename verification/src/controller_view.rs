//! The state of a board as a mathematical value, and what each operation on
//! the board makes of it.

use crate::cards::{Card, CardId, CardType};
use crate::game_state::{CardSlot, CardSlotType, CardStats, Team};
use crate::game_ui_controller::{ModifyCardAction, STARTING_HEALTH};
use crate::stacking::{
    compacted, first_open_from, lemma_compacted_is_packed, lemma_occupants_len,
    lemma_partly_compacted_end, lemma_partly_compacted_start, lemma_partly_compacted_step,
    occupants, occupied, packed, partly_compacted, stack_insert, Occupant,
};
use vstd::prelude::*;

verus! {

/// The positions of the catalog's drawable cards, in catalog order.
pub open spec fn drawable_cards(cards: Seq<Card>) -> Seq<CardId> {
    Seq::new(cards.len(), |i: int| i as CardId).filter(|id: CardId| cards[id as int].drawable())
}

/// The drawable cards are the positions of the catalog whose card carries
/// fewer than three colors.
pub proof fn lemma_drawable_cards(cards: Seq<Card>, id: CardId)
    ensures
        drawable_cards(cards).contains(id) <==> id < cards.len() && cards[id as int].drawable(),
{
    let ids = Seq::new(cards.len(), |i: int| i as CardId);
    let pred = |id: CardId| cards[id as int].drawable();
    if drawable_cards(cards).contains(id) {
        ids.lemma_filter_contains_rev(pred, id);
    }
    if id < cards.len() && cards[id as int].drawable() {
        assert(ids[id as int] == id);
        ids.lemma_filter_contains(pred, id as int);
    }
}

/// The team that the card numbered `turn` of a deal goes to.
pub open spec fn dealt_to(turn: int) -> Team {
    if turn % 2 == 0 {
        Team::Blue
    } else {
        Team::Red
    }
}

/// The pushes a card's insertion into a row queues: one for each slot from
/// the target up to the first open slot, in index order, each with the card
/// the slot then holds.
pub open spec fn stack_insert_actions(
    team: Team,
    slot_type: CardSlotType,
    row: Seq<Occupant>,
    target: int,
    card: (CardId, CardStats),
) -> Seq<ModifyCardAction> {
    let open = first_open_from(row, target);
    if 0 <= target < row.len() && open < row.len() {
        Seq::new(
            (open - target + 1) as nat,
            |k: int|
                {
                    let moved = if k == 0 {
                        card
                    } else {
                        row[target + k - 1]->0
                    };
                    ModifyCardAction::Push {
                        slot: CardSlot::at(team, slot_type, target + k),
                        card: moved.0,
                        stats: moved.1,
                    }
                },
        )
    } else {
        Seq::empty()
    }
}

/// The changes that compacting the first `upto` slots of a row queues: for
/// each card that has an empty slot below it, in index order, a push to the
/// slot it moves to and a removal from the slot it leaves.
pub open spec fn compact_actions(
    team: Team,
    slot_type: CardSlotType,
    row: Seq<Occupant>,
    upto: nat,
) -> Seq<ModifyCardAction>
    decreases upto,
{
    if upto == 0 {
        Seq::empty()
    } else {
        let from = (upto - 1) as int;
        let earlier = compact_actions(team, slot_type, row, from as nat);
        let to = occupants(row.take(from)).len() as int;
        if row[from] is Some && to < from {
            let moved = row[from]->0;
            earlier.push(
                ModifyCardAction::Push {
                    slot: CardSlot::at(team, slot_type, to),
                    card: moved.0,
                    stats: moved.1,
                },
            ).push(ModifyCardAction::Remove { slot: CardSlot::at(team, slot_type, from) })
        } else {
            earlier
        }
    }
}

/// Whether the hit points of what a slot holds `after` a blow are no higher
/// than `before` it: a card with hit points left keeps its definition and
/// has not gained any, a card whose hit points are spent is gone, and
/// anything else is untouched.
pub open spec fn hp_not_raised(before: Occupant, after: Occupant) -> bool {
    match before {
        Some((card, CardStats { hp: Some(hp) })) => match after {
            Some((left_card, CardStats { hp: Some(left) })) => left_card == card && 0 < left <= hp,
            Some(_) => false,
            None => true,
        },
        _ => after == before,
    }
}

/// The board after one queued change is applied to it.
pub open spec fn applied(board: Map<CardSlot, Occupant>, action: ModifyCardAction) -> Map<
    CardSlot,
    Occupant,
> {
    match action {
        ModifyCardAction::Push { slot, card, stats } => board.insert(slot, Some((card, stats))),
        ModifyCardAction::Remove { slot } => board.insert(slot, None),
    }
}

/// The board after queued changes are applied to it in the order they were
/// queued in.
pub open spec fn replayed(board: Map<CardSlot, Occupant>, actions: Seq<ModifyCardAction>) -> Map<
    CardSlot,
    Occupant,
>
    decreases actions.len(),
{
    if actions.len() == 0 {
        board
    } else {
        applied(replayed(board, actions.drop_last()), actions.last())
    }
}

/// Replaying changes and then one more is replaying them all.
pub proof fn lemma_replayed_push(
    board: Map<CardSlot, Occupant>,
    actions: Seq<ModifyCardAction>,
    action: ModifyCardAction,
)
    ensures
        replayed(board, actions.push(action)) == applied(replayed(board, actions), action),
{
    assert(actions.push(action).drop_last() =~= actions);
}

/// Replaying two runs of changes one after the other is replaying them as
/// one run.
pub proof fn lemma_replayed_in_parts(
    board: Map<CardSlot, Occupant>,
    first: Seq<ModifyCardAction>,
    second: Seq<ModifyCardAction>,
)
    ensures
        replayed(board, first + second) == replayed(replayed(board, first), second),
    decreases second.len(),
{
    if second.len() == 0 {
        assert(first + second =~= first);
    } else {
        lemma_replayed_in_parts(board, first, second.drop_last());
        assert((first + second).drop_last() =~= first + second.drop_last());
    }
}

/// The slots of a board with `slot_count` slots in each row.
pub open spec fn board_slots(slot_count: nat) -> Set<CardSlot> {
    Set::new(|slot: CardSlot| slot.within(slot_count))
}

/// A board has as many slots as there are teams, rows of a team and indices
/// of a row: two times two times the number of slots in a row.
pub proof fn lemma_board_slots(slot_count: nat)
    requires
        slot_count <= usize::MAX,
    ensures
        board_slots(slot_count).finite(),
        board_slots(slot_count).len() == 2 * 2 * slot_count,
    decreases slot_count,
{
    if slot_count == 0 {
        assert(board_slots(0) =~= Set::<CardSlot>::empty());
        assert(board_slots(slot_count).len() == 0);
    } else {
        let below = (slot_count - 1) as nat;
        lemma_board_slots(below);
        let red_hand = CardSlot::at(Team::Red, CardSlotType::Hand, below as int);
        let red_play = CardSlot::at(Team::Red, CardSlotType::Play, below as int);
        let blue_hand = CardSlot::at(Team::Blue, CardSlotType::Hand, below as int);
        let blue_play = CardSlot::at(Team::Blue, CardSlotType::Play, below as int);
        let one = board_slots(below).insert(red_hand);
        let two = one.insert(red_play);
        let three = two.insert(blue_hand);
        let four = three.insert(blue_play);
        assert(!board_slots(below).contains(red_hand));
        assert(one.len() == board_slots(below).len() + 1);
        assert(!one.contains(red_play));
        assert(two.len() == one.len() + 1);
        assert(!two.contains(blue_hand));
        assert(three.len() == two.len() + 1);
        assert(!three.contains(blue_play));
        assert(four.len() == three.len() + 1);
        assert(board_slots(slot_count) =~= four);
        assert(board_slots(slot_count).len() == four.len());
        assert(four.len() == 4 * below + 4);
        assert(board_slots(slot_count).len() == 4 * slot_count);
    }
}

/// The state of a controller as a mathematical value.
pub struct ControllerView {
    /// The number of slots in each row.
    pub slot_count: nat,
    /// The catalog.
    pub cards: Seq<Card>,
    /// The cards a draw can hand out.
    pub valid_new_cards: Seq<CardId>,
    /// What each slot holds.
    pub board: Map<CardSlot, Occupant>,
    /// The health of each team.
    pub team_health: Map<Team, u32>,
    /// The queued changes, oldest first.
    pub card_modifications: Seq<ModifyCardAction>,
    /// Whether a team's health was set since the match began.
    pub team_health_updated: bool,
}

impl ControllerView {
    /// The board maps every slot of every row and no other; a slot holds only
    /// cards of the catalog; both teams have a health; and the cards a draw
    /// can hand out are the catalog's drawable ones.
    pub open spec fn wf(self) -> bool {
        &&& self.board.dom() =~= board_slots(self.slot_count)
        &&& self.team_health.dom() =~= set![Team::Red, Team::Blue]
        &&& forall|slot: CardSlot| #[trigger]
            self.board.dom().contains(slot) ==> self.known(self.board[slot])
        &&& self.valid_new_cards == drawable_cards(self.cards)
        &&& 4 * self.slot_count <= usize::MAX
    }

    /// Whether what a slot holds is empty or a card of the catalog.
    pub open spec fn known(self, cell: Occupant) -> bool {
        cell matches Some((card, _)) ==> card < self.cards.len()
    }

    /// The fresh state of a match: every slot empty, both teams at the
    /// starting health, nothing queued.
    pub open spec fn start(cards: Seq<Card>, slot_count: nat) -> ControllerView {
        ControllerView {
            slot_count,
            cards,
            valid_new_cards: drawable_cards(cards),
            board: Map::new(|slot: CardSlot| slot.within(slot_count), |slot: CardSlot| None),
            team_health: map![Team::Red => STARTING_HEALTH, Team::Blue => STARTING_HEALTH],
            card_modifications: Seq::empty(),
            team_health_updated: false,
        }
    }

    /// What `slot` holds; a slot off the board holds nothing.
    pub open spec fn card(self, slot: CardSlot) -> Occupant {
        if slot.within(self.slot_count) {
            self.board[slot]
        } else {
            None
        }
    }

    /// One row of the board, in index order.
    pub open spec fn row(self, team: Team, slot_type: CardSlotType) -> Seq<Occupant> {
        Seq::new(self.slot_count, |i: int| self.board[CardSlot::at(team, slot_type, i)])
    }

    /// The state with one row replaced.
    pub open spec fn with_row(
        self,
        team: Team,
        slot_type: CardSlotType,
        row: Seq<Occupant>,
    ) -> ControllerView {
        ControllerView {
            board: Map::new(
                |slot: CardSlot| slot.within(self.slot_count),
                |slot: CardSlot|
                    if slot.team == team && slot.slot_type == slot_type {
                        row[slot.id as int]
                    } else {
                        self.board[slot]
                    },
            ),
            ..self
        }
    }

    /// The state with further changes queued.
    pub open spec fn with_actions(self, actions: Seq<ModifyCardAction>) -> ControllerView {
        ControllerView { card_modifications: self.card_modifications + actions, ..self }
    }

    /// The state with the queue of changes emptied.
    pub open spec fn drained(self) -> ControllerView {
        ControllerView { card_modifications: Seq::empty(), ..self }
    }

    /// The state after `slot` is overwritten with a card.
    pub open spec fn push_card_at(
        self,
        slot: CardSlot,
        card: CardId,
        stats: CardStats,
    ) -> ControllerView {
        ControllerView {
            board: self.board.insert(slot, Some((card, stats))),
            card_modifications: self.card_modifications.push(
                ModifyCardAction::Push { slot, card, stats },
            ),
            ..self
        }
    }

    /// The state after `slot` is emptied.
    pub open spec fn remove_card(self, slot: CardSlot) -> ControllerView {
        ControllerView {
            board: self.board.insert(slot, None),
            card_modifications: self.card_modifications.push(ModifyCardAction::Remove { slot }),
            ..self
        }
    }

    /// The state after the card in `slot` takes `damage`: a card without hit
    /// points and an empty slot are left alone; a card whose hit points
    /// would fall to zero is removed; any other card stays with its hit
    /// points lowered.
    pub open spec fn damage_card(self, slot: CardSlot, damage: u32) -> ControllerView {
        match self.card(slot) {
            Some((card, CardStats { hp: Some(hp) })) => {
                if hp <= damage {
                    self.remove_card(slot)
                } else {
                    self.push_card_at(slot, card, CardStats { hp: Some((hp - damage) as u32) })
                }
            },
            _ => self,
        }
    }

    /// The state after a team's health is set.
    pub open spec fn set_team_health(self, team: Team, health: u32) -> ControllerView {
        ControllerView {
            team_health: self.team_health.insert(team, health),
            team_health_updated: true,
            ..self
        }
    }

    /// The state after a team loses `amount` health. Health does not fall
    /// below zero.
    pub open spec fn hurt_team(self, team: Team, amount: u32) -> ControllerView {
        let health = self.team_health[team];
        self.set_team_health(
            team,
            if health <= amount {
                0
            } else {
                (health - amount) as u32
            },
        )
    }

    /// The state after a card is pushed into the row of `slot` at its index.
    pub open spec fn push_card_into_stack(
        self,
        slot: CardSlot,
        card: CardId,
        stats: CardStats,
    ) -> ControllerView {
        let row = self.row(slot.team, slot.slot_type);
        self.with_row(
            slot.team,
            slot.slot_type,
            stack_insert(row, slot.id as int, (card, stats)),
        ).with_actions(
            stack_insert_actions(slot.team, slot.slot_type, row, slot.id as int, (card, stats)),
        )
    }

    /// The state after a row is compacted.
    pub open spec fn stack_cards(self, team: Team, slot_type: CardSlotType) -> ControllerView {
        let row = self.row(team, slot_type);
        self.with_row(team, slot_type, compacted(row)).with_actions(
            compact_actions(team, slot_type, row, self.slot_count),
        )
    }

    /// The state after the play slots `id` of `team` and of its opponent
    /// meet. Two cards deal each other their damage, the opponent's card
    /// taking it first. A card that faces an empty slot deals its damage to
    /// the health of the team whose slot is empty.
    pub open spec fn fight_pair(self, team: Team, id: int) -> ControllerView {
        let mine = CardSlot::at(team, CardSlotType::Play, id);
        let theirs = CardSlot::at(team.opponent(), CardSlotType::Play, id);
        match (self.card(mine), self.card(theirs)) {
            (Some((current, _)), Some((foe, _))) => self.damage_card(
                theirs,
                self.cards[current as int].attack(),
            ).damage_card(mine, self.cards[foe as int].attack()),
            (None, Some((foe, _))) => self.hurt_team(team, self.cards[foe as int].attack()),
            (Some((current, _)), None) => self.hurt_team(
                team.opponent(),
                self.cards[current as int].attack(),
            ),
            (None, None) => self,
        }
    }

    /// The state after the first `upto` pairs of play slots have met, in
    /// index order.
    pub open spec fn fight(self, team: Team, upto: nat) -> ControllerView
        decreases upto,
    {
        if upto == 0 {
            self
        } else {
            self.fight(team, (upto - 1) as nat).fight_pair(team, upto - 1)
        }
    }

    /// The drawable cards of category `card_type` that carry `color_len`
    /// colors, in catalog order.
    pub open spec fn candidates(self, card_type: CardType, color_len: nat) -> Seq<CardId> {
        self.valid_new_cards.filter(
            |id: CardId|
                self.cards[id as int].card_type == card_type && self.cards[id as int].colors@.len()
                    == color_len,
        )
    }

    /// The state after `team` is dealt `card`: the card is pushed into the
    /// hand at its first slot, with the hit points of its definition.
    pub open spec fn deal(self, team: Team, card: CardId) -> ControllerView {
        self.push_card_into_stack(
            CardSlot::at(team, CardSlotType::Hand, 0),
            card,
            CardStats { hp: self.cards[card as int].hp },
        )
    }

    /// Whether `picks` can be the cards of a deal of `rounds` rounds: two
    /// for each round, all of them drawable.
    pub open spec fn may_deal(self, picks: Seq<CardId>, rounds: nat) -> bool {
        &&& picks.len() == 2 * rounds
        &&& forall|i: int|
            0 <= i < picks.len() ==> self.valid_new_cards.contains(#[trigger] picks[i])
    }

    /// The state after the cards `picks` are dealt in turn, the first to
    /// Blue, the next to Red, and so on.
    pub open spec fn dealt(self, picks: Seq<CardId>) -> ControllerView
        decreases picks.len(),
    {
        if picks.len() == 0 {
            self
        } else {
            self.dealt(picks.drop_last()).deal(dealt_to(picks.len() - 1), picks.last())
        }
    }

    /// The queue is a faithful record of what happened to the board between
    /// `self` and `after`: `after` has only added to the queue, and its board
    /// is what the board of `self` becomes when the added changes are
    /// applied to it in order. The catalog and the size of the board are the
    /// same.
    pub open spec fn replays_to(self, after: ControllerView) -> bool {
        let queued = self.card_modifications.len() as int;
        &&& after.slot_count == self.slot_count
        &&& after.cards == self.cards
        &&& after.valid_new_cards == self.valid_new_cards
        &&& queued <= after.card_modifications.len()
        &&& after.card_modifications.take(queued) == self.card_modifications
        &&& after.board == replayed(self.board, after.card_modifications.skip(queued))
    }

    /// Nothing queued and nothing changed is a faithful record.
    pub proof fn lemma_replays_to_itself(self)
        ensures
            self.replays_to(self),
    {
        let queued = self.card_modifications.len() as int;
        assert(self.card_modifications.take(queued) =~= self.card_modifications);
        assert(self.card_modifications.skip(queued) =~= Seq::<ModifyCardAction>::empty());
    }

    /// Faithful records chain: one from `self` to `then` and one from `then`
    /// to `after` make one from `self` to `after`.
    pub proof fn lemma_replays_on(self, then: ControllerView, after: ControllerView)
        requires
            self.replays_to(then),
            then.replays_to(after),
        ensures
            self.replays_to(after),
    {
        let first = self.card_modifications.len() as int;
        let second = then.card_modifications.len() as int;
        assert(after.card_modifications.take(first) =~= after.card_modifications.take(second).take(
            first,
        ));
        assert(after.card_modifications.skip(first) =~= then.card_modifications.skip(first)
            + after.card_modifications.skip(second));
        lemma_replayed_in_parts(
            self.board,
            then.card_modifications.skip(first),
            after.card_modifications.skip(second),
        );
    }

    /// Queueing one change and applying it to the board is a faithful
    /// record.
    pub proof fn lemma_replays_step(self, action: ModifyCardAction)
        ensures
            self.replays_to(
                ControllerView {
                    board: applied(self.board, action),
                    card_modifications: self.card_modifications.push(action),
                    ..self
                },
            ),
    {
        let queued = self.card_modifications.len() as int;
        let longer = self.card_modifications.push(action);
        assert(longer.take(queued) =~= self.card_modifications);
        assert(longer.skip(queued) =~= Seq::<ModifyCardAction>::empty().push(action));
        lemma_replayed_push(self.board, Seq::<ModifyCardAction>::empty(), action);
    }

    /// A change that leaves the board and the queue alone is recorded
    /// faithfully.
    pub proof fn lemma_replays_aside(self, after: ControllerView)
        requires
            after.slot_count == self.slot_count,
            after.cards == self.cards,
            after.valid_new_cards == self.valid_new_cards,
            after.board == self.board,
            after.card_modifications == self.card_modifications,
        ensures
            self.replays_to(after),
    {
        let queued = self.card_modifications.len() as int;
        assert(self.card_modifications.take(queued) =~= self.card_modifications);
        assert(self.card_modifications.skip(queued) =~= Seq::<ModifyCardAction>::empty());
    }

    /// The board of a well-formed state is total: it maps exactly the slots
    /// of the two rows of the two teams, each to what it holds.
    pub proof fn lemma_board_total(self)
        requires
            self.wf(),
        ensures
            forall|slot: CardSlot|
                self.board.dom().contains(slot) <==> slot.within(self.slot_count),
            self.board.dom() == board_slots(self.slot_count),
            self.board.dom().finite(),
            self.board.dom().len() == 2 * 2 * self.slot_count,
    {
        lemma_board_slots(self.slot_count);
    }

    /// On a well-formed board every slot holds nothing or a card of the
    /// catalog.
    pub proof fn lemma_card_known(self, slot: CardSlot)
        requires
            self.wf(),
        ensures
            self.known(self.card(slot)),
    {
        if slot.within(self.slot_count) {
            assert(self.board.dom().contains(slot));
        }
    }

    /// Two states with the same parts are the same state.
    pub proof fn lemma_same(self, other: ControllerView)
        requires
            self.slot_count == other.slot_count,
            self.cards == other.cards,
            self.valid_new_cards == other.valid_new_cards,
            self.board =~= other.board,
            self.team_health =~= other.team_health,
            self.card_modifications =~= other.card_modifications,
            self.team_health_updated == other.team_health_updated,
        ensures
            self == other,
    {
    }

    /// Replacing a row changes that row and no other, and keeps the board
    /// well-formed as long as the new row holds cards of the catalog.
    pub proof fn lemma_with_row(self, team: Team, slot_type: CardSlotType, row: Seq<Occupant>)
        requires
            self.wf(),
            row.len() == self.slot_count,
            forall|i: int| 0 <= i < row.len() ==> self.known(#[trigger] row[i]),
        ensures
            self.with_row(team, slot_type, row).wf(),
            self.with_row(team, slot_type, row).row(team, slot_type) == row,
            forall|other_team: Team, other_type: CardSlotType|
                other_team != team || other_type != slot_type ==> #[trigger] self.with_row(
                    team,
                    slot_type,
                    row,
                ).row(other_team, other_type) == self.row(other_team, other_type),
    {
        let after = self.with_row(team, slot_type, row);
        assert(after.row(team, slot_type) =~= row);
        assert forall|other_team: Team, other_type: CardSlotType|
            other_team != team || other_type != slot_type implies #[trigger] after.row(
            other_team,
            other_type,
        ) == self.row(other_team, other_type) by {
            assert(after.row(other_team, other_type) =~= self.row(other_team, other_type));
        }
        assert forall|slot: CardSlot| #[trigger]
            after.board.dom().contains(slot) implies after.known(after.board[slot]) by {
            assert(self.board.dom().contains(slot));
        }
    }

    /// Replacing a row with itself changes nothing.
    pub proof fn lemma_with_own_row(self, team: Team, slot_type: CardSlotType)
        requires
            self.wf(),
        ensures
            self.with_row(team, slot_type, self.row(team, slot_type)) == self,
            forall|i: int|
                0 <= i < self.slot_count ==> self.known(#[trigger] self.row(team, slot_type)[i]),
    {
        let after = self.with_row(team, slot_type, self.row(team, slot_type));
        assert forall|slot: CardSlot| slot.within(self.slot_count) implies #[trigger]
            after.board[slot] == self.board[slot] by {
            if slot.team == team && slot.slot_type == slot_type {
                assert(CardSlot::at(team, slot_type, slot.id as int) == slot);
            }
        }
        assert(after.board =~= self.board);
        assert forall|i: int| 0 <= i < self.slot_count implies self.known(
            #[trigger] self.row(team, slot_type)[i],
        ) by {
            assert(self.board.dom().contains(CardSlot::at(team, slot_type, i)));
        }
    }

    /// Compaction leaves a well-formed state well-formed and the row packed.
    pub proof fn lemma_stack_cards(self, team: Team, slot_type: CardSlotType)
        requires
            self.wf(),
        ensures
            self.stack_cards(team, slot_type).wf(),
            self.stack_cards(team, slot_type).row(team, slot_type) == compacted(
                self.row(team, slot_type),
            ),
            packed(self.stack_cards(team, slot_type).row(team, slot_type)),
    {
        let row = self.row(team, slot_type);
        lemma_compacted_is_packed(row);
        assert forall|i: int| 0 <= i < compacted(row).len() implies self.known(
            #[trigger] compacted(row)[i],
        ) by {
            self.lemma_with_own_row(team, slot_type);
            lemma_compacted_known(self, row, i);
        }
        self.lemma_with_row(team, slot_type, compacted(row));
    }

    /// A compaction that goes through the row slot by slot begins with the
    /// state as it is and ends with the row compacted.
    pub proof fn lemma_stack_cards_by_steps(self, team: Team, slot_type: CardSlotType)
        requires
            self.wf(),
        ensures
            self.with_row(
                team,
                slot_type,
                partly_compacted(self.row(team, slot_type), 0),
            ).with_actions(compact_actions(team, slot_type, self.row(team, slot_type), 0)) == self,
            self.with_row(
                team,
                slot_type,
                partly_compacted(self.row(team, slot_type), self.slot_count as int),
            ).with_actions(
                compact_actions(team, slot_type, self.row(team, slot_type), self.slot_count),
            ) == self.stack_cards(team, slot_type),
    {
        let row = self.row(team, slot_type);
        self.lemma_with_own_row(team, slot_type);
        lemma_partly_compacted_start(row);
        lemma_partly_compacted_end(row);
        assert(self.card_modifications + compact_actions(team, slot_type, row, 0)
            =~= self.card_modifications);
    }

    /// Overwriting a slot of a replaced row is replacing the row with the
    /// updated one, with the push queued.
    pub proof fn lemma_push_in_row(
        self,
        team: Team,
        slot_type: CardSlotType,
        row: Seq<Occupant>,
        actions: Seq<ModifyCardAction>,
        id: int,
        card: CardId,
        stats: CardStats,
    )
        requires
            row.len() == self.slot_count,
            0 <= id < row.len(),
            self.slot_count <= usize::MAX,
        ensures
            self.with_row(team, slot_type, row).with_actions(actions).push_card_at(
                CardSlot::at(team, slot_type, id),
                card,
                stats,
            ) == self.with_row(team, slot_type, row.update(id, Some((card, stats)))).with_actions(
                actions.push(
                    ModifyCardAction::Push { slot: CardSlot::at(team, slot_type, id), card, stats },
                ),
            ),
    {
        let slot = CardSlot::at(team, slot_type, id);
        let left = self.with_row(team, slot_type, row).with_actions(actions).push_card_at(
            slot,
            card,
            stats,
        );
        let right = self.with_row(
            team,
            slot_type,
            row.update(id, Some((card, stats))),
        ).with_actions(actions.push(ModifyCardAction::Push { slot, card, stats }));
        assert(left.board =~= right.board);
        left.lemma_same(right);
    }

    /// Pushing a card into a row at an empty slot is overwriting the slot.
    pub proof fn lemma_push_into_open_slot(self, slot: CardSlot, card: CardId, stats: CardStats)
        requires
            self.wf(),
            slot.within(self.slot_count),
            self.card(slot) is None,
        ensures
            self.push_card_into_stack(slot, card, stats) == self.push_card_at(slot, card, stats),
    {
        let row = self.row(slot.team, slot.slot_type);
        let id = slot.id as int;
        let none = Seq::<ModifyCardAction>::empty();
        assert(CardSlot::at(slot.team, slot.slot_type, id) == slot);
        assert(first_open_from(row, id) == id);
        assert(stack_insert(row, id, (card, stats)) =~= row.update(id, Some((card, stats))));
        assert(stack_insert_actions(slot.team, slot.slot_type, row, id, (card, stats)) =~= none.push(
            ModifyCardAction::Push { slot, card, stats },
        ));
        self.lemma_with_own_row(slot.team, slot.slot_type);
        self.lemma_same(self.with_row(slot.team, slot.slot_type, row).with_actions(none));
        self.lemma_push_in_row(slot.team, slot.slot_type, row, none, id, card, stats);
    }

    /// Emptying a slot of a replaced row is replacing the row with the
    /// updated one, with the removal queued.
    pub proof fn lemma_remove_in_row(
        self,
        team: Team,
        slot_type: CardSlotType,
        row: Seq<Occupant>,
        actions: Seq<ModifyCardAction>,
        id: int,
    )
        requires
            row.len() == self.slot_count,
            0 <= id < row.len(),
            self.slot_count <= usize::MAX,
        ensures
            self.with_row(team, slot_type, row).with_actions(actions).remove_card(
                CardSlot::at(team, slot_type, id),
            ) == self.with_row(team, slot_type, row.update(id, None)).with_actions(
                actions.push(ModifyCardAction::Remove { slot: CardSlot::at(team, slot_type, id) }),
            ),
    {
        let slot = CardSlot::at(team, slot_type, id);
        let left = self.with_row(team, slot_type, row).with_actions(actions).remove_card(slot);
        let right = self.with_row(team, slot_type, row.update(id, None)).with_actions(
            actions.push(ModifyCardAction::Remove { slot }),
        );
        assert(left.board =~= right.board);
        left.lemma_same(right);
    }
}

/// What one step of a compaction does to the state: a card with an empty
/// slot below it is pushed to the lowest one and removed from where it was;
/// anything else stays.
pub proof fn lemma_compact_step(
    start: ControllerView,
    team: Team,
    slot_type: CardSlotType,
    reached: int,
)
    requires
        start.wf(),
        0 <= reached < start.slot_count,
    ensures
        ({
            let row = start.row(team, slot_type);
            let to = occupants(row.take(reached)).len() as int;
            let now = start.with_row(team, slot_type, partly_compacted(row, reached)).with_actions(
                compact_actions(team, slot_type, row, reached as nat),
            );
            let next = start.with_row(
                team,
                slot_type,
                partly_compacted(row, reached + 1),
            ).with_actions(compact_actions(team, slot_type, row, (reached + 1) as nat));
            &&& to <= reached
            &&& now.card(CardSlot::at(team, slot_type, reached)) == row[reached]
            &&& start.known(row[reached])
            &&& occupants(row.take(reached + 1)).len() == to + (if row[reached] is Some {
                1int
            } else {
                0int
            })
            &&& next == match row[reached] {
                Some((card, stats)) if to < reached => now.push_card_at(
                    CardSlot::at(team, slot_type, to),
                    card,
                    stats,
                ).remove_card(CardSlot::at(team, slot_type, reached)),
                _ => now,
            }
        }),
{
    let row = start.row(team, slot_type);
    let to = occupants(row.take(reached)).len() as int;
    let current = partly_compacted(row, reached);
    let queued = compact_actions(team, slot_type, row, reached as nat);
    let now = start.with_row(team, slot_type, current).with_actions(queued);
    lemma_partly_compacted_step(row, reached);
    start.lemma_card_known(CardSlot::at(team, slot_type, reached));
    match row[reached] {
        Some((card, stats)) => {
            if to < reached {
                let below = CardSlot::at(team, slot_type, to);
                start.lemma_push_in_row(team, slot_type, current, queued, to, card, stats);
                start.lemma_remove_in_row(
                    team,
                    slot_type,
                    current.update(to, Some((card, stats))),
                    queued.push(ModifyCardAction::Push { slot: below, card, stats }),
                    reached,
                );
            }
        },
        None => {},
    }
}

/// Compaction brings no card into a row that was not there before.
proof fn lemma_compacted_known(view: ControllerView, row: Seq<Occupant>, i: int)
    requires
        forall|k: int| 0 <= k < row.len() ==> view.known(#[trigger] row[k]),
        0 <= i < compacted(row).len(),
    ensures
        view.known(compacted(row)[i]),
{
    lemma_occupants_len(row);
    if i < occupants(row).len() {
        let cell = occupants(row)[i];
        assert(occupants(row).contains(cell));
        row.lemma_filter_contains_rev(|cell: Occupant| occupied(cell), cell);
        let k = choose|k: int| 0 <= k < row.len() && row[k] == cell;
        assert(view.known(row[k]));
    }
}

} // verus!
