//! The turn state machine: drawing a card, playing it, and applying the
//! moves, after which the turn passes to the other team.

use crate::cards::{CardId, CardType};
use crate::combat::drained_health;
use crate::custom_cursor::CustomCursor;
use crate::entropy::gen_range;
use crate::fusion::{
    cards_can_combine, fusion, get_upgraded_card_type, lemma_fusion_symmetric, merge_colors,
};
use crate::game_state::{
    turn_after, CardSlot, CardSlotType, CardStats, CurrentTurnTeam, NextTurnCardType, Team,
    TurnState,
};
use crate::controller_view::ControllerView;
use crate::game_ui_controller::{CatalogError, GameController, ModifyCardAction};
use crate::stacking::{first_open, first_open_from, full, lemma_first_open_from};
use bevy_prng::WyRand;
use std::ops::Not;
use vstd::prelude::*;

verus! {

/// The state of a match as a mathematical value.
pub struct GameView {
    /// The board, the health and the queued changes.
    pub controller: ControllerView,
    /// The card the team to move holds, if any.
    pub cursor: CustomCursor,
    /// The phase of the turn.
    pub turn_state: TurnState,
    /// The team to move.
    pub current_team: Team,
    /// The category the next draw offers.
    pub next_card_type: CardType,
}

impl GameView {
    /// The board is well-formed and a held card is a card of the catalog.
    pub open spec fn wf(self) -> bool {
        &&& self.controller.wf()
        &&& self.cursor matches CustomCursor::Card { card, .. } ==> card
            < self.controller.cards.len()
    }

    /// A match at its beginning: an empty board, nothing held, Red to draw a
    /// hero.
    pub open spec fn start(controller: ControllerView) -> GameView {
        GameView {
            controller,
            cursor: CustomCursor::Default,
            turn_state: TurnState::DrawCards,
            current_team: Team::Red,
            next_card_type: CardType::Hero,
        }
    }

    /// Whether a draw requested by `team` is taken up: cards are being
    /// drawn and it is `team`'s turn.
    pub open spec fn accepts_draw(self, team: Team) -> bool {
        self.turn_state == TurnState::DrawCards && team == self.current_team
    }

    /// Whether a draw may hand out `card`: it is a drawable card of the
    /// category on offer and carries one or two colors.
    pub open spec fn may_draw(self, card: CardId) -> bool {
        ||| self.controller.candidates(self.next_card_type, 1).contains(card)
        ||| self.controller.candidates(self.next_card_type, 2).contains(card)
    }

    /// Whether the catalog has a drawable card of the category on offer
    /// with `color_len` colors.
    pub open spec fn offers(self, color_len: usize) -> bool {
        self.controller.candidates(self.next_card_type, color_len as nat).len() > 0
    }

    /// Whether the catalog has no drawable card of the category on offer
    /// with `color_len` colors, and `error` says so.
    pub open spec fn lacks_cards(self, color_len: usize, error: CatalogError) -> bool {
        &&& !self.offers(color_len)
        &&& error == (CatalogError::NoMatchingCard { card_type: self.next_card_type, color_len })
    }

    /// The state after the team to move has drawn `card` and `next` has been
    /// chosen as the category of the draw after it. The card enters the
    /// hand at its first open slot, with the hit points of its definition,
    /// and the hand is compacted; a full hand takes no card. Either way the
    /// turn goes on to playing cards.
    pub open spec fn with_drawn_card(self, card: CardId, next: CardType) -> GameView {
        let team = self.current_team;
        let stats = CardStats { hp: self.controller.cards[card as int].hp };
        GameView {
            controller: match first_open(self.controller.row(team, CardSlotType::Hand)) {
                Some(id) => self.controller.push_card_at(
                    CardSlot::at(team, CardSlotType::Hand, id),
                    card,
                    stats,
                ).stack_cards(team, CardSlotType::Hand),
                None => self.controller,
            },
            next_card_type: next,
            turn_state: TurnState::PlayCards,
            ..self
        }
    }

    /// The state after a press on `slot` while nothing is held: a card in
    /// one of the hand slots of the team to move is lifted out of it, and
    /// the hand is compacted. Any other press changes nothing.
    pub open spec fn pick_up(self, slot: CardSlot) -> GameView {
        if slot.team == self.current_team && slot.slot_type == CardSlotType::Hand {
            match self.controller.card(slot) {
                Some((card, stats)) => GameView {
                    cursor: CustomCursor::Card { card, stats },
                    controller: self.controller.remove_card(slot).stack_cards(
                        slot.team,
                        CardSlotType::Hand,
                    ),
                    ..self
                },
                None => self,
            }
        } else {
            self
        }
    }

    /// The board after the held card `card` is put on `slot`, if it can be.
    /// Where the slot holds a card that fuses with it to a card of the
    /// catalog, that card takes the slot, with the hit points of its
    /// definition. Otherwise the held card is pushed into the row at the
    /// slot, which takes an open slot at or after it.
    pub open spec fn put_down(self, slot: CardSlot, card: CardId, stats: CardStats) -> Option<
        ControllerView,
    > {
        let cards = self.controller.cards;
        let fused = match self.controller.card(slot) {
            Some((below, _)) => fusion(cards, cards[below as int], cards[card as int]),
            None => None,
        };
        match fused {
            Some(id) => Some(
                self.controller.push_card_at(slot, id, CardStats { hp: cards[id as int].hp }),
            ),
            None => if first_open_from(
                self.controller.row(slot.team, slot.slot_type),
                slot.id as int,
            ) < self.controller.slot_count {
                Some(self.controller.push_card_into_stack(slot, card, stats))
            } else {
                None
            },
        }
    }

    /// The state after a press on `slot` while `card` is held: on one of the
    /// play slots of the team to move the card is put down, the row is
    /// compacted, the cursor is emptied and the turn goes on to applying
    /// the moves. A press anywhere else, or where the card cannot be put
    /// down, changes nothing.
    pub open spec fn place(self, slot: CardSlot, card: CardId, stats: CardStats) -> GameView {
        if slot.team == self.current_team && slot.slot_type == CardSlotType::Play {
            match self.put_down(slot, card, stats) {
                Some(controller) => GameView {
                    controller: controller.stack_cards(slot.team, CardSlotType::Play),
                    cursor: CustomCursor::Default,
                    turn_state: TurnState::ApplyMoves,
                    ..self
                },
                None => self,
            }
        } else {
            self
        }
    }

    /// Whether a press of `team` is taken up: cards are being played and it
    /// is `team`'s turn.
    pub open spec fn accepts_play(self, team: Team) -> bool {
        self.turn_state == TurnState::PlayCards && team == self.current_team
    }

    /// Whether the team to move has no room left to play a card.
    pub open spec fn play_row_full(self) -> bool {
        full(self.controller.row(self.current_team, CardSlotType::Play))
    }

    /// The state after a press of `team` has been checked for the case
    /// that the team has no room left to play a card: if the press is taken
    /// up and the play row is full, the turn goes on to applying the moves.
    pub open spec fn skip_full_play(self, team: Team) -> GameView {
        if self.accepts_play(team) && self.play_row_full() {
            GameView { turn_state: TurnState::ApplyMoves, ..self }
        } else {
            self
        }
    }

    /// The state after a request of `team` to pick up the card in `slot`.
    /// Outside the phase of playing cards, and for the team that is not to
    /// move, nothing happens. With a full play row the turn goes on to
    /// applying the moves at once. Otherwise, if nothing is held, the card is
    /// picked up.
    pub open spec fn request_pick_up(self, team: Team, slot: CardSlot) -> GameView {
        if !self.accepts_play(team) || self.play_row_full() {
            self.skip_full_play(team)
        } else {
            match self.cursor {
                CustomCursor::Default => self.pick_up(slot),
                CustomCursor::Card { .. } => self,
            }
        }
    }

    /// The state after a request of `team` to put the held card on `slot`.
    /// Outside the phase of playing cards, and for the team that is not to
    /// move, nothing happens. With a full play row the turn goes on to
    /// applying the moves at once. Otherwise, if a card is held, it is put
    /// down.
    pub open spec fn request_place(self, team: Team, slot: CardSlot) -> GameView {
        if !self.accepts_play(team) || self.play_row_full() {
            self.skip_full_play(team)
        } else {
            match self.cursor {
                CustomCursor::Default => self,
                CustomCursor::Card { card, stats } => self.place(slot, card, stats),
            }
        }
    }

    /// The state after `team` presses `slot`: a request to pick up while
    /// nothing is held, a request to place while a card is held.
    pub open spec fn play_card(self, team: Team, slot: CardSlot) -> GameView {
        match self.cursor {
            CustomCursor::Default => self.request_pick_up(team, slot),
            CustomCursor::Card { .. } => self.request_place(team, slot),
        }
    }

    /// The state after the moves are applied: the play rows meet, the turn
    /// passes to the other team, and cards are drawn again. Outside the
    /// phase of applying moves nothing happens.
    pub open spec fn apply_moves(self) -> GameView {
        if self.turn_state == TurnState::ApplyMoves {
            GameView {
                controller: self.controller.fight(self.current_team, self.controller.slot_count),
                current_team: self.current_team.opponent(),
                turn_state: TurnState::DrawCards,
                ..self
            }
        } else {
            self
        }
    }

    /// Whether the phase and the team to move of `after` are those of
    /// `self`, or those that follow them.
    pub open spec fn stays_or_advances(self, after: GameView) -> bool {
        ||| (after.turn_state, after.current_team) == (self.turn_state, self.current_team)
        ||| (after.turn_state, after.current_team) == turn_after(
            self.turn_state,
            self.current_team,
        )
    }
}

/// Where two cards fuse to a card of the catalog, it does not matter which
/// of them lies in the slot and which is held: put down on the other, either
/// leaves the slot with the fused card and the hit points of its definition.
pub proof fn lemma_fused_slot_either_way(
    one: GameView,
    other: GameView,
    slot: CardSlot,
    first: (CardId, CardStats),
    second: (CardId, CardStats),
)
    requires
        one.controller.cards == other.controller.cards,
        one.controller.slot_count == other.controller.slot_count,
        slot.within(one.controller.slot_count),
        one.controller.card(slot) == Some(first),
        other.controller.card(slot) == Some(second),
        fusion(
            one.controller.cards,
            one.controller.cards[first.0 as int],
            one.controller.cards[second.0 as int],
        ) is Some,
    ensures
        ({
            let cards = one.controller.cards;
            let fused = fusion(cards, cards[first.0 as int], cards[second.0 as int])->0;
            let left = one.put_down(slot, second.0, second.1);
            let right = other.put_down(slot, first.0, first.1);
            &&& left is Some
            &&& right is Some
            &&& left->0.card(slot) == right->0.card(slot)
            &&& left->0.card(slot) == Some((fused, CardStats { hp: cards[fused as int].hp }))
        }),
{
    let cards = one.controller.cards;
    lemma_fusion_symmetric(cards, cards[first.0 as int], cards[second.0 as int]);
}

/// A match: the board with what belongs to it, the held card, and whose turn
/// it is in which phase.
pub struct Game {
    controller: GameController,
    cursor: CustomCursor,
    turn_state: TurnState,
    current_team: CurrentTurnTeam,
    next_card_type: NextTurnCardType,
}

impl View for Game {
    type V = GameView;

    closed spec fn view(&self) -> GameView {
        GameView {
            controller: self.controller@,
            cursor: self.cursor,
            turn_state: self.turn_state,
            current_team: self.current_team.0,
            next_card_type: self.next_card_type.0,
        }
    }
}

impl Game {
    /// The board is stored as its invariant demands.
    pub closed spec fn stored(&self) -> bool {
        self.controller.stored()
    }

    /// The invariant of a match.
    pub open spec fn wf(&self) -> bool {
        self.stored() && self@.wf()
    }

    /// A match at its beginning on the board of `controller`: nothing held,
    /// Red to draw a hero.
    pub fn new(controller: GameController) -> (game: Game)
        requires
            controller.wf(),
        ensures
            game.wf(),
            game@ == GameView::start(controller@),
    {
        Game {
            controller,
            cursor: CustomCursor::Default,
            turn_state: TurnState::DrawCards,
            current_team: CurrentTurnTeam(Team::Red),
            next_card_type: NextTurnCardType(CardType::Hero),
        }
    }

    /// A match on the board of `controller` in the given phase, with nothing
    /// held.
    pub fn from_parts(
        controller: GameController,
        turn_state: TurnState,
        current_team: CurrentTurnTeam,
        next_card_type: NextTurnCardType,
    ) -> (game: Game)
        requires
            controller.wf(),
        ensures
            game.wf(),
            game@ == (GameView {
                controller: controller@,
                cursor: CustomCursor::Default,
                turn_state,
                current_team: current_team.0,
                next_card_type: next_card_type.0,
            }),
    {
        Game { controller, cursor: CustomCursor::Default, turn_state, current_team, next_card_type }
    }

    /// Ends the match and hands its board back.
    pub fn into_controller(self) -> (controller: GameController)
        requires
            self.wf(),
        ensures
            controller.wf(),
            controller@ == self@.controller,
    {
        self.controller
    }

    /// The board, the health and the queued changes.
    pub fn controller(&self) -> (controller: &GameController)
        requires
            self.wf(),
        ensures
            controller.wf(),
            controller@ == self@.controller,
    {
        &self.controller
    }

    /// The card the team to move holds.
    pub fn cursor(&self) -> (cursor: CustomCursor)
        ensures
            cursor == self@.cursor,
    {
        self.cursor
    }

    /// The phase of the turn.
    pub fn turn_state(&self) -> (state: TurnState)
        ensures
            state == self@.turn_state,
    {
        self.turn_state
    }

    /// The team to move.
    pub fn current_team(&self) -> (team: CurrentTurnTeam)
        ensures
            team.0 == self@.current_team,
    {
        self.current_team
    }

    /// The category the next draw offers.
    pub fn next_card_type(&self) -> (next: NextTurnCardType)
        ensures
            next.0 == self@.next_card_type,
    {
        self.next_card_type
    }

    /// Hands out the queued changes, oldest first, and empties the queue.
    pub fn take_card_modifications(&mut self) -> (taken: Vec<ModifyCardAction>)
        requires
            old(self).wf(),
        ensures
            final(self).wf(),
            taken@ == old(self)@.controller.card_modifications,
            final(self)@ == (GameView {
                controller: old(self)@.controller.drained(),
                ..old(self)@
            }),
    {
        self.controller.take_card_modifications()
    }

    /// Ends a tick: hands out the queued changes, oldest first, empties the
    /// queue, and then compacts the play rows of both teams.
    pub fn apply_card_modifications(&mut self) -> (taken: Vec<ModifyCardAction>)
        requires
            old(self).wf(),
        ensures
            final(self).wf(),
            taken@ == old(self)@.controller.card_modifications,
            final(self)@ == (GameView {
                controller: old(self)@.controller.drained().stack_cards(
                    Team::Red,
                    CardSlotType::Play,
                ).stack_cards(Team::Blue, CardSlotType::Play),
                ..old(self)@
            }),
    {
        self.controller.apply_card_modifications()
    }
}

/// The card that the card `below` on the board and the held card `held`
/// become, with the state it starts with: the hit points of its definition.
pub fn fuse_cards(controller: &GameController, below: CardId, held: CardId) -> (fused: Option<
    (CardId, CardStats),
>)
    requires
        below < controller@.cards.len(),
        held < controller@.cards.len(),
    ensures
        (match fused {
            Some((id, stats)) => fusion(
                controller@.cards,
                controller@.cards[below as int],
                controller@.cards[held as int],
            ) == Some(id) && id < controller@.cards.len() && stats == (CardStats {
                hp: controller@.cards[id as int].hp,
            }),
            None => fusion(
                controller@.cards,
                controller@.cards[below as int],
                controller@.cards[held as int],
            ) is None,
        }),
{
    let slot_card = controller.card(below);
    let held_card = controller.card(held);
    if cards_can_combine(slot_card, held_card) || cards_can_combine(held_card, slot_card) {
        let colors = merge_colors(&slot_card.colors, &held_card.colors);
        let card_type = get_upgraded_card_type(slot_card, held_card);
        match controller.get_card_with_colors(colors, card_type) {
            Some((card, id)) => Some((id, CardStats { hp: card.hp })),
            None => None,
        }
    } else {
        None
    }
}

/// Lets the team to move take `card` as its draw, with `next_card_type` as
/// the category that the draw after it offers. A request of the other team,
/// or one outside the phase of drawing cards, is ignored.
pub fn draw_chosen_card(game: &mut Game, team: Team, card: CardId, next_card_type: CardType)
    requires
        old(game).wf(),
        card < old(game)@.controller.cards.len(),
    ensures
        final(game).wf(),
        final(game)@ == (if old(game)@.accepts_draw(team) {
            old(game)@.with_drawn_card(card, next_card_type)
        } else {
            old(game)@
        }),
        old(game)@.stays_or_advances(final(game)@),
        old(game)@.controller.replays_to(final(game)@.controller),
{
    proof {
        game.controller@.lemma_replays_to_itself();
    }
    if game.turn_state != TurnState::DrawCards || team != game.current_team.0 {
        return ;
    }
    let hp = game.controller.card(card).hp;
    match game.controller.get_first_open_slot(team, CardSlotType::Hand) {
        Some(id) => {
            proof {
                lemma_first_open_from(game.controller@.row(team, CardSlotType::Hand), 0);
                game.controller@.lemma_push_into_open_slot(
                    CardSlot { team, slot_type: CardSlotType::Hand, id },
                    card,
                    CardStats { hp },
                );
            }
            game.controller.push_card_into_stack(
                CardSlot { team, slot_type: CardSlotType::Hand, id },
                card,
                CardStats { hp },
            );
            let ghost pushed = game.controller@;
            game.controller.stack_cards(team, CardSlotType::Hand);
            proof {
                old(game)@.controller.lemma_replays_on(pushed, game.controller@);
            }
        },
        None => {},
    }
    game.next_card_type = NextTurnCardType(next_card_type);
    game.turn_state = TurnState::PlayCards;
}

/// Lets `team` draw a card. A request of the team that is not to move, or
/// one outside the phase of drawing cards, is ignored. Otherwise `rng`
/// chooses whether the card carries one color or two, then a drawable card
/// of the category on offer with that many colors, and then the category
/// that the next draw offers, which is never a spell. The draw fails, and
/// leaves the match as it was, if the catalog holds no card to choose from.
pub fn draw_card(game: &mut Game, team: Team, rng: &mut WyRand) -> (outcome: Result<
    (),
    CatalogError,
>)
    requires
        old(game).wf(),
    ensures
        final(game).wf(),
        old(game)@.stays_or_advances(final(game)@),
        old(game)@.controller.replays_to(final(game)@.controller),
        !old(game)@.accepts_draw(team) ==> outcome is Ok && final(game)@ == old(game)@,
        old(game)@.accepts_draw(team) && old(game)@.offers(1) && old(game)@.offers(2)
            ==> outcome is Ok,
        old(game)@.accepts_draw(team) && !old(game)@.offers(1) && !old(game)@.offers(2)
            ==> outcome is Err,
        old(game)@.accepts_draw(team) ==> (match outcome {
            Ok(()) => exists|card: CardId, next: CardType|
                old(game)@.may_draw(card) && next != CardType::Spell && final(game)@
                    == #[trigger] old(game)@.with_drawn_card(card, next),
            Err(error) => final(game)@ == old(game)@ && (old(game)@.lacks_cards(1, error)
                || old(game)@.lacks_cards(2, error)),
        }),
{
    proof {
        game.controller@.lemma_replays_to_itself();
    }
    if game.turn_state != TurnState::DrawCards || team != game.current_team.0 {
        return Ok(());
    }
    let color_len = gen_range(rng, 1, 3);
    let card = match game.controller.get_random_card_of_type_with_len(
        rng,
        game.next_card_type.0,
        color_len,
    ) {
        Ok(card) => card,
        Err(error) => {
            return Err(error);
        },
    };
    let next = CardType::from_i8(gen_range(rng, 0, 4) as i8).unwrap();
    draw_chosen_card(game, team, card, next);
    Ok(())
}

/// Whether a press of `team` is to be handled, and if so, handles the case
/// that the team has no room left to play a card: the turn then goes on to
/// applying the moves. Returns whether the press is still to be handled.
fn begin_play(game: &mut Game, team: Team) -> (open: bool)
    requires
        old(game).wf(),
    ensures
        final(game).wf(),
        old(game)@.controller.replays_to(final(game)@.controller),
        open == (old(game)@.accepts_play(team) && !old(game)@.play_row_full()),
        final(game)@ == old(game)@.skip_full_play(team),
{
    proof {
        game.controller@.lemma_replays_to_itself();
    }
    if game.turn_state != TurnState::PlayCards || team != game.current_team.0 {
        return false;
    }
    if game.controller.card_stack_full(team, CardSlotType::Play) {
        game.turn_state = TurnState::ApplyMoves;
        return false;
    }
    true
}

/// Lets the turn go on to applying the moves if cards are being played and
/// the team to move has no room left to play one. Otherwise nothing
/// happens.
pub fn skip_full_play_row(game: &mut Game)
    requires
        old(game).wf(),
    ensures
        final(game).wf(),
        final(game)@ == old(game)@.skip_full_play(old(game)@.current_team),
        old(game)@.stays_or_advances(final(game)@),
        old(game)@.controller.replays_to(final(game)@.controller),
{
    let team = game.current_team.0;
    begin_play(game, team);
}

/// Handles a request of `team` to pick up the card in `slot`. Outside the
/// phase of playing cards, and for the team that is not to move, the request
/// is ignored. If the play row of the team is full, the turn goes on to
/// applying the moves at once. Otherwise, if nothing is held and `slot` is a
/// slot of the team's hand that holds a card, the card is lifted into the
/// cursor and the hand is compacted. Any other request is ignored.
pub fn request_pick_up(game: &mut Game, team: Team, slot: CardSlot)
    requires
        old(game).wf(),
        slot.within(old(game)@.controller.slot_count),
    ensures
        final(game).wf(),
        final(game)@ == old(game)@.request_pick_up(team, slot),
        old(game)@.stays_or_advances(final(game)@),
        old(game)@.controller.replays_to(final(game)@.controller),
{
    if !begin_play(game, team) {
        return ;
    }
    match game.cursor {
        CustomCursor::Default => {},
        CustomCursor::Card { .. } => {
            return ;
        },
    }
    if !(slot.team == game.current_team.0 && slot.slot_type == CardSlotType::Hand) {
        return ;
    }
    proof {
        game.controller@.lemma_card_known(slot);
    }
    match game.controller.get_card(&slot) {
        Some((card, stats)) => {
            game.cursor = CustomCursor::Card { card, stats };
            game.controller.remove_card(slot);
            let ghost removed = game.controller@;
            game.controller.stack_cards(slot.team, CardSlotType::Hand);
            proof {
                old(game)@.controller.lemma_replays_on(removed, game.controller@);
            }
        },
        None => {},
    }
}

/// Handles a request of `team` to put the held card on `slot`. Outside the
/// phase of playing cards, and for the team that is not to move, the request
/// is ignored. If the play row of the team is full, the turn goes on to
/// applying the moves at once. Otherwise, if a card is held and `slot` is
/// one of the team's play slots, the card is put down there: where the slot
/// holds a card that fuses with it to a card of the catalog, that card takes
/// the slot; otherwise the held card is pushed into the row. The row is then
/// compacted, the cursor emptied, and the turn goes on to applying the
/// moves. A request for a slot at or after which the row has no room, and
/// any other request, is ignored.
pub fn request_place(game: &mut Game, team: Team, slot: CardSlot)
    requires
        old(game).wf(),
        slot.within(old(game)@.controller.slot_count),
    ensures
        final(game).wf(),
        final(game)@ == old(game)@.request_place(team, slot),
        old(game)@.stays_or_advances(final(game)@),
        old(game)@.controller.replays_to(final(game)@.controller),
{
    if !begin_play(game, team) {
        return ;
    }
    let (card, stats) = match game.cursor {
        CustomCursor::Default => {
            return ;
        },
        CustomCursor::Card { card, stats } => (card, stats),
    };
    if !(slot.team == game.current_team.0 && slot.slot_type == CardSlotType::Play) {
        return ;
    }
    proof {
        game.controller@.lemma_card_known(slot);
    }
    let fused = match game.controller.get_card(&slot) {
        Some((below, _)) => fuse_cards(&game.controller, below, card),
        None => None,
    };
    match fused {
        Some((id, fresh)) => {
            game.controller.push_card_at(slot, id, fresh);
        },
        None => {
            let open = game.controller.get_first_open_slot_from(
                slot.team,
                slot.slot_type,
                slot.id,
            );
            if open.is_none() {
                return ;
            }
            game.controller.push_card_into_stack(slot, card, stats);
        },
    }
    let ghost put = game.controller@;
    game.controller.stack_cards(slot.team, CardSlotType::Play);
    proof {
        old(game)@.controller.lemma_replays_on(put, game.controller@);
    }
    game.cursor = CustomCursor::Default;
    game.turn_state = TurnState::ApplyMoves;
}

/// Handles a press of `team` on `slot`: a request to pick up while nothing
/// is held, a request to place while a card is held.
pub fn play_card(game: &mut Game, team: Team, slot: CardSlot)
    requires
        old(game).wf(),
        slot.within(old(game)@.controller.slot_count),
    ensures
        final(game).wf(),
        final(game)@ == old(game)@.play_card(team, slot),
        old(game)@.stays_or_advances(final(game)@),
        old(game)@.controller.replays_to(final(game)@.controller),
{
    match game.cursor {
        CustomCursor::Default => request_pick_up(game, team, slot),
        CustomCursor::Card { .. } => request_place(game, team, slot),
    }
}

/// Applies the moves of the turn: the play rows of the two teams meet, the
/// turn passes to the other team, and cards are drawn again. Where two cards
/// face each other, each takes the damage of the other; where a card faces
/// an empty slot, the team whose slot is empty loses the card's damage from
/// its health. Outside the phase of applying moves nothing happens.
pub fn apply_moves(game: &mut Game)
    requires
        old(game).wf(),
    ensures
        final(game).wf(),
        final(game)@ == old(game)@.apply_moves(),
        old(game)@.turn_state == TurnState::ApplyMoves ==> forall|slot: CardSlot| #[trigger]
            final(game)@.controller.card(slot) == old(game)@.controller.after_combat(slot),
        old(game)@.turn_state == TurnState::ApplyMoves ==> forall|side: Team| #[trigger]
            final(game)@.controller.team_health[side] == drained_health(
                old(game)@.controller.team_health[side],
                old(game)@.controller.unanswered(side, old(game)@.controller.slot_count),
            ),
        old(game)@.stays_or_advances(final(game)@),
        old(game)@.controller.replays_to(final(game)@.controller),
{
    proof {
        game.controller@.lemma_replays_to_itself();
    }
    if game.turn_state != TurnState::ApplyMoves {
        return ;
    }
    game.controller.resolve_combat(game.current_team.0);
    game.current_team = CurrentTurnTeam(game.current_team.0.not());
    game.turn_state = TurnState::DrawCards;
}

} // verus!
