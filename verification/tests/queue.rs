use bevy_prng::WyRand;
use card_battle::cards::{Card, CardColor, CardType};
use card_battle::game::{
    apply_moves, draw_card, play_card, request_pick_up, request_place, skip_full_play_row, Game,
};
use card_battle::custom_cursor::CustomCursor;
use card_battle::game_state::{
    CardSlot, CardSlotType, CardStats, CurrentTurnTeam, NextTurnCardType, Team, TurnState,
};
use card_battle::game_ui_controller::{GameController, ModifyCardAction};
use rand::SeedableRng;
use std::collections::BTreeMap;

type Shown = BTreeMap<CardSlot, Option<(usize, CardStats)>>;

fn card(colors: Vec<CardColor>, card_type: CardType, damage: u32, hp: Option<u32>) -> Card {
    Card {
        name: String::from("card"),
        colors,
        card_type,
        text: String::new(),
        image: String::new(),
        damage: Some(damage),
        hp,
    }
}

fn catalog() -> Vec<Card> {
    let mut cards = Vec::new();
    for card_type in [CardType::Hero, CardType::Beast, CardType::Equipment, CardType::Food] {
        cards.push(card(vec![CardColor::Red], card_type, 1, Some(2)));
        cards.push(card(vec![CardColor::Blue, CardColor::Green], card_type, 2, Some(3)));
        cards.push(card(vec![CardColor::Teal], card_type, 3, None));
    }
    cards.push(card(vec![CardColor::Red, CardColor::Teal], CardType::Hero, 5, Some(9)));
    cards.push(card(vec![CardColor::Teal, CardColor::Red], CardType::Beast, 5, Some(9)));
    cards
}

fn all_slots(slot_count: usize) -> Vec<CardSlot> {
    let mut slots = Vec::new();
    for team in [Team::Red, Team::Blue] {
        for slot_type in [CardSlotType::Hand, CardSlotType::Play] {
            for id in 0..slot_count {
                slots.push(CardSlot { team, slot_type, id });
            }
        }
    }
    slots
}

fn show(shown: &mut Shown, actions: Vec<ModifyCardAction>) {
    for action in actions {
        match action {
            ModifyCardAction::Push { slot, card, stats } => {
                shown.insert(slot, Some((card, stats)));
            }
            ModifyCardAction::Remove { slot } => {
                shown.insert(slot, None);
            }
        }
    }
}

fn assert_shows(shown: &Shown, controller: &GameController) {
    let slots = all_slots(controller.slot_count());
    assert_eq!(shown.len(), slots.len());
    for slot in slots {
        assert_eq!(shown[&slot], controller.get_card(&slot));
    }
}

#[test]
fn replayed_changes_show_the_board() {
    let mut controller = GameController::new(catalog(), 4);
    let mut shown: Shown = all_slots(4).into_iter().map(|slot| (slot, None)).collect();
    let hand = |id| CardSlot { team: Team::Red, slot_type: CardSlotType::Hand, id };
    let play = |id| CardSlot { team: Team::Blue, slot_type: CardSlotType::Play, id };

    controller.push_card_at(hand(2), 0, CardStats { hp: Some(2) });
    controller.push_card_into_stack(hand(2), 1, CardStats { hp: Some(3) });
    controller.push_card_into_stack(hand(0), 2, CardStats { hp: None });
    show(&mut shown, controller.take_card_modifications());
    assert_shows(&shown, &controller);

    controller.stack_cards(Team::Red, CardSlotType::Hand);
    controller.push_card_at(play(3), 3, CardStats { hp: Some(2) });
    controller.push_card_at(play(1), 4, CardStats { hp: Some(3) });
    controller.damage_card(&play(3), 1);
    controller.damage_card(&play(1), 3);
    controller.remove_card(hand(0));
    show(&mut shown, controller.apply_card_modifications());
    // the compaction of the play rows is queued for the next tick
    show(&mut shown, controller.take_card_modifications());
    assert_shows(&shown, &controller);

    controller.resolve_combat(Team::Blue);
    controller.deal_card(Team::Blue, 5);
    controller.deal_card(Team::Red, 5);
    show(&mut shown, controller.take_card_modifications());
    assert_shows(&shown, &controller);
}

#[test]
fn a_random_match_is_shown_faithfully() {
    for seed in 0..30u64 {
        let mut rng = WyRand::seed_from_u64(seed);
        let mut controller = GameController::new(catalog(), 4);
        let mut shown: Shown = all_slots(4).into_iter().map(|slot| (slot, None)).collect();
        controller.deal_opening_hands(&mut rng, 2).unwrap();
        let mut game = Game::new(controller);
        for _ in 0..40 {
            let team = game.current_team().0;
            draw_card(&mut game, team, &mut rng).unwrap();
            assert_eq!(game.turn_state(), TurnState::PlayCards);
            play_card(&mut game, team, CardSlot { team, slot_type: CardSlotType::Hand, id: 0 });
            let target = rand::Rng::gen_range(&mut rng, 0..4usize);
            play_card(&mut game, team, CardSlot { team, slot_type: CardSlotType::Play, id: target });
            if game.turn_state() == TurnState::PlayCards {
                // no room at or after the target: the first slot always has
                play_card(&mut game, team, CardSlot { team, slot_type: CardSlotType::Play, id: 0 });
            }
            assert_eq!(game.turn_state(), TurnState::ApplyMoves);
            apply_moves(&mut game);
            assert_eq!(game.current_team(), CurrentTurnTeam(!team));
            assert_eq!(game.turn_state(), TurnState::DrawCards);
            show(&mut shown, game.apply_card_modifications());
            // what the last compaction queued is shown with the next tick
            let mut ahead = shown.clone();
            let pending = game.take_card_modifications();
            show(&mut ahead, pending.clone());
            assert_shows(&ahead, game.controller());
            shown = ahead;
            for kind in [CardSlotType::Hand, CardSlotType::Play] {
                for side in [Team::Red, Team::Blue] {
                    if kind == CardSlotType::Play || side == team {
                        let row = game.controller().cards_in_row(side, kind);
                        let count = row.iter().filter(|cell| cell.is_some()).count();
                        assert!(row.iter().take(count).all(|cell| cell.is_some()));
                    }
                }
            }
        }
    }
}

#[test]
fn pick_up_is_only_for_an_empty_cursor() {
    let mut controller = GameController::new(catalog(), 3);
    let hand = |id| CardSlot { team: Team::Red, slot_type: CardSlotType::Hand, id };
    controller.push_card_at(hand(0), 0, CardStats { hp: Some(2) });
    controller.push_card_at(hand(1), 1, CardStats { hp: Some(3) });
    let mut game = Game::from_parts(
        controller,
        TurnState::PlayCards,
        CurrentTurnTeam(Team::Red),
        NextTurnCardType(CardType::Hero),
    );
    request_pick_up(&mut game, Team::Blue, hand(0));
    assert_eq!(game.cursor(), CustomCursor::Default);
    request_pick_up(&mut game, Team::Red, hand(0));
    assert_eq!(game.cursor(), CustomCursor::Card { card: 0, stats: CardStats { hp: Some(2) } });
    game.take_card_modifications();
    request_pick_up(&mut game, Team::Red, hand(0));
    assert_eq!(game.cursor(), CustomCursor::Card { card: 0, stats: CardStats { hp: Some(2) } });
    assert_eq!(
        game.controller().cards_in_row(Team::Red, CardSlotType::Hand),
        vec![Some((1, CardStats { hp: Some(3) })), None, None]
    );
    assert!(game.take_card_modifications().is_empty());
    assert_eq!(game.turn_state(), TurnState::PlayCards);
}

#[test]
fn place_is_only_for_a_held_card() {
    let mut controller = GameController::new(catalog(), 3);
    let hand = |id| CardSlot { team: Team::Blue, slot_type: CardSlotType::Hand, id };
    let play = |id| CardSlot { team: Team::Blue, slot_type: CardSlotType::Play, id };
    controller.push_card_at(hand(0), 0, CardStats { hp: Some(2) });
    controller.take_card_modifications();
    let mut game = Game::from_parts(
        controller,
        TurnState::PlayCards,
        CurrentTurnTeam(Team::Blue),
        NextTurnCardType(CardType::Hero),
    );
    request_place(&mut game, Team::Blue, play(0));
    assert_eq!(game.turn_state(), TurnState::PlayCards);
    assert!(game.take_card_modifications().is_empty());
    request_pick_up(&mut game, Team::Blue, hand(0));
    request_place(&mut game, Team::Red, play(0));
    request_place(&mut game, Team::Blue, hand(0));
    assert_eq!(game.turn_state(), TurnState::PlayCards);
    request_place(&mut game, Team::Blue, play(1));
    assert_eq!(game.turn_state(), TurnState::ApplyMoves);
    assert_eq!(game.cursor(), CustomCursor::Default);
    assert_eq!(
        game.controller().cards_in_row(Team::Blue, CardSlotType::Play),
        vec![Some((0, CardStats { hp: Some(2) })), None, None]
    );
    assert_eq!(
        game.take_card_modifications(),
        vec![
            ModifyCardAction::Remove { slot: hand(0) },
            ModifyCardAction::Push { slot: play(1), card: 0, stats: CardStats { hp: Some(2) } },
            ModifyCardAction::Push { slot: play(0), card: 0, stats: CardStats { hp: Some(2) } },
            ModifyCardAction::Remove { slot: play(1) },
        ]
    );
}

#[test]
fn requests_skip_playing_on_a_full_play_row() {
    for pick in [true, false] {
        let mut controller = GameController::new(catalog(), 1);
        controller.push_card_at(CardSlot { team: Team::Red, slot_type: CardSlotType::Play, id: 0 }, 0, CardStats { hp: Some(2) });
        controller.push_card_at(CardSlot { team: Team::Red, slot_type: CardSlotType::Hand, id: 0 }, 1, CardStats { hp: Some(3) });
        controller.take_card_modifications();
        let mut game = Game::from_parts(
            controller,
            TurnState::PlayCards,
            CurrentTurnTeam(Team::Red),
            NextTurnCardType(CardType::Hero),
        );
        if pick {
            request_pick_up(&mut game, Team::Red, CardSlot { team: Team::Red, slot_type: CardSlotType::Hand, id: 0 });
        } else {
            request_place(&mut game, Team::Red, CardSlot { team: Team::Red, slot_type: CardSlotType::Play, id: 0 });
        }
        assert_eq!(game.turn_state(), TurnState::ApplyMoves);
        assert_eq!(game.cursor(), CustomCursor::Default);
        assert!(game.take_card_modifications().is_empty());
    }
}

#[test]
fn a_full_play_row_is_skipped_without_a_press() {
    for state in [TurnState::DrawCards, TurnState::PlayCards, TurnState::ApplyMoves] {
        for full in [true, false] {
            let mut controller = GameController::new(catalog(), 2);
            let play = |id| CardSlot { team: Team::Blue, slot_type: CardSlotType::Play, id };
            controller.push_card_at(play(0), 0, CardStats { hp: Some(2) });
            if full {
                controller.push_card_at(play(1), 1, CardStats { hp: Some(3) });
            }
            controller.take_card_modifications();
            let mut game = Game::from_parts(
                controller,
                state,
                CurrentTurnTeam(Team::Blue),
                NextTurnCardType(CardType::Food),
            );
            skip_full_play_row(&mut game);
            let expected = if full && state == TurnState::PlayCards {
                TurnState::ApplyMoves
            } else {
                state
            };
            assert_eq!(game.turn_state(), expected);
            assert_eq!(game.current_team(), CurrentTurnTeam(Team::Blue));
            assert_eq!(game.next_card_type(), NextTurnCardType(CardType::Food));
            assert!(game.take_card_modifications().is_empty());
        }
    }
}
