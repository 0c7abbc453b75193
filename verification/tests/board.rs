use card_battle::cards::{Card, CardColor, CardType};
use card_battle::game_state::{CardSlot, CardSlotType, CardStats, Team};
use card_battle::game_ui_controller::{GameController, ModifyCardAction, STARTING_HEALTH};

fn card(name: &str, colors: Vec<CardColor>, card_type: CardType, damage: Option<u32>, hp: Option<u32>) -> Card {
    Card {
        name: name.to_string(),
        colors,
        card_type,
        text: format!("{} text", name),
        image: format!("{}.png", name),
        damage,
        hp,
    }
}

fn catalog() -> Vec<Card> {
    vec![
        card("knight", vec![CardColor::Red], CardType::Hero, Some(2), Some(3)),
        card("wolf", vec![CardColor::Green], CardType::Beast, Some(1), Some(2)),
        card("shield", vec![CardColor::Blue], CardType::Equipment, None, None),
        card("bread", vec![CardColor::Yellow], CardType::Food, None, Some(1)),
    ]
}

fn slot(team: Team, slot_type: CardSlotType, id: usize) -> CardSlot {
    CardSlot { team, slot_type, id }
}

fn hp(value: u32) -> CardStats {
    CardStats { hp: Some(value) }
}

#[test]
fn new_board_is_empty_and_total() {
    let controller = GameController::new(catalog(), 3);
    assert_eq!(controller.slot_count(), 3);
    let mut slots = 0;
    for team in [Team::Red, Team::Blue] {
        assert_eq!(controller.get_team_health(team), STARTING_HEALTH);
        assert_eq!(controller.get_team_health(team), 100);
        for slot_type in [CardSlotType::Hand, CardSlotType::Play] {
            let row = controller.cards_in_row(team, slot_type);
            assert_eq!(row.len(), 3);
            for id in 0..3 {
                assert_eq!(controller.get_card(&slot(team, slot_type, id)), None);
                slots += 1;
            }
            assert_eq!(controller.get_first_open_slot(team, slot_type), Some(0));
            assert!(!controller.card_stack_full(team, slot_type));
        }
    }
    assert_eq!(slots, 2 * 2 * 3);
    assert!(!controller.team_health_updated());
}

#[test]
fn board_stays_total_through_changes() {
    let mut controller = GameController::new(catalog(), 4);
    controller.push_card_at(slot(Team::Red, CardSlotType::Hand, 2), 0, hp(3));
    controller.push_card_into_stack(slot(Team::Red, CardSlotType::Hand, 2), 1, hp(2));
    controller.remove_card(slot(Team::Red, CardSlotType::Hand, 2));
    controller.stack_cards(Team::Red, CardSlotType::Hand);
    controller.damage_card(&slot(Team::Red, CardSlotType::Hand, 0), 1);
    for team in [Team::Red, Team::Blue] {
        for slot_type in [CardSlotType::Hand, CardSlotType::Play] {
            assert_eq!(controller.cards_in_row(team, slot_type).len(), 4);
        }
    }
    assert_eq!(controller.slot_count(), 4);
}

#[test]
fn board_with_no_slots_is_full() {
    let mut controller = GameController::new(catalog(), 0);
    assert!(controller.card_stack_full(Team::Red, CardSlotType::Hand));
    assert_eq!(controller.get_first_open_slot(Team::Blue, CardSlotType::Play), None);
    controller.stack_cards(Team::Red, CardSlotType::Play);
    assert!(controller.take_card_modifications().is_empty());
}

#[test]
fn get_card_off_the_board_is_none() {
    let controller = GameController::new(catalog(), 2);
    assert_eq!(controller.get_card(&slot(Team::Red, CardSlotType::Hand, 2)), None);
    assert_eq!(controller.get_card(&slot(Team::Blue, CardSlotType::Play, usize::MAX)), None);
}

#[test]
fn push_card_at_overwrites_and_queues() {
    let mut controller = GameController::new(catalog(), 3);
    let target = slot(Team::Blue, CardSlotType::Play, 1);
    controller.push_card_at(target, 0, hp(3));
    controller.push_card_at(target, 1, hp(2));
    assert_eq!(controller.get_card(&target), Some((1, hp(2))));
    assert_eq!(controller.get_card(&slot(Team::Blue, CardSlotType::Play, 0)), None);
    assert_eq!(controller.get_card(&slot(Team::Red, CardSlotType::Play, 1)), None);
    assert_eq!(
        controller.take_card_modifications(),
        vec![
            ModifyCardAction::Push { slot: target, card: 0, stats: hp(3) },
            ModifyCardAction::Push { slot: target, card: 1, stats: hp(2) },
        ]
    );
}

#[test]
fn remove_card_empties_and_queues() {
    let mut controller = GameController::new(catalog(), 3);
    let target = slot(Team::Red, CardSlotType::Hand, 0);
    controller.push_card_at(target, 0, hp(3));
    controller.take_card_modifications();
    controller.remove_card(target);
    assert_eq!(controller.get_card(&target), None);
    assert_eq!(controller.take_card_modifications(), vec![ModifyCardAction::Remove { slot: target }]);
}

#[test]
fn push_into_stack_shifts_up_to_the_first_open_slot() {
    let mut controller = GameController::new(catalog(), 5);
    let team = Team::Red;
    let kind = CardSlotType::Hand;
    controller.push_card_at(slot(team, kind, 0), 0, hp(3));
    controller.push_card_at(slot(team, kind, 1), 1, hp(2));
    controller.push_card_at(slot(team, kind, 2), 3, hp(1));
    controller.push_card_at(slot(team, kind, 4), 2, CardStats { hp: None });
    controller.take_card_modifications();

    controller.push_card_into_stack(slot(team, kind, 1), 0, hp(9));

    assert_eq!(
        controller.cards_in_row(team, kind),
        vec![
            Some((0, hp(3))),
            Some((0, hp(9))),
            Some((1, hp(2))),
            Some((3, hp(1))),
            Some((2, CardStats { hp: None })),
        ]
    );
    assert_eq!(
        controller.take_card_modifications(),
        vec![
            ModifyCardAction::Push { slot: slot(team, kind, 1), card: 0, stats: hp(9) },
            ModifyCardAction::Push { slot: slot(team, kind, 2), card: 1, stats: hp(2) },
            ModifyCardAction::Push { slot: slot(team, kind, 3), card: 3, stats: hp(1) },
        ]
    );
    assert_eq!(controller.cards_in_row(Team::Blue, kind), vec![None; 5]);
    assert_eq!(controller.cards_in_row(team, CardSlotType::Play), vec![None; 5]);
}

#[test]
fn push_into_stack_on_an_open_slot_writes_only_that_slot() {
    let mut controller = GameController::new(catalog(), 3);
    let target = slot(Team::Blue, CardSlotType::Hand, 1);
    controller.push_card_into_stack(target, 2, CardStats { hp: None });
    assert_eq!(
        controller.cards_in_row(Team::Blue, CardSlotType::Hand),
        vec![None, Some((2, CardStats { hp: None })), None]
    );
    assert_eq!(
        controller.take_card_modifications(),
        vec![ModifyCardAction::Push { slot: target, card: 2, stats: CardStats { hp: None } }]
    );
}

#[test]
fn push_into_stack_without_room_after_the_target_does_nothing() {
    let mut controller = GameController::new(catalog(), 3);
    let team = Team::Red;
    let kind = CardSlotType::Play;
    controller.push_card_at(slot(team, kind, 1), 0, hp(3));
    controller.push_card_at(slot(team, kind, 2), 1, hp(2));
    controller.take_card_modifications();

    controller.push_card_into_stack(slot(team, kind, 1), 3, hp(1));

    assert_eq!(
        controller.cards_in_row(team, kind),
        vec![None, Some((0, hp(3))), Some((1, hp(2)))]
    );
    assert!(controller.take_card_modifications().is_empty());
}

#[test]
fn push_into_full_row_does_nothing() {
    let mut controller = GameController::new(catalog(), 2);
    let team = Team::Blue;
    let kind = CardSlotType::Hand;
    controller.push_card_at(slot(team, kind, 0), 0, hp(3));
    controller.push_card_at(slot(team, kind, 1), 1, hp(2));
    assert!(controller.card_stack_full(team, kind));
    assert_eq!(controller.get_first_open_slot(team, kind), None);
    controller.take_card_modifications();
    controller.push_card_into_stack(slot(team, kind, 0), 3, hp(1));
    assert_eq!(controller.cards_in_row(team, kind), vec![Some((0, hp(3))), Some((1, hp(2)))]);
    assert!(controller.take_card_modifications().is_empty());
}

#[test]
fn push_into_stack_leaves_no_gap() {
    let mut controller = GameController::new(catalog(), 6);
    let team = Team::Red;
    let kind = CardSlotType::Play;
    for id in [0, 1, 2, 4] {
        controller.push_card_at(slot(team, kind, id), 1, hp(2));
    }
    let open = controller.get_first_open_slot_from(team, kind, 1);
    assert_eq!(open, Some(3));
    controller.push_card_into_stack(slot(team, kind, 1), 0, hp(3));
    for id in 1..=3 {
        assert!(controller.get_card(&slot(team, kind, id)).is_some());
    }
    assert_eq!(controller.get_card(&slot(team, kind, 1)), Some((0, hp(3))));
    assert_eq!(controller.get_card(&slot(team, kind, 5)), None);
}

#[test]
fn stack_cards_moves_cards_into_a_prefix() {
    let mut controller = GameController::new(catalog(), 5);
    let team = Team::Blue;
    let kind = CardSlotType::Play;
    controller.push_card_at(slot(team, kind, 1), 0, hp(3));
    controller.push_card_at(slot(team, kind, 3), 1, hp(2));
    controller.push_card_at(slot(team, kind, 4), 3, hp(1));
    controller.take_card_modifications();

    controller.stack_cards(team, kind);

    assert_eq!(
        controller.cards_in_row(team, kind),
        vec![Some((0, hp(3))), Some((1, hp(2))), Some((3, hp(1))), None, None]
    );
    assert_eq!(
        controller.take_card_modifications(),
        vec![
            ModifyCardAction::Push { slot: slot(team, kind, 0), card: 0, stats: hp(3) },
            ModifyCardAction::Remove { slot: slot(team, kind, 1) },
            ModifyCardAction::Push { slot: slot(team, kind, 1), card: 1, stats: hp(2) },
            ModifyCardAction::Remove { slot: slot(team, kind, 3) },
            ModifyCardAction::Push { slot: slot(team, kind, 2), card: 3, stats: hp(1) },
            ModifyCardAction::Remove { slot: slot(team, kind, 4) },
        ]
    );
}

#[test]
fn stack_cards_leaves_a_packed_row_alone() {
    let mut controller = GameController::new(catalog(), 4);
    let team = Team::Red;
    let kind = CardSlotType::Hand;
    controller.push_card_at(slot(team, kind, 0), 0, hp(3));
    controller.push_card_at(slot(team, kind, 1), 1, hp(2));
    controller.take_card_modifications();
    controller.stack_cards(team, kind);
    assert_eq!(
        controller.cards_in_row(team, kind),
        vec![Some((0, hp(3))), Some((1, hp(2))), None, None]
    );
    assert!(controller.take_card_modifications().is_empty());
}

#[test]
fn stack_cards_yields_a_contiguous_prefix() {
    for pattern in 0u32..32 {
        let mut controller = GameController::new(catalog(), 5);
        let team = Team::Red;
        let kind = CardSlotType::Play;
        let mut expected = Vec::new();
        for id in 0..5usize {
            if pattern & (1 << id) != 0 {
                controller.push_card_at(slot(team, kind, id), id % 4, hp(id as u32 + 1));
                expected.push(Some((id % 4, hp(id as u32 + 1))));
            }
        }
        let count = expected.len();
        expected.resize(5, None);
        controller.stack_cards(team, kind);
        let row = controller.cards_in_row(team, kind);
        assert_eq!(row, expected);
        for (id, cell) in row.iter().enumerate() {
            assert_eq!(cell.is_some(), id < count);
        }
        assert_eq!(controller.get_first_open_slot(team, kind), if count < 5 { Some(count) } else { None });
    }
}

#[test]
fn damage_card_lowers_hit_points() {
    let mut controller = GameController::new(catalog(), 3);
    let target = slot(Team::Red, CardSlotType::Play, 0);
    controller.push_card_at(target, 0, hp(3));
    controller.take_card_modifications();
    controller.damage_card(&target, 2);
    assert_eq!(controller.get_card(&target), Some((0, hp(1))));
    assert_eq!(
        controller.take_card_modifications(),
        vec![ModifyCardAction::Push { slot: target, card: 0, stats: hp(1) }]
    );
}

#[test]
fn damage_card_removes_a_card_at_zero() {
    let mut controller = GameController::new(catalog(), 3);
    let target = slot(Team::Blue, CardSlotType::Play, 2);
    controller.push_card_at(target, 1, hp(2));
    controller.take_card_modifications();
    controller.damage_card(&target, 2);
    assert_eq!(controller.get_card(&target), None);
    assert_eq!(controller.take_card_modifications(), vec![ModifyCardAction::Remove { slot: target }]);
}

#[test]
fn damage_card_saturates() {
    let mut controller = GameController::new(catalog(), 3);
    let target = slot(Team::Blue, CardSlotType::Play, 2);
    controller.push_card_at(target, 1, hp(2));
    controller.damage_card(&target, u32::MAX);
    assert_eq!(controller.get_card(&target), None);
}

#[test]
fn damage_card_spares_cards_without_hit_points() {
    let mut controller = GameController::new(catalog(), 3);
    let target = slot(Team::Red, CardSlotType::Play, 1);
    controller.push_card_at(target, 2, CardStats { hp: None });
    controller.take_card_modifications();
    controller.damage_card(&target, 50);
    assert_eq!(controller.get_card(&target), Some((2, CardStats { hp: None })));
    controller.damage_card(&slot(Team::Red, CardSlotType::Play, 0), 50);
    assert_eq!(controller.get_card(&slot(Team::Red, CardSlotType::Play, 0)), None);
    assert!(controller.take_card_modifications().is_empty());
}

#[test]
fn damage_of_zero_keeps_the_card() {
    let mut controller = GameController::new(catalog(), 3);
    let target = slot(Team::Red, CardSlotType::Play, 1);
    controller.push_card_at(target, 0, hp(3));
    controller.take_card_modifications();
    controller.damage_card(&target, 0);
    assert_eq!(controller.get_card(&target), Some((0, hp(3))));
    assert_eq!(
        controller.take_card_modifications(),
        vec![ModifyCardAction::Push { slot: target, card: 0, stats: hp(3) }]
    );
}

#[test]
fn damage_never_raises_hit_points() {
    for start in 1u32..6 {
        for damage in 0u32..8 {
            let mut controller = GameController::new(catalog(), 2);
            let target = slot(Team::Red, CardSlotType::Play, 0);
            controller.push_card_at(target, 0, hp(start));
            controller.damage_card(&target, damage);
            match controller.get_card(&target) {
                Some((card, stats)) => {
                    assert_eq!(card, 0);
                    assert_eq!(stats.hp, Some(start - damage));
                    assert!(start > damage);
                }
                None => assert!(damage >= start),
            }
        }
    }
}

#[test]
fn team_health_is_set_per_team() {
    let mut controller = GameController::new(catalog(), 3);
    controller.set_team_health(Team::Blue, 42);
    assert_eq!(controller.get_team_health(Team::Blue), 42);
    assert_eq!(controller.get_team_health(Team::Red), 100);
    assert!(controller.team_health_updated());
    controller.hurt_team(Team::Red, 30);
    assert_eq!(controller.get_team_health(Team::Red), 70);
    controller.hurt_team(Team::Red, 71);
    assert_eq!(controller.get_team_health(Team::Red), 0);
    assert_eq!(controller.get_team_health(Team::Blue), 42);
}

#[test]
fn queue_is_drained_once() {
    let mut controller = GameController::new(catalog(), 3);
    controller.push_card_at(slot(Team::Red, CardSlotType::Hand, 0), 0, hp(3));
    assert_eq!(controller.take_card_modifications().len(), 1);
    assert!(controller.take_card_modifications().is_empty());
    assert_eq!(controller.get_card(&slot(Team::Red, CardSlotType::Hand, 0)), Some((0, hp(3))));
}

#[test]
fn end_of_tick_compacts_the_play_rows() {
    let mut controller = GameController::new(catalog(), 3);
    let red = slot(Team::Red, CardSlotType::Play, 2);
    let blue = slot(Team::Blue, CardSlotType::Play, 1);
    let hand = slot(Team::Red, CardSlotType::Hand, 1);
    controller.push_card_at(red, 0, hp(3));
    controller.push_card_at(blue, 1, hp(2));
    controller.push_card_at(hand, 3, hp(1));
    let shown = controller.apply_card_modifications();
    assert_eq!(
        shown,
        vec![
            ModifyCardAction::Push { slot: red, card: 0, stats: hp(3) },
            ModifyCardAction::Push { slot: blue, card: 1, stats: hp(2) },
            ModifyCardAction::Push { slot: hand, card: 3, stats: hp(1) },
        ]
    );
    assert_eq!(controller.cards_in_row(Team::Red, CardSlotType::Play), vec![Some((0, hp(3))), None, None]);
    assert_eq!(controller.cards_in_row(Team::Blue, CardSlotType::Play), vec![Some((1, hp(2))), None, None]);
    assert_eq!(controller.cards_in_row(Team::Red, CardSlotType::Hand), vec![None, Some((3, hp(1))), None]);
    assert_eq!(
        controller.take_card_modifications(),
        vec![
            ModifyCardAction::Push { slot: slot(Team::Red, CardSlotType::Play, 0), card: 0, stats: hp(3) },
            ModifyCardAction::Remove { slot: red },
            ModifyCardAction::Push { slot: slot(Team::Blue, CardSlotType::Play, 0), card: 1, stats: hp(2) },
            ModifyCardAction::Remove { slot: blue },
        ]
    );
}

#[test]
fn combat_pairs_slots_by_index() {
    let mut controller = GameController::new(catalog(), 3);
    // pair 0: both present; pair 1: only Blue; pair 2: only Red
    controller.push_card_at(slot(Team::Red, CardSlotType::Play, 0), 0, hp(3));
    controller.push_card_at(slot(Team::Blue, CardSlotType::Play, 0), 1, hp(2));
    controller.push_card_at(slot(Team::Blue, CardSlotType::Play, 1), 0, hp(3));
    controller.push_card_at(slot(Team::Red, CardSlotType::Play, 2), 1, hp(2));
    controller.take_card_modifications();

    controller.resolve_combat(Team::Red);

    // knight (2 damage) against wolf (1 damage, 2 hp)
    assert_eq!(controller.get_card(&slot(Team::Red, CardSlotType::Play, 0)), Some((0, hp(2))));
    assert_eq!(controller.get_card(&slot(Team::Blue, CardSlotType::Play, 0)), None);
    // Red has no card in slot 1: Red takes the knight's 2
    assert_eq!(controller.get_team_health(Team::Red), 98);
    // Blue has no card in slot 2: Blue takes the wolf's 1
    assert_eq!(controller.get_team_health(Team::Blue), 99);
    assert_eq!(controller.get_card(&slot(Team::Blue, CardSlotType::Play, 1)), Some((0, hp(3))));
    assert_eq!(controller.get_card(&slot(Team::Red, CardSlotType::Play, 2)), Some((1, hp(2))));
    assert_eq!(
        controller.take_card_modifications(),
        vec![
            ModifyCardAction::Remove { slot: slot(Team::Blue, CardSlotType::Play, 0) },
            ModifyCardAction::Push { slot: slot(Team::Red, CardSlotType::Play, 0), card: 0, stats: hp(2) },
        ]
    );
}

#[test]
fn combat_health_does_not_fall_below_zero() {
    let mut controller = GameController::new(catalog(), 2);
    controller.set_team_health(Team::Blue, 3);
    controller.push_card_at(slot(Team::Red, CardSlotType::Play, 0), 0, hp(3));
    controller.push_card_at(slot(Team::Red, CardSlotType::Play, 1), 0, hp(3));
    controller.resolve_combat(Team::Blue);
    assert_eq!(controller.get_team_health(Team::Blue), 0);
    assert_eq!(controller.get_team_health(Team::Red), 100);
}

#[test]
fn first_open_slot_from_a_start() {
    let mut controller = GameController::new(catalog(), 4);
    let team = Team::Blue;
    let kind = CardSlotType::Hand;
    controller.push_card_at(slot(team, kind, 1), 0, hp(3));
    controller.push_card_at(slot(team, kind, 3), 0, hp(3));
    assert_eq!(controller.get_first_open_slot_from(team, kind, 0), Some(0));
    assert_eq!(controller.get_first_open_slot_from(team, kind, 1), Some(2));
    assert_eq!(controller.get_first_open_slot_from(team, kind, 2), Some(2));
    assert_eq!(controller.get_first_open_slot_from(team, kind, 3), None);
    assert_eq!(controller.get_first_open_slot_from(team, kind, 4), None);
    assert_eq!(controller.get_first_open_slot_from(team, kind, usize::MAX), None);
    assert_eq!(controller.get_first_open_slot(team, kind), Some(0));
}
