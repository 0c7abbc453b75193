//! Card definitions and card backs, as the catalog supplies them.

use vstd::prelude::*;

verus! {

/// Identifies a card definition by its position in the catalog.
pub type CardId = usize;

/// The colors a card can carry.
#[derive(Clone, Copy, PartialEq, Eq, Debug, Hash, Structural)]
pub enum CardColor {
    Red,
    Yellow,
    Blue,
    Green,
    Purple,
    Teal,
}

/// The category of a card.
#[derive(Clone, Copy, PartialEq, Eq, Debug, Hash, Structural)]
pub enum CardType {
    Hero,
    Beast,
    Equipment,
    Food,
    Spell,
}

impl CardType {
    /// The category numbered `n`, counting the variants from zero in the
    /// order they are declared.
    pub open spec fn of_number(n: int) -> Option<CardType> {
        if n == 0 {
            Some(CardType::Hero)
        } else if n == 1 {
            Some(CardType::Beast)
        } else if n == 2 {
            Some(CardType::Equipment)
        } else if n == 3 {
            Some(CardType::Food)
        } else if n == 4 {
            Some(CardType::Spell)
        } else {
            None
        }
    }

    /// Whether cards of this category can take equipment.
    pub open spec fn is_character(self) -> bool {
        self == CardType::Hero || self == CardType::Beast
    }

    /// The category numbered `n`, if there is one.
    pub fn from_i8(n: i8) -> (card_type: Option<CardType>)
        ensures
            card_type == CardType::of_number(n as int),
    {
        match n {
            0 => Some(CardType::Hero),
            1 => Some(CardType::Beast),
            2 => Some(CardType::Equipment),
            3 => Some(CardType::Food),
            4 => Some(CardType::Spell),
            _ => None,
        }
    }
}

impl Default for CardType {
    fn default() -> (card_type: CardType)
        ensures
            card_type == CardType::Hero,
    {
        CardType::Hero
    }
}

/// A card definition. The catalog owns these; the engine only reads them.
#[derive(Clone, PartialEq, Eq, Debug)]
pub struct Card {
    pub name: String,
    pub colors: Vec<CardColor>,
    pub card_type: CardType,
    pub text: String,
    pub image: String,
    pub damage: Option<u32>,
    pub hp: Option<u32>,
}

impl Card {
    /// The damage the card deals in combat; a card without a damage value
    /// deals none.
    pub open spec fn attack(self) -> u32 {
        match self.damage {
            Some(damage) => damage,
            None => 0,
        }
    }

    /// Whether the card can be handed out by a draw: it carries fewer than
    /// three colors.
    pub open spec fn drawable(self) -> bool {
        self.colors@.len() < 3
    }
}

/// What the back of a card pile shows: the category of the next card, or the
/// discard pile.
#[derive(Clone, Copy, PartialEq, Eq, Debug, Structural)]
pub enum CardBackType {
    CardType(CardType),
    Discard,
}

/// The picture for one kind of card back.
#[derive(Clone, PartialEq, Eq, Debug)]
pub struct CardBack {
    pub card_type: CardBackType,
    pub image: String,
}

/// The position of the first card back of kind `back_type`, if the
/// collection holds one.
pub fn get_card_back_image(card_backs: &Vec<CardBack>, back_type: CardBackType) -> (found: Option<
    usize,
>)
    ensures
        (match found {
            Some(at) => at < card_backs@.len() && card_backs@[at as int].card_type == back_type
                && forall|i: int| 0 <= i < at ==> card_backs@[i].card_type != back_type,
            None => forall|i: int|
                0 <= i < card_backs@.len() ==> card_backs@[i].card_type != back_type,
        }),
{
    let mut at: usize = 0;
    while at < card_backs.len()
        invariant
            at <= card_backs@.len(),
            forall|i: int| 0 <= i < at ==> card_backs@[i].card_type != back_type,
        decreases card_backs@.len() - at,
    {
        if card_backs[at].card_type == back_type {
            return Some(at);
        }
        at += 1;
    }
    None
}

} // verus!
