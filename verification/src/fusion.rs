//! Fusion: when two cards combine, and which card of the catalog they
//! become.

use crate::cards::{Card, CardColor, CardId, CardType};
use vstd::multiset::Multiset;
use vstd::prelude::*;
use vstd::seq_lib::{lemma_seq_union_to_multiset_commutative, to_multiset_build, to_multiset_len};

verus! {

/// `first` can take `second` as equipment: `first` is a hero or a beast,
/// `second` is equipment, and no color of `second` appears on `first`.
pub open spec fn can_combine(first: Card, second: Card) -> bool {
    &&& first.card_type.is_character()
    &&& second.card_type == CardType::Equipment
    &&& forall|i: int|
        0 <= i < second.colors@.len() ==> !first.colors@.contains(#[trigger] second.colors@[i])
}

/// Two cards fuse when one of them can take the other as equipment.
pub open spec fn fusable(first: Card, second: Card) -> bool {
    can_combine(first, second) || can_combine(second, first)
}

/// The category two fusing cards keep: that of the hero or beast among them.
pub open spec fn upgraded_card_type(first: Card, second: Card) -> CardType {
    if first.card_type.is_character() {
        first.card_type
    } else {
        second.card_type
    }
}

/// Whether a card has the category `card_type` and exactly the colors
/// `colors`, each as often as `colors` holds it.
pub open spec fn has_colors(card: Card, colors: Multiset<CardColor>, card_type: CardType) -> bool {
    card.card_type == card_type && card.colors@.to_multiset() == colors
}

/// The position of the first card at or after `start` that has the category
/// and the colors asked for, or the catalog's length if there is none.
pub open spec fn first_with_colors_from(
    cards: Seq<Card>,
    colors: Multiset<CardColor>,
    card_type: CardType,
    start: int,
) -> int
    decreases cards.len() - start,
{
    if 0 <= start < cards.len() && !has_colors(cards[start], colors, card_type) {
        first_with_colors_from(cards, colors, card_type, start + 1)
    } else {
        start
    }
}

/// The first card of the catalog that has the category and the colors asked
/// for, if there is one.
pub open spec fn first_with_colors(
    cards: Seq<Card>,
    colors: Multiset<CardColor>,
    card_type: CardType,
) -> Option<CardId> {
    let found = first_with_colors_from(cards, colors, card_type, 0);
    if found < cards.len() {
        Some(found as CardId)
    } else {
        None
    }
}

/// The card that `first` and `second` become: the first card of the catalog
/// with the colors of both and the category they keep. There is none if the
/// two do not fuse or the catalog has no such card.
pub open spec fn fusion(cards: Seq<Card>, first: Card, second: Card) -> Option<CardId> {
    if fusable(first, second) {
        first_with_colors(
            cards,
            (first.colors@ + second.colors@).to_multiset(),
            upgraded_card_type(first, second),
        )
    } else {
        None
    }
}

/// A position that no match lies before, and that is a match or the
/// catalog's end, is the one `first_with_colors_from` returns.
pub proof fn lemma_first_with_colors_from_is(
    cards: Seq<Card>,
    colors: Multiset<CardColor>,
    card_type: CardType,
    start: int,
    found: int,
)
    requires
        0 <= start <= found <= cards.len(),
        forall|i: int| start <= i < found ==> !has_colors(#[trigger] cards[i], colors, card_type),
        found < cards.len() ==> has_colors(cards[found], colors, card_type),
    ensures
        first_with_colors_from(cards, colors, card_type, start) == found,
    decreases found - start,
{
    if start < found {
        lemma_first_with_colors_from_is(cards, colors, card_type, start + 1, found);
    }
}

/// Fusion does not depend on which of the two cards comes first: at most one
/// of them can take the other as equipment, and either way they keep the
/// same category, merge to the same colors and become the same card.
pub proof fn lemma_fusion_symmetric(cards: Seq<Card>, first: Card, second: Card)
    ensures
        !(can_combine(first, second) && can_combine(second, first)),
        fusable(first, second) == fusable(second, first),
        fusable(first, second) ==> upgraded_card_type(first, second) == upgraded_card_type(
            second,
            first,
        ),
        (first.colors@ + second.colors@).to_multiset() == (second.colors@
            + first.colors@).to_multiset(),
        fusion(cards, first, second) == fusion(cards, second, first),
{
    lemma_seq_union_to_multiset_commutative(first.colors@, second.colors@);
}

/// How often `color` occurs among `colors`.
pub fn count_color(colors: &Vec<CardColor>, color: CardColor) -> (count: usize)
    ensures
        count == colors@.to_multiset().count(color),
{
    let mut count: usize = 0;
    let mut at: usize = 0;
    proof {
        assert(colors@.take(0) =~= Seq::<CardColor>::empty());
        to_multiset_len(colors@.take(0));
    }
    while at < colors.len()
        invariant
            at <= colors@.len(),
            count <= at,
            count == colors@.take(at as int).to_multiset().count(color),
        decreases colors@.len() - at,
    {
        proof {
            colors@.lemma_take_succ_push(at as int);
            to_multiset_build(colors@.take(at as int), colors@[at as int]);
        }
        if colors[at] == color {
            count += 1;
        }
        at += 1;
    }
    proof {
        colors@.lemma_take_len();
    }
    count
}

/// Whether two lists hold the same colors, each as often in one as in the
/// other, in whatever order.
pub fn same_colors(left: &Vec<CardColor>, right: &Vec<CardColor>) -> (same: bool)
    ensures
        same == (left@.to_multiset() == right@.to_multiset()),
{
    let same = count_color(left, CardColor::Red) == count_color(right, CardColor::Red)
        && count_color(left, CardColor::Yellow) == count_color(right, CardColor::Yellow)
        && count_color(left, CardColor::Blue) == count_color(right, CardColor::Blue)
        && count_color(left, CardColor::Green) == count_color(right, CardColor::Green)
        && count_color(left, CardColor::Purple) == count_color(right, CardColor::Purple)
        && count_color(left, CardColor::Teal) == count_color(right, CardColor::Teal);
    proof {
        if same {
            assert forall|color: CardColor|
                left@.to_multiset().count(color) == right@.to_multiset().count(color) by {
                match color {
                    CardColor::Red => {},
                    CardColor::Yellow => {},
                    CardColor::Blue => {},
                    CardColor::Green => {},
                    CardColor::Purple => {},
                    CardColor::Teal => {},
                }
            }
            assert(left@.to_multiset() =~= right@.to_multiset());
        }
    }
    same
}

/// The colors of `first` followed by those of `second`.
pub fn merge_colors(first: &Vec<CardColor>, second: &Vec<CardColor>) -> (merged: Vec<CardColor>)
    ensures
        merged@ == first@ + second@,
{
    let mut merged: Vec<CardColor> = Vec::new();
    let mut at: usize = 0;
    while at < first.len()
        invariant
            at <= first@.len(),
            merged@ == first@.take(at as int),
        decreases first@.len() - at,
    {
        merged.push(first[at]);
        proof {
            assert(merged@ =~= first@.take(at + 1));
        }
        at += 1;
    }
    at = 0;
    while at < second.len()
        invariant
            at <= second@.len(),
            merged@ == first@ + second@.take(at as int),
        decreases second@.len() - at,
    {
        merged.push(second[at]);
        proof {
            assert(merged@ =~= first@ + second@.take(at + 1));
        }
        at += 1;
    }
    proof {
        assert(merged@ =~= first@ + second@);
    }
    merged
}

/// Whether `color` occurs among `colors`.
pub fn has_color(colors: &Vec<CardColor>, color: CardColor) -> (found: bool)
    ensures
        found == colors@.contains(color),
{
    let mut at: usize = 0;
    while at < colors.len()
        invariant
            at <= colors@.len(),
            forall|i: int| 0 <= i < at ==> colors@[i] != color,
        decreases colors@.len() - at,
    {
        if colors[at] == color {
            return true;
        }
        at += 1;
    }
    false
}

/// Whether `first_card` can take `second_card` as equipment.
pub fn cards_can_combine(first_card: &Card, second_card: &Card) -> (can: bool)
    ensures
        can == can_combine(*first_card, *second_card),
{
    if !(first_card.card_type == CardType::Hero || first_card.card_type == CardType::Beast) {
        return false;
    }
    if second_card.card_type != CardType::Equipment {
        return false;
    }
    let mut at: usize = 0;
    while at < second_card.colors.len()
        invariant
            at <= second_card.colors@.len(),
            forall|i: int|
                0 <= i < at ==> !first_card.colors@.contains(#[trigger] second_card.colors@[i]),
        decreases second_card.colors@.len() - at,
    {
        if has_color(&first_card.colors, second_card.colors[at]) {
            return false;
        }
        at += 1;
    }
    true
}

/// The category two fusing cards keep. One of the two has to be a hero or a
/// beast.
pub fn get_upgraded_card_type(first_card: &Card, second_card: &Card) -> (card_type: CardType)
    requires
        first_card.card_type.is_character() || second_card.card_type.is_character(),
    ensures
        card_type == upgraded_card_type(*first_card, *second_card),
        card_type.is_character(),
{
    if first_card.card_type == CardType::Hero || first_card.card_type == CardType::Beast {
        first_card.card_type
    } else {
        second_card.card_type
    }
}

} // verus!
