//! Rows of slots as sequences: where the first open slot lies, what a row
//! looks like after a card is pushed into it, and after it is compacted.

use crate::cards::CardId;
use crate::game_state::CardStats;
use vstd::prelude::*;

verus! {

/// What a slot holds: a card with its state, or nothing.
pub type Occupant = Option<(CardId, CardStats)>;

/// Whether a slot holds a card.
pub open spec fn occupied(cell: Occupant) -> bool {
    cell is Some
}

/// The lowest index at or after `start` whose slot is empty, or the row's
/// length if every slot from `start` on holds a card.
pub open spec fn first_open_from(row: Seq<Occupant>, start: int) -> int
    decreases row.len() - start,
{
    if 0 <= start < row.len() && row[start] is Some {
        first_open_from(row, start + 1)
    } else {
        start
    }
}

/// The lowest empty index of the row, if it has one.
pub open spec fn first_open(row: Seq<Occupant>) -> Option<int> {
    if first_open_from(row, 0) < row.len() {
        Some(first_open_from(row, 0))
    } else {
        None
    }
}

/// Whether every slot of the row holds a card.
pub open spec fn full(row: Seq<Occupant>) -> bool {
    forall|i: int| 0 <= i < row.len() ==> (#[trigger] row[i]) is Some
}

/// The cards of the row in index order, without the empty slots.
pub open spec fn occupants(row: Seq<Occupant>) -> Seq<Occupant> {
    row.filter(|cell: Occupant| occupied(cell))
}

/// Whether exactly the first `count` slots of the row hold a card.
pub open spec fn packed_to(row: Seq<Occupant>, count: int) -> bool {
    &&& 0 <= count <= row.len()
    &&& forall|i: int| 0 <= i < row.len() ==> ((#[trigger] row[i]) is Some <==> i < count)
}

/// Whether the occupied slots form a prefix of the row, with no gap below
/// any card.
pub open spec fn packed(row: Seq<Occupant>) -> bool {
    exists|count: int| packed_to(row, count)
}

/// The row after `card` is pushed in at `target`: the cards from `target` up
/// to the first open slot at or after it move one slot up, and `card` takes
/// their place. Without such an open slot the row stays as it is.
pub open spec fn stack_insert(row: Seq<Occupant>, target: int, card: (CardId, CardStats)) -> Seq<
    Occupant,
> {
    let open = first_open_from(row, target);
    if 0 <= target < row.len() && open < row.len() {
        row.subrange(0, target).push(Some(card)) + row.subrange(target, open) + row.subrange(
            open + 1,
            row.len() as int,
        )
    } else {
        row
    }
}

/// A run of empty slots.
pub open spec fn blanks(count: nat) -> Seq<Occupant> {
    Seq::new(count, |i: int| None)
}

/// The row with its cards moved down to the lowest indices, in their order,
/// and the empty slots after them.
pub open spec fn compacted(row: Seq<Occupant>) -> Seq<Occupant> {
    occupants(row) + blanks((row.len() - occupants(row).len()) as nat)
}

/// `first_open_from` returns an index between `start` and the row's length;
/// the slots before it, from `start` on, hold cards, and the slot at it is
/// empty unless it is the row's length.
pub proof fn lemma_first_open_from(row: Seq<Occupant>, start: int)
    requires
        0 <= start <= row.len(),
    ensures
        start <= first_open_from(row, start) <= row.len(),
        forall|i: int| start <= i < first_open_from(row, start) ==> (#[trigger] row[i]) is Some,
        first_open_from(row, start) < row.len() ==> row[first_open_from(row, start)] is None,
    decreases row.len() - start,
{
    if start < row.len() && row[start] is Some {
        lemma_first_open_from(row, start + 1);
    }
}

/// An index that the slots from `start` lead up to without a gap, and that is
/// empty or the row's end, is the one `first_open_from` returns.
pub proof fn lemma_first_open_from_is(row: Seq<Occupant>, start: int, open: int)
    requires
        0 <= start <= open <= row.len(),
        forall|i: int| start <= i < open ==> (#[trigger] row[i]) is Some,
        open < row.len() ==> row[open] is None,
    ensures
        first_open_from(row, start) == open,
    decreases open - start,
{
    if start < open {
        lemma_first_open_from_is(row, start + 1, open);
    }
}

/// A row is full exactly when it has no first open slot.
pub proof fn lemma_full_iff_no_first_open(row: Seq<Occupant>)
    ensures
        full(row) <==> first_open(row) is None,
{
    lemma_first_open_from(row, 0);
    if full(row) {
        lemma_first_open_from_is(row, 0, row.len() as int);
    }
}

/// The cards of a row number no more than its slots.
pub proof fn lemma_occupants_len(row: Seq<Occupant>)
    ensures
        occupants(row).len() <= row.len(),
        forall|i: int| 0 <= i < occupants(row).len() ==> (#[trigger] occupants(row)[i]) is Some,
{
    let pred = |cell: Occupant| occupied(cell);
    row.lemma_filter_len(pred);
    assert forall|i: int| 0 <= i < occupants(row).len() implies (#[trigger] occupants(
        row,
    )[i]) is Some by {
        row.lemma_filter_pred(pred, i);
    }
}

/// Compaction keeps the row's length and its cards in their order, and
/// leaves the occupied slots as a prefix of the row.
pub proof fn lemma_compacted_is_packed(row: Seq<Occupant>)
    ensures
        compacted(row).len() == row.len(),
        occupants(compacted(row)) == occupants(row),
        packed_to(compacted(row), occupants(row).len() as int),
        packed(compacted(row)),
{
    let pred = |cell: Occupant| occupied(cell);
    let cards = occupants(row);
    let rest = blanks((row.len() - cards.len()) as nat);
    lemma_occupants_len(row);
    Seq::filter_distributes_over_add(cards, rest, pred);
    lemma_filter_keeps_cards(cards);
    rest.lemma_all_neg_filter_empty(pred);
    assert(cards + Seq::<Occupant>::empty() =~= cards);
    assert(packed_to(compacted(row), cards.len() as int));
}

/// Filtering a sequence of cards for cards changes nothing.
proof fn lemma_filter_keeps_cards(cards: Seq<Occupant>)
    requires
        forall|i: int| 0 <= i < cards.len() ==> (#[trigger] cards[i]) is Some,
    ensures
        occupants(cards) == cards,
    decreases cards.len(),
{
    let pred = |cell: Occupant| occupied(cell);
    reveal(Seq::filter);
    if cards.len() > 0 {
        lemma_filter_keeps_cards(cards.drop_last());
        assert(cards.drop_last().push(cards.last()) =~= cards);
    }
}

/// After a push into the row every slot from the target up to the first open
/// slot holds a card, the pushed card lies at the target, the cards that
/// were there follow it in their order, and the other slots keep what they
/// held. Without an open slot at or after the target nothing changes.
pub proof fn lemma_stack_insert(row: Seq<Occupant>, target: int, card: (CardId, CardStats))
    requires
        0 <= target < row.len(),
    ensures
        stack_insert(row, target, card).len() == row.len(),
        first_open_from(row, target) >= row.len() ==> stack_insert(row, target, card) == row,
        first_open_from(row, target) < row.len() ==> ({
            let open = first_open_from(row, target);
            let after = stack_insert(row, target, card);
            &&& after[target] == Some(card)
            &&& forall|i: int| target <= i <= open ==> (#[trigger] after[i]) is Some
            &&& forall|i: int| target < i <= open ==> #[trigger] after[i] == row[i - 1]
            &&& forall|i: int|
                0 <= i < row.len() && !(target <= i <= open) ==> #[trigger] after[i] == row[i]
        }),
{
    lemma_first_open_from(row, target);
}

/// A row during an insertion at `target` that has reached `reached`: the
/// slots between the two hold what they will hold in the end, the others
/// what they held at first.
pub open spec fn partly_inserted(
    row: Seq<Occupant>,
    after: Seq<Occupant>,
    target: int,
    reached: int,
) -> Seq<Occupant> {
    Seq::new(
        row.len(),
        |at: int|
            if target <= at < reached {
                after[at]
            } else {
                row[at]
            },
    )
}

/// A row during a compaction that has reached `reached`: the cards of the
/// slots before it, then empty slots up to it, then the rest of the row as
/// it was.
#[verifier::opaque]
pub open spec fn partly_compacted(row: Seq<Occupant>, reached: int) -> Seq<Occupant> {
    let cards = occupants(row.take(reached));
    cards + blanks((reached - cards.len()) as nat) + row.skip(reached)
}

/// A compaction that has reached nothing yet has left the row as it was.
pub proof fn lemma_partly_compacted_start(row: Seq<Occupant>)
    ensures
        partly_compacted(row, 0) == row,
        occupants(row.take(0)).len() == 0,
{
    reveal(partly_compacted);
    reveal_with_fuel(Seq::filter, 1);
    assert(row.take(0) =~= Seq::<Occupant>::empty());
    assert(occupants(row.take(0)) =~= Seq::<Occupant>::empty());
    assert(partly_compacted(row, 0) =~= row);
}

/// A compaction that has reached the end of the row has compacted it.
pub proof fn lemma_partly_compacted_end(row: Seq<Occupant>)
    ensures
        partly_compacted(row, row.len() as int) == compacted(row),
{
    reveal(partly_compacted);
    lemma_occupants_len(row);
    assert(row.take(row.len() as int) =~= row);
    assert(partly_compacted(row, row.len() as int) =~= compacted(row));
}

/// What one step of a compaction does to the row: a card with an empty slot
/// below it moves to the lowest one; anything else stays.
pub proof fn lemma_partly_compacted_step(row: Seq<Occupant>, reached: int)
    requires
        0 <= reached < row.len(),
    ensures
        occupants(row.take(reached)).len() <= reached,
        partly_compacted(row, reached).len() == row.len(),
        partly_compacted(row, reached)[reached] == row[reached],
        occupants(row.take(reached + 1)).len() == occupants(row.take(reached)).len() + (if row[reached]
            is Some {
            1int
        } else {
            0int
        }),
        partly_compacted(row, reached + 1) == ({
            let to = occupants(row.take(reached)).len() as int;
            if row[reached] is Some && to < reached {
                partly_compacted(row, reached).update(to, row[reached]).update(reached, None)
            } else {
                partly_compacted(row, reached)
            }
        }),
{
    reveal(partly_compacted);
    let cards = occupants(row.take(reached));
    lemma_occupants_len(row.take(reached));
    row.lemma_take_succ_push(reached);
    row.take(reached).lemma_filter_push(row[reached], |cell: Occupant| occupied(cell));
    let to = cards.len() as int;
    let current = partly_compacted(row, reached);
    let next = partly_compacted(row, reached + 1);
    if row[reached] is Some && to < reached {
        assert(next =~= current.update(to, row[reached]).update(reached, None));
    } else {
        assert(next =~= current);
    }
}

} // verus!
