//! The move legality rules: pure predicates deciding whether a card or a
//! run of cards may be placed on a foundation or tableau pile.

use vstd::prelude::*;

use crate::card::Card;
use crate::card::Suit;
use crate::card::is_red_suit;
use crate::card::spec_is_red;

verus! {

/// `upper` may rest directly on `lower` in a tableau pile: one rank
/// lower and of the opposite colour.
pub open spec fn tableau_stacks_on(upper: Card, lower: Card) -> bool {
    &&& upper.rank + 1 == lower.rank
    &&& spec_is_red(upper.suit) != spec_is_red(lower.suit)
}

/// A card may be played on a foundation pile exactly when the pile is
/// empty and the card is an ace, or the card follows the pile's top card
/// in the same suit.
pub open spec fn spec_can_place_on_foundation(card: Card, pile: Seq<Card>) -> bool {
    if pile.len() == 0 {
        card.rank == 1
    } else {
        card.suit == pile.last().suit && card.rank == pile.last().rank + 1
    }
}

/// A card may be played on a face-up tableau card exactly when it is one
/// rank lower and of the opposite colour.
pub open spec fn spec_can_place_on_tableau_card(card: Card, target: Card) -> bool {
    target.face_up && tableau_stacks_on(card, target)
}

/// Only a king may be placed on an empty tableau pile.
pub open spec fn spec_can_place_on_empty_tableau(card: Card) -> bool {
    card.rank == 13
}

/// The predicate the move executor applies to a slice of a tableau pile:
/// the cards, listed from the bottom of the run to its top, are all face
/// up and each card rests legally on the one below it. Unlike the
/// order-free `spec_stack_sequence_ok`, this reads the pile order and the
/// faces. A single card or an empty sequence is trivially a valid run.
pub open spec fn valid_run(run: Seq<Card>) -> bool {
    &&& forall|i: int| 0 <= i < run.len() ==> (#[trigger] run[i]).face_up
    &&& forall|i: int| 0 <= i < run.len() - 1 ==> tableau_stacks_on(#[trigger] run[i + 1], run[i])
}

/// One demand `spec_stack_sequence_ok` makes of a pair of positions:
/// distinct positions hold distinct ranks, no two ranks lie further apart
/// than the sequence is long, and cards of neighbouring ranks differ in
/// colour.
pub open spec fn stack_pair_ok(s: Seq<Card>, a: int, b: int) -> bool {
    &&& a != b ==> s[a].rank != s[b].rank
    &&& s[a].rank - s[b].rank < s.len()
    &&& s[a].rank == s[b].rank + 1 ==> spec_is_red(s[a].suit) != spec_is_red(s[b].suit)
}

/// The cards, sorted by rank descending, would step down by exactly one
/// per card with alternating colours; a single card or an empty sequence
/// passes trivially. The test looks only at which cards are present —
/// never at the order they are given in, nor at their faces: the ranks
/// are pairwise distinct, they span exactly the sequence's length, and
/// neighbouring ranks alternate in colour. A repeated rank fails the
/// distinctness demand.
pub open spec fn spec_stack_sequence_ok(s: Seq<Card>) -> bool {
    s.len() <= 1 || forall|a: int, b: int|
        0 <= a < s.len() && 0 <= b < s.len() ==> #[trigger] stack_pair_ok(s, a, b)
}

/// A full stack begins with a king, ends with an ace, and its cards sort
/// into one descending, colour-alternating sequence.
pub open spec fn spec_has_complete_stack(cards: Seq<Card>) -> bool {
    &&& cards.len() > 0
    &&& cards[0].rank == 13
    &&& cards.last().rank == 1
    &&& spec_stack_sequence_ok(cards)
}

/// Returns whether a card of rank `card_value` may rest on a card of rank
/// `target_card_value`: it must be exactly one rank lower.
pub fn can_place_on_card(card_value: u8, target_card_value: u8) -> (r: bool)
    ensures
        r == (card_value + 1 == target_card_value),
{
    target_card_value >= 1 && card_value == target_card_value - 1
}

/// Returns whether a card may be placed on a tableau card of the given
/// rank and suit: one rank lower and of the opposite colour.
pub fn can_place_on_tableau(card_value: u8, card_suit: Suit, target_value: u8, target_suit: Suit) -> (r: bool)
    ensures
        r == (card_value + 1 == target_value && spec_is_red(card_suit) != spec_is_red(target_suit)),
{
    can_place_on_card(card_value, target_value) && is_red_suit(card_suit) != is_red_suit(target_suit)
}

/// Returns whether `selected_card` may be placed on `target_card` in a
/// tableau pile; the target must also be face up.
pub fn can_place_on_tableau_card(selected_card: &Card, target_card: &Card) -> (r: bool)
    ensures
        r == spec_can_place_on_tableau_card(*selected_card, *target_card),
{
    if !target_card.face_up {
        return false;
    }
    can_place_on_tableau(selected_card.rank, selected_card.suit, target_card.rank, target_card.suit)
}

/// Returns whether `card` may be played on the given foundation pile:
/// an ace on an empty pile, or the same-suit successor of the top card.
pub fn can_place_on_foundation(card: &Card, foundation_pile: &Vec<Card>) -> (r: bool)
    ensures
        r == spec_can_place_on_foundation(*card, foundation_pile@),
{
    let n = foundation_pile.len();
    if n == 0 {
        card.rank == 1
    } else {
        let top = foundation_pile[n - 1];
        card.suit == top.suit && top.rank <= 254 && card.rank == top.rank + 1
    }
}

/// Returns whether `card` may start an empty tableau pile: only kings may.
pub fn can_place_on_empty_tableau(card: &Card) -> (r: bool)
    ensures
        r == spec_can_place_on_empty_tableau(*card),
{
    card.rank == 13
}

/// Returns whether the cards, taken in any order, would sort by rank
/// into a strictly descending, colour-alternating sequence. The input
/// order and the cards' faces never affect the result; a repeated rank
/// fails.
pub fn is_valid_stack_sequence(cards: &Vec<Card>) -> (r: bool)
    ensures
        r == spec_stack_sequence_ok(cards@),
{
    let n = cards.len();
    if n <= 1 {
        return true;
    }
    let mut i: usize = 0;
    while i < n
        invariant
            n == cards@.len(),
            2 <= n,
            i <= n,
            forall|a: int, b: int| 0 <= a < i && 0 <= b < n ==> #[trigger] stack_pair_ok(cards@, a, b),
        decreases n - i,
    {
        let ci = cards[i];
        let mut j: usize = 0;
        while j < n
            invariant
                n == cards@.len(),
                2 <= n,
                i < n,
                j <= n,
                ci == cards@[i as int],
                forall|a: int, b: int| 0 <= a < i && 0 <= b < n ==> #[trigger] stack_pair_ok(cards@, a, b),
                forall|b: int| 0 <= b < j ==> #[trigger] stack_pair_ok(cards@, i as int, b),
            decreases n - j,
        {
            let cj = cards[j];
            if i != j && ci.rank == cj.rank {
                proof {
                    assert(!stack_pair_ok(cards@, i as int, j as int));
                }
                return false;
            }
            if ci.rank >= cj.rank && (ci.rank - cj.rank) as usize >= n {
                proof {
                    assert(!stack_pair_ok(cards@, i as int, j as int));
                }
                return false;
            }
            if ci.rank as u16 == cj.rank as u16 + 1 && is_red_suit(ci.suit) == is_red_suit(cj.suit) {
                proof {
                    assert(!stack_pair_ok(cards@, i as int, j as int));
                }
                return false;
            }
            proof {
                assert(stack_pair_ok(cards@, i as int, j as int));
            }
            j += 1;
        }
        i += 1;
    }
    true
}

/// Checks the run the executor is about to carry: the cards, listed from
/// the bottom of the run to its top, must all be face up with each card
/// resting legally on the one below it.
pub(crate) fn is_face_up_run(cards: &Vec<Card>) -> (r: bool)
    ensures
        r == valid_run(cards@),
{
    let n = cards.len();
    let mut i: usize = 0;
    while i < n
        invariant
            n == cards@.len(),
            i <= n,
            forall|j: int| 0 <= j < i ==> (#[trigger] cards@[j]).face_up,
            forall|j: int| 0 <= j < i && j < n - 1 ==> tableau_stacks_on(#[trigger] cards@[j + 1], cards@[j]),
        decreases n - i,
    {
        let lower = cards[i];
        if !lower.face_up {
            return false;
        }
        if i + 1 < n {
            let upper = cards[i + 1];
            if !(upper.rank as u16 + 1 == lower.rank as u16
                && is_red_suit(upper.suit) != is_red_suit(lower.suit)) {
                return false;
            }
        }
        i += 1;
    }
    true
}

/// Returns whether the cards form a complete stack: the first card given
/// is a king, the last an ace, and the cards sort into one descending,
/// colour-alternating sequence.
pub fn has_complete_stack(cards: &Vec<Card>) -> (r: bool)
    ensures
        r == spec_has_complete_stack(cards@),
{
    if cards.len() == 0 {
        return false;
    }
    if cards[0].rank != 13 {
        return false;
    }
    if cards[cards.len() - 1].rank != 1 {
        return false;
    }
    is_valid_stack_sequence(cards)
}

} // verus!
