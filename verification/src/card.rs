//! Cards: suits, ranks and the face-up flag.

use vstd::prelude::*;

verus! {

/// One of the four French suits. Hearts and diamonds are red,
/// clubs and spades are black.
#[derive(Clone, Copy, PartialEq, Eq, Structural, Debug)]
pub enum Suit {
    Hearts,
    Diamonds,
    Clubs,
    Spades,
}

/// A playing card. `rank` runs from 1 (ace) to 13 (king). The suit and
/// rank of a card never change; only `face_up` does as the game evolves.
#[derive(Clone, Copy, PartialEq, Eq, Structural, Debug)]
pub struct Card {
    pub suit: Suit,
    pub rank: u8,
    pub face_up: bool,
}

/// Numbers the suits 0 through 3; used to key the foundation piles
/// and to give every card a unique small identifier.
pub open spec fn suit_index(s: Suit) -> int {
    match s {
        Suit::Hearts => 0,
        Suit::Diamonds => 1,
        Suit::Clubs => 2,
        Suit::Spades => 3,
    }
}

/// The suit with the given index; inverse of `suit_index` on 0..4.
pub open spec fn suit_of_index(i: int) -> Suit {
    if i == 0 {
        Suit::Hearts
    } else if i == 1 {
        Suit::Diamonds
    } else if i == 2 {
        Suit::Clubs
    } else {
        Suit::Spades
    }
}

/// Whether the suit is red (hearts or diamonds).
pub open spec fn spec_is_red(s: Suit) -> bool {
    s == Suit::Hearts || s == Suit::Diamonds
}

/// A card is well formed when its rank lies between ace (1) and king (13).
pub open spec fn card_ok(c: Card) -> bool {
    1 <= c.rank <= 13
}

/// The identity of a card irrespective of its face: a number in 0..52,
/// unique per (suit, rank) pair.
pub open spec fn card_ident(c: Card) -> int {
    suit_index(c.suit) * 13 + c.rank - 1
}

/// The same card turned face up.
pub open spec fn face_up(c: Card) -> Card {
    Card { suit: c.suit, rank: c.rank, face_up: true }
}

/// The same card turned face down.
pub open spec fn face_down(c: Card) -> Card {
    Card { suit: c.suit, rank: c.rank, face_up: false }
}

/// Returns whether the suit is red; hearts and diamonds are red,
/// clubs and spades are black.
pub fn is_red_suit(suit: Suit) -> (r: bool)
    ensures
        r == spec_is_red(suit),
{
    match suit {
        Suit::Hearts => true,
        Suit::Diamonds => true,
        Suit::Clubs => false,
        Suit::Spades => false,
    }
}

/// The label shown on a card of the given rank: "A" for the ace,
/// "J", "Q", "K" for the face cards, and the digits in between.
pub open spec fn spec_display_value(value: u8) -> Seq<char> {
    if value == 1 {
        "A"@
    } else if value == 2 {
        "2"@
    } else if value == 3 {
        "3"@
    } else if value == 4 {
        "4"@
    } else if value == 5 {
        "5"@
    } else if value == 6 {
        "6"@
    } else if value == 7 {
        "7"@
    } else if value == 8 {
        "8"@
    } else if value == 9 {
        "9"@
    } else if value == 10 {
        "10"@
    } else if value == 11 {
        "J"@
    } else if value == 12 {
        "Q"@
    } else {
        "K"@
    }
}

/// Returns the display label of a rank.
pub fn get_card_display_value(value: u8) -> (r: String)
    requires
        1 <= value <= 13,
    ensures
        r@ == spec_display_value(value),
{
    proof {
        broadcast use vstd::string::to_string_from_display_ensures_for_str;
    }
    let s: &str = match value {
        1 => "A",
        2 => "2",
        3 => "3",
        4 => "4",
        5 => "5",
        6 => "6",
        7 => "7",
        8 => "8",
        9 => "9",
        10 => "10",
        11 => "J",
        12 => "Q",
        _ => "K",
    };
    s.to_string()
}

} // verus!
