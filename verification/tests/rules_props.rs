use klondike::card::Card;
use klondike::card::Suit;
use klondike::card::get_card_display_value;
use klondike::card::is_red_suit;
use klondike::deal::create_deck;
use klondike::rules::can_place_on_card;
use klondike::rules::can_place_on_empty_tableau;
use klondike::rules::can_place_on_foundation;
use klondike::rules::can_place_on_tableau;
use klondike::rules::can_place_on_tableau_card;
use klondike::rules::has_complete_stack;
use klondike::rules::is_valid_stack_sequence;

fn card(suit: Suit, rank: u8, face_up: bool) -> Card {
    Card { suit, rank, face_up }
}

#[test]
fn display_values() {
    assert_eq!(get_card_display_value(1), "A");
    assert_eq!(get_card_display_value(2), "2");
    assert_eq!(get_card_display_value(9), "9");
    assert_eq!(get_card_display_value(10), "10");
    assert_eq!(get_card_display_value(11), "J");
    assert_eq!(get_card_display_value(12), "Q");
    assert_eq!(get_card_display_value(13), "K");
}

#[test]
fn suit_colors() {
    assert!(is_red_suit(Suit::Hearts));
    assert!(is_red_suit(Suit::Diamonds));
    assert!(!is_red_suit(Suit::Clubs));
    assert!(!is_red_suit(Suit::Spades));
}

#[test]
fn place_on_card_needs_one_rank_lower() {
    assert!(can_place_on_card(6, 7));
    assert!(!can_place_on_card(7, 7));
    assert!(!can_place_on_card(8, 7));
    assert!(!can_place_on_card(6, 0));
    assert!(can_place_on_card(12, 13));
}

#[test]
fn tableau_placement_red_six_on_black_seven() {
    assert!(can_place_on_tableau(6, Suit::Hearts, 7, Suit::Spades));
    assert!(can_place_on_tableau(6, Suit::Diamonds, 7, Suit::Clubs));
    assert!(!can_place_on_tableau(6, Suit::Clubs, 7, Suit::Spades));
    assert!(!can_place_on_tableau(5, Suit::Hearts, 7, Suit::Spades));
}

#[test]
fn tableau_card_target_must_be_face_up() {
    let six = card(Suit::Hearts, 6, true);
    let seven_up = card(Suit::Spades, 7, true);
    let seven_down = card(Suit::Spades, 7, false);
    assert!(can_place_on_tableau_card(&six, &seven_up));
    assert!(!can_place_on_tableau_card(&six, &seven_down));
}

#[test]
fn empty_foundation_takes_only_aces() {
    let empty: Vec<Card> = Vec::new();
    assert!(can_place_on_foundation(&card(Suit::Hearts, 1, true), &empty));
    assert!(!can_place_on_foundation(&card(Suit::Hearts, 2, true), &empty));
}

#[test]
fn foundation_takes_same_suit_successor() {
    let hearts_ace = vec![card(Suit::Hearts, 1, true)];
    assert!(can_place_on_foundation(&card(Suit::Hearts, 2, true), &hearts_ace));
    assert!(!can_place_on_foundation(&card(Suit::Diamonds, 2, true), &hearts_ace));
    assert!(!can_place_on_foundation(&card(Suit::Hearts, 3, true), &hearts_ace));
}

#[test]
fn only_kings_start_empty_tableaus() {
    assert!(can_place_on_empty_tableau(&card(Suit::Clubs, 13, true)));
    assert!(!can_place_on_empty_tableau(&card(Suit::Clubs, 12, true)));
}

#[test]
fn valid_stack_sequences() {
    let empty: Vec<Card> = Vec::new();
    assert!(is_valid_stack_sequence(&empty));
    assert!(is_valid_stack_sequence(&vec![card(Suit::Hearts, 9, true)]));
    // a black seven carrying a red six carrying a black five
    let run = vec![
        card(Suit::Spades, 7, true),
        card(Suit::Hearts, 6, true),
        card(Suit::Clubs, 5, true),
    ];
    assert!(is_valid_stack_sequence(&run));
    // two black cards in a row
    let same_color = vec![card(Suit::Spades, 7, true), card(Suit::Clubs, 6, true)];
    assert!(!is_valid_stack_sequence(&same_color));
    // a gap in rank
    let gap = vec![card(Suit::Spades, 7, true), card(Suit::Hearts, 5, true)];
    assert!(!is_valid_stack_sequence(&gap));
    // faces never matter here: the test sorts by rank alone
    let hidden = vec![card(Suit::Spades, 7, false), card(Suit::Hearts, 6, true)];
    assert!(is_valid_stack_sequence(&hidden));
    assert!(is_valid_stack_sequence(&vec![card(Suit::Hearts, 9, false)]));
}

#[test]
fn stack_sequence_ignores_input_order() {
    // the same cards in any order test the same: a red six and a black
    // seven sort into a valid step
    let descending = vec![card(Suit::Spades, 7, true), card(Suit::Hearts, 6, true)];
    let ascending = vec![card(Suit::Hearts, 6, true), card(Suit::Spades, 7, true)];
    assert!(is_valid_stack_sequence(&descending));
    assert!(is_valid_stack_sequence(&ascending));
    let shuffled = vec![
        card(Suit::Hearts, 6, true),
        card(Suit::Clubs, 5, true),
        card(Suit::Spades, 7, true),
    ];
    assert!(is_valid_stack_sequence(&shuffled));
}

#[test]
fn repeated_ranks_never_form_a_stack() {
    let twice = vec![card(Suit::Spades, 7, true), card(Suit::Hearts, 7, true)];
    assert!(!is_valid_stack_sequence(&twice));
    let triple = vec![
        card(Suit::Spades, 7, true),
        card(Suit::Hearts, 6, true),
        card(Suit::Diamonds, 6, true),
    ];
    assert!(!is_valid_stack_sequence(&triple));
}

#[test]
fn complete_stack_runs_king_to_ace() {
    let mut full = Vec::new();
    for rank in 0..13u8 {
        let suit = if rank % 2 == 0 { Suit::Spades } else { Suit::Hearts };
        full.push(card(suit, 13 - rank, true));
    }
    assert!(has_complete_stack(&full));
    let partial = vec![card(Suit::Spades, 13, true), card(Suit::Hearts, 12, true)];
    assert!(!has_complete_stack(&partial));
    let empty: Vec<Card> = Vec::new();
    assert!(!has_complete_stack(&empty));
}

#[test]
fn complete_stack_sorts_its_middle() {
    // king first and ace last are read in the given order; the cards in
    // between may arrive in any order
    let mut full = Vec::new();
    for rank in 0..13u8 {
        let suit = if rank % 2 == 0 { Suit::Spades } else { Suit::Hearts };
        full.push(card(suit, 13 - rank, true));
    }
    full.swap(3, 9);
    assert!(has_complete_stack(&full));
    // but a king that is not the first card given fails
    let mut rotated = full.clone();
    rotated.swap(0, 6);
    assert!(!has_complete_stack(&rotated));
}

#[test]
fn fresh_deck_has_all_52_cards() {
    let deck = create_deck();
    assert_eq!(deck.len(), 52);
    for (i, c) in deck.iter().enumerate() {
        assert!(!c.face_up);
        assert_eq!(c.rank as usize, i % 13 + 1);
    }
    assert_eq!(deck[0].suit, Suit::Hearts);
    assert_eq!(deck[13].suit, Suit::Diamonds);
    assert_eq!(deck[26].suit, Suit::Clubs);
    assert_eq!(deck[39].suit, Suit::Spades);
}
