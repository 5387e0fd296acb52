use klondike::card::Card;
use klondike::card::Suit;
use klondike::deal::create_deck;
use klondike::deal::new_game;
use klondike::moves::MoveRejected;
use klondike::moves::MovingUnit;
use klondike::moves::attempt_move;
use klondike::moves::double_click_auto_move;
use klondike::moves::draw_from_stock;
use klondike::moves::is_game_won;
use klondike::moves::recycle_waste_to_stock;
use klondike::state::GameState;
use klondike::state::MoveRecord;
use klondike::state::PileId;
use klondike::undo::undo;

fn card(suit: Suit, rank: u8, face_up: bool) -> Card {
    Card { suit, rank, face_up }
}

/// Builds a game state from the given waste, foundation and tableau
/// piles; every card not named goes face down into the stock.
fn state_with(
    waste: Vec<Card>,
    foundations: [Vec<Card>; 4],
    tableaus: [Vec<Card>; 7],
) -> GameState {
    let mut used: Vec<(Suit, u8)> = Vec::new();
    for c in waste.iter() {
        used.push((c.suit, c.rank));
    }
    for p in foundations.iter() {
        for c in p.iter() {
            used.push((c.suit, c.rank));
        }
    }
    for p in tableaus.iter() {
        for c in p.iter() {
            used.push((c.suit, c.rank));
        }
    }
    let mut stock = Vec::new();
    for c in create_deck() {
        if !used.contains(&(c.suit, c.rank)) {
            stock.push(c);
        }
    }
    GameState {
        stock,
        waste,
        foundations: foundations.to_vec(),
        tableaus: tableaus.to_vec(),
        undo_log: Vec::new(),
    }
}

fn empty_piles_4() -> [Vec<Card>; 4] {
    [Vec::new(), Vec::new(), Vec::new(), Vec::new()]
}

fn empty_piles_7() -> [Vec<Card>; 7] {
    [
        Vec::new(),
        Vec::new(),
        Vec::new(),
        Vec::new(),
        Vec::new(),
        Vec::new(),
        Vec::new(),
    ]
}

/// A finished game: every card on its foundation.
fn won_state() -> GameState {
    let suits = [Suit::Hearts, Suit::Diamonds, Suit::Clubs, Suit::Spades];
    let mut foundations = empty_piles_4();
    for (f, suit) in suits.iter().enumerate() {
        for rank in 1..=13u8 {
            foundations[f].push(card(*suit, rank, true));
        }
    }
    GameState {
        stock: Vec::new(),
        waste: Vec::new(),
        foundations: foundations.to_vec(),
        tableaus: empty_piles_7().to_vec(),
        undo_log: Vec::new(),
    }
}

#[test]
fn new_game_deals_seven_piles_and_stock() {
    let state = new_game(7);
    assert_eq!(state.stock.len(), 24);
    assert_eq!(state.waste.len(), 0);
    assert_eq!(state.undo_log.len(), 0);
    for f in 0..4 {
        assert_eq!(state.foundations[f].len(), 0);
    }
    let mut seen: Vec<(Suit, u8)> = Vec::new();
    for t in 0..7 {
        assert_eq!(state.tableaus[t].len(), t + 1);
        for (k, c) in state.tableaus[t].iter().enumerate() {
            assert_eq!(c.face_up, k == t);
            assert!(!seen.contains(&(c.suit, c.rank)));
            seen.push((c.suit, c.rank));
        }
    }
    for c in state.stock.iter() {
        assert!(!c.face_up);
        assert!(!seen.contains(&(c.suit, c.rank)));
        seen.push((c.suit, c.rank));
    }
    assert_eq!(seen.len(), 52);
    assert!(!is_game_won(&state));
}

#[test]
fn new_game_is_deterministic_per_seed() {
    let a = new_game(123);
    let b = new_game(123);
    let c = new_game(124);
    assert_eq!(a.stock, b.stock);
    assert_eq!(a.tableaus, b.tableaus);
    assert!(a.stock != c.stock || a.tableaus != c.tableaus);
}

#[test]
fn draw_deals_stock_top_face_up() {
    let mut state = new_game(1);
    let top = *state.stock.last().unwrap();
    let drawn = draw_from_stock(&mut state).unwrap();
    assert_eq!(drawn.suit, top.suit);
    assert_eq!(drawn.rank, top.rank);
    assert!(drawn.face_up);
    assert_eq!(state.stock.len(), 23);
    assert_eq!(*state.waste.last().unwrap(), drawn);
}

#[test]
fn draw_on_empty_stock_recycles_in_order() {
    let mut state = new_game(9);
    let mut first_pass = Vec::new();
    for _ in 0..24 {
        first_pass.push(draw_from_stock(&mut state).unwrap());
    }
    assert_eq!(state.stock.len(), 0);
    assert_eq!(state.waste.len(), 24);
    // the draw on an empty stock recycles, dealing nothing
    assert!(draw_from_stock(&mut state).is_none());
    assert_eq!(state.stock.len(), 24);
    assert_eq!(state.waste.len(), 0);
    // the second pass repeats the first order exactly
    for i in 0..24 {
        let again = draw_from_stock(&mut state).unwrap();
        assert_eq!(again, first_pass[i]);
    }
}

#[test]
fn draw_with_both_piles_empty_is_a_no_op() {
    let mut state = won_state();
    assert!(draw_from_stock(&mut state).is_none());
    assert_eq!(state.stock.len(), 0);
    assert_eq!(state.waste.len(), 0);
    assert_eq!(state.undo_log.len(), 0);
}

#[test]
fn recycle_is_a_no_op_while_stock_remains() {
    let mut state = new_game(3);
    let stock_before = state.stock.clone();
    recycle_waste_to_stock(&mut state);
    assert_eq!(state.stock, stock_before);
    assert_eq!(state.undo_log.len(), 0);
}

#[test]
fn won_game_is_detected() {
    let state = won_state();
    assert!(is_game_won(&state));
}

#[test]
fn red_six_goes_on_black_seven() {
    let mut tableaus = empty_piles_7();
    tableaus[0] = vec![card(Suit::Spades, 7, true)];
    let mut state = state_with(vec![card(Suit::Hearts, 6, true)], empty_piles_4(), tableaus);
    let unit = MovingUnit { source: PileId::Waste, index: 0 };
    let rec = attempt_move(&mut state, unit, PileId::Tableau(0)).unwrap();
    assert!(matches!(rec, MoveRecord::Unit { count: 1, revealed: false, .. }));
    assert_eq!(state.tableaus[0], vec![
        card(Suit::Spades, 7, true),
        card(Suit::Hearts, 6, true),
    ]);
    assert_eq!(state.waste.len(), 0);
}

#[test]
fn black_six_on_black_seven_is_wrong_color() {
    let mut tableaus = empty_piles_7();
    tableaus[0] = vec![card(Suit::Spades, 7, true)];
    let mut state = state_with(vec![card(Suit::Clubs, 6, true)], empty_piles_4(), tableaus);
    let unit = MovingUnit { source: PileId::Waste, index: 0 };
    let r = attempt_move(&mut state, unit, PileId::Tableau(0));
    assert_eq!(r, Err(MoveRejected::WrongColor));
    assert_eq!(state.waste, vec![card(Suit::Clubs, 6, true)]);
}

#[test]
fn red_five_on_black_seven_is_wrong_rank() {
    let mut tableaus = empty_piles_7();
    tableaus[0] = vec![card(Suit::Spades, 7, true)];
    let mut state = state_with(vec![card(Suit::Hearts, 5, true)], empty_piles_4(), tableaus);
    let unit = MovingUnit { source: PileId::Waste, index: 0 };
    let r = attempt_move(&mut state, unit, PileId::Tableau(0));
    assert_eq!(r, Err(MoveRejected::WrongRank));
}

#[test]
fn rejected_move_never_mutates_even_when_repeated() {
    let mut tableaus = empty_piles_7();
    tableaus[0] = vec![card(Suit::Spades, 7, true)];
    let mut state = state_with(vec![card(Suit::Clubs, 6, true)], empty_piles_4(), tableaus);
    let stock_before = state.stock.clone();
    let waste_before = state.waste.clone();
    let tableaus_before = state.tableaus.clone();
    let unit = MovingUnit { source: PileId::Waste, index: 0 };
    for _ in 0..2 {
        let r = attempt_move(&mut state, unit, PileId::Tableau(0));
        assert_eq!(r, Err(MoveRejected::WrongColor));
        assert_eq!(state.stock, stock_before);
        assert_eq!(state.waste, waste_before);
        assert_eq!(state.tableaus, tableaus_before);
        assert_eq!(state.undo_log.len(), 0);
    }
}

#[test]
fn non_king_is_refused_on_empty_tableau() {
    let mut state = state_with(vec![card(Suit::Hearts, 6, true)], empty_piles_4(), empty_piles_7());
    let unit = MovingUnit { source: PileId::Waste, index: 0 };
    let r = attempt_move(&mut state, unit, PileId::Tableau(2));
    assert_eq!(r, Err(MoveRejected::EmptyPileRequiresKing));
}

#[test]
fn king_goes_on_empty_tableau() {
    let mut state = state_with(vec![card(Suit::Hearts, 13, true)], empty_piles_4(), empty_piles_7());
    let unit = MovingUnit { source: PileId::Waste, index: 0 };
    assert!(attempt_move(&mut state, unit, PileId::Tableau(2)).is_ok());
    assert_eq!(state.tableaus[2], vec![card(Suit::Hearts, 13, true)]);
}

#[test]
fn king_is_refused_on_any_non_empty_tableau() {
    let mut tableaus = empty_piles_7();
    tableaus[0] = vec![card(Suit::Spades, 1, true)];
    tableaus[1] = vec![card(Suit::Diamonds, 12, true)];
    let mut state = state_with(vec![card(Suit::Hearts, 13, true)], empty_piles_4(), tableaus);
    let unit = MovingUnit { source: PileId::Waste, index: 0 };
    assert_eq!(
        attempt_move(&mut state, unit, PileId::Tableau(0)),
        Err(MoveRejected::WrongRank)
    );
    assert_eq!(
        attempt_move(&mut state, unit, PileId::Tableau(1)),
        Err(MoveRejected::WrongRank)
    );
}

#[test]
fn two_is_refused_on_empty_foundation() {
    let mut state = state_with(vec![card(Suit::Hearts, 2, true)], empty_piles_4(), empty_piles_7());
    let unit = MovingUnit { source: PileId::Waste, index: 0 };
    let r = attempt_move(&mut state, unit, PileId::Foundation(0));
    assert_eq!(r, Err(MoveRejected::FoundationRequiresSameSuitSucc));
}

#[test]
fn ace_starts_a_foundation() {
    let mut state = state_with(vec![card(Suit::Hearts, 1, true)], empty_piles_4(), empty_piles_7());
    let unit = MovingUnit { source: PileId::Waste, index: 0 };
    assert!(attempt_move(&mut state, unit, PileId::Foundation(0)).is_ok());
    assert_eq!(state.foundations[0], vec![card(Suit::Hearts, 1, true)]);
}

#[test]
fn foundation_accepts_same_suit_successor_only() {
    let mut foundations = empty_piles_4();
    foundations[0] = vec![card(Suit::Hearts, 1, true)];
    let mut state = state_with(
        vec![card(Suit::Diamonds, 2, true)],
        foundations,
        empty_piles_7(),
    );
    let unit = MovingUnit { source: PileId::Waste, index: 0 };
    let r = attempt_move(&mut state, unit, PileId::Foundation(0));
    assert_eq!(r, Err(MoveRejected::FoundationRequiresSameSuitSucc));

    let mut foundations2 = empty_piles_4();
    foundations2[0] = vec![card(Suit::Hearts, 1, true)];
    let mut state2 = state_with(
        vec![card(Suit::Hearts, 2, true)],
        foundations2,
        empty_piles_7(),
    );
    assert!(attempt_move(&mut state2, unit, PileId::Foundation(0)).is_ok());
    assert_eq!(state2.foundations[0], vec![
        card(Suit::Hearts, 1, true),
        card(Suit::Hearts, 2, true),
    ]);
}

#[test]
fn runs_cannot_move_to_foundations() {
    let mut tableaus = empty_piles_7();
    tableaus[0] = vec![card(Suit::Spades, 2, true), card(Suit::Hearts, 1, true)];
    let mut state = state_with(Vec::new(), empty_piles_4(), tableaus);
    let unit = MovingUnit { source: PileId::Tableau(0), index: 0 };
    let r = attempt_move(&mut state, unit, PileId::Foundation(0));
    assert_eq!(r, Err(MoveRejected::FoundationSingleCardOnly));
}

#[test]
fn only_the_waste_top_may_move() {
    let mut state = state_with(
        vec![card(Suit::Hearts, 6, true), card(Suit::Clubs, 9, true)],
        empty_piles_4(),
        empty_piles_7(),
    );
    let unit = MovingUnit { source: PileId::Waste, index: 0 };
    let r = attempt_move(&mut state, unit, PileId::Tableau(0));
    assert_eq!(r, Err(MoveRejected::NotTopOfStack));
}

#[test]
fn face_down_target_is_refused() {
    let mut tableaus = empty_piles_7();
    tableaus[1] = vec![card(Suit::Spades, 5, false)];
    let mut state = state_with(vec![card(Suit::Hearts, 4, true)], empty_piles_4(), tableaus);
    let unit = MovingUnit { source: PileId::Waste, index: 0 };
    let r = attempt_move(&mut state, unit, PileId::Tableau(1));
    assert_eq!(r, Err(MoveRejected::TargetFaceDown));
}

#[test]
fn unit_with_face_down_card_is_no_run() {
    let mut tableaus = empty_piles_7();
    tableaus[0] = vec![card(Suit::Hearts, 7, false), card(Suit::Spades, 6, true)];
    tableaus[1] = vec![card(Suit::Spades, 8, true)];
    let mut state = state_with(Vec::new(), empty_piles_4(), tableaus);
    let unit = MovingUnit { source: PileId::Tableau(0), index: 0 };
    let r = attempt_move(&mut state, unit, PileId::Tableau(1));
    assert_eq!(r, Err(MoveRejected::RunNotValidSequence));
}

#[test]
fn a_full_run_moves_as_a_unit() {
    let mut tableaus = empty_piles_7();
    tableaus[0] = vec![
        card(Suit::Spades, 7, true),
        card(Suit::Hearts, 6, true),
        card(Suit::Clubs, 5, true),
    ];
    tableaus[1] = vec![card(Suit::Hearts, 8, true)];
    let mut state = state_with(Vec::new(), empty_piles_4(), tableaus);
    let unit = MovingUnit { source: PileId::Tableau(0), index: 0 };
    let rec = attempt_move(&mut state, unit, PileId::Tableau(1)).unwrap();
    assert!(matches!(rec, MoveRecord::Unit { count: 3, .. }));
    assert_eq!(state.tableaus[0].len(), 0);
    assert_eq!(state.tableaus[1], vec![
        card(Suit::Hearts, 8, true),
        card(Suit::Spades, 7, true),
        card(Suit::Hearts, 6, true),
        card(Suit::Clubs, 5, true),
    ]);
}

#[test]
fn moving_the_top_card_reveals_exactly_one() {
    let mut tableaus = empty_piles_7();
    tableaus[0] = vec![
        card(Suit::Spades, 9, false),
        card(Suit::Clubs, 5, false),
        card(Suit::Hearts, 4, true),
    ];
    tableaus[1] = vec![card(Suit::Spades, 5, true)];
    let mut state = state_with(Vec::new(), empty_piles_4(), tableaus);
    let unit = MovingUnit { source: PileId::Tableau(0), index: 2 };
    let rec = attempt_move(&mut state, unit, PileId::Tableau(1)).unwrap();
    assert!(matches!(rec, MoveRecord::Unit { revealed: true, .. }));
    // only the newly exposed card turns face up
    assert_eq!(state.tableaus[0], vec![
        card(Suit::Spades, 9, false),
        card(Suit::Clubs, 5, true),
    ]);
    assert_eq!(state.tableaus[1], vec![
        card(Suit::Spades, 5, true),
        card(Suit::Hearts, 4, true),
    ]);
}

#[test]
fn undo_restores_waste_to_foundation_move() {
    let mut state = state_with(vec![card(Suit::Hearts, 1, true)], empty_piles_4(), empty_piles_7());
    let unit = MovingUnit { source: PileId::Waste, index: 0 };
    attempt_move(&mut state, unit, PileId::Foundation(0)).unwrap();
    assert_eq!(state.foundations[0].len(), 1);
    assert_eq!(state.waste.len(), 0);
    assert!(undo(&mut state).is_some());
    assert_eq!(state.waste, vec![card(Suit::Hearts, 1, true)]);
    assert_eq!(state.foundations[0].len(), 0);
    assert_eq!(state.undo_log.len(), 0);
    // the log is empty again: a further undo is a no-op
    assert!(undo(&mut state).is_none());
}

#[test]
fn undo_then_redo_restores_the_post_move_state() {
    let mut tableaus = empty_piles_7();
    tableaus[0] = vec![
        card(Suit::Clubs, 5, false),
        card(Suit::Hearts, 4, true),
    ];
    tableaus[1] = vec![card(Suit::Spades, 5, true)];
    let mut state = state_with(Vec::new(), empty_piles_4(), tableaus);
    let unit = MovingUnit { source: PileId::Tableau(0), index: 1 };
    attempt_move(&mut state, unit, PileId::Tableau(1)).unwrap();
    let stock_after = state.stock.clone();
    let waste_after = state.waste.clone();
    let foundations_after = state.foundations.clone();
    let tableaus_after = state.tableaus.clone();
    let log_after = state.undo_log.clone();
    assert!(undo(&mut state).is_some());
    // the reveal was rolled back with the move
    assert_eq!(state.tableaus[0], vec![
        card(Suit::Clubs, 5, false),
        card(Suit::Hearts, 4, true),
    ]);
    attempt_move(&mut state, unit, PileId::Tableau(1)).unwrap();
    assert_eq!(state.stock, stock_after);
    assert_eq!(state.waste, waste_after);
    assert_eq!(state.foundations, foundations_after);
    assert_eq!(state.tableaus, tableaus_after);
    assert_eq!(state.undo_log, log_after);
}

#[test]
fn undo_reverses_a_draw() {
    let mut state = new_game(5);
    let stock_before = state.stock.clone();
    draw_from_stock(&mut state).unwrap();
    assert!(undo(&mut state).is_some());
    assert_eq!(state.stock, stock_before);
    assert_eq!(state.waste.len(), 0);
    assert_eq!(state.undo_log.len(), 0);
}

#[test]
fn undo_reverses_a_recycle() {
    let mut state = new_game(11);
    for _ in 0..24 {
        draw_from_stock(&mut state).unwrap();
    }
    let waste_before = state.waste.clone();
    assert!(draw_from_stock(&mut state).is_none());
    assert_eq!(state.waste.len(), 0);
    assert!(undo(&mut state).is_some());
    assert_eq!(state.waste, waste_before);
    assert_eq!(state.stock.len(), 0);
}

#[test]
fn undo_rolls_back_a_foundation_move_and_its_reveal() {
    let mut tableaus = empty_piles_7();
    tableaus[0] = vec![card(Suit::Clubs, 9, false), card(Suit::Hearts, 1, true)];
    let mut state = state_with(Vec::new(), empty_piles_4(), tableaus);
    let unit = MovingUnit { source: PileId::Tableau(0), index: 1 };
    let rec = attempt_move(&mut state, unit, PileId::Foundation(0)).unwrap();
    assert!(matches!(rec, MoveRecord::Unit { revealed: true, .. }));
    assert_eq!(state.tableaus[0], vec![card(Suit::Clubs, 9, true)]);
    assert_eq!(state.foundations[0], vec![card(Suit::Hearts, 1, true)]);
    assert!(undo(&mut state).is_some());
    assert_eq!(state.tableaus[0], vec![
        card(Suit::Clubs, 9, false),
        card(Suit::Hearts, 1, true),
    ]);
    assert_eq!(state.foundations[0].len(), 0);
}

#[test]
fn a_nearly_finished_game_is_not_won() {
    let mut state = won_state();
    let top = state.foundations[2].pop().unwrap();
    state.stock.push(Card { face_up: false, ..top });
    assert!(!is_game_won(&state));
}

#[test]
fn double_click_sends_ace_to_its_foundation() {
    let mut tableaus = empty_piles_7();
    tableaus[0] = vec![card(Suit::Hearts, 1, true)];
    let mut state = state_with(Vec::new(), empty_piles_4(), tableaus);
    let rec = double_click_auto_move(&mut state, PileId::Tableau(0));
    assert!(rec.is_some());
    assert_eq!(state.foundations[0], vec![card(Suit::Hearts, 1, true)]);
    assert_eq!(state.tableaus[0].len(), 0);
}

#[test]
fn double_click_spade_ace_uses_the_fourth_foundation() {
    let mut state = state_with(vec![card(Suit::Spades, 1, true)], empty_piles_4(), empty_piles_7());
    let rec = double_click_auto_move(&mut state, PileId::Waste);
    assert!(rec.is_some());
    assert_eq!(state.foundations[3], vec![card(Suit::Spades, 1, true)]);
}

#[test]
fn double_click_falls_back_to_a_tableau_target() {
    let mut tableaus = empty_piles_7();
    tableaus[3] = vec![card(Suit::Spades, 7, true)];
    let mut state = state_with(vec![card(Suit::Hearts, 6, true)], empty_piles_4(), tableaus);
    let rec = double_click_auto_move(&mut state, PileId::Waste);
    assert!(rec.is_some());
    assert_eq!(state.tableaus[3], vec![
        card(Suit::Spades, 7, true),
        card(Suit::Hearts, 6, true),
    ]);
}

#[test]
fn double_click_without_a_target_is_a_no_op() {
    let mut tableaus = empty_piles_7();
    tableaus[0] = vec![card(Suit::Hearts, 9, true)];
    let mut state = state_with(Vec::new(), empty_piles_4(), tableaus);
    let tableaus_before = state.tableaus.clone();
    let rec = double_click_auto_move(&mut state, PileId::Tableau(0));
    assert!(rec.is_none());
    assert_eq!(state.tableaus, tableaus_before);
    assert_eq!(state.undo_log.len(), 0);
}
