//! Starting a game: the standard 52-card deck, the deterministic
//! seed-driven shuffle, and the opening deal of seven tableau piles and
//! the stock.

use vstd::prelude::*;

use crate::card::Card;
use crate::card::Suit;
use crate::card::card_ident;
use crate::card::card_ok;
use crate::card::face_up;
use crate::card::suit_index;
use crate::card::suit_of_index;
use crate::state::GameState;
use crate::state::StateView;
use crate::state::count_in;
use crate::state::count_in_piles;
use crate::state::inv;
use crate::state::lemma_count_same_idents;
use crate::state::lemma_count_split;
use crate::state::lemma_count_update;
use crate::state::total_count;
use crate::state::wf;

verus! {

/// The fresh deck in suit order: hearts ace through king, then diamonds,
/// clubs and spades, all face down. The card at position `i` has identity
/// `i`.
pub open spec fn standard_deck() -> Seq<Card> {
    Seq::new(
        52,
        |i: int|
            Card { suit: suit_of_index(i / 13), rank: (i % 13 + 1) as u8, face_up: false },
    )
}

/// Each position of the fresh deck holds the card with that identity,
/// well formed and face down.
pub proof fn lemma_standard_card(i: int)
    requires
        0 <= i < 52,
    ensures
        card_ident(standard_deck()[i]) == i,
        card_ok(standard_deck()[i]),
        !standard_deck()[i].face_up,
{
    let q = i / 13;
    let r = i % 13;
    assert(0 <= r < 13);
    assert(13 * q + r == i);
    assert(0 <= q < 4);
    assert(suit_index(suit_of_index(q)) == q);
}

/// The first `k` cards of the fresh deck hold exactly the identities
/// below `k`, once each.
proof fn lemma_deck_prefix_count(k: int, id: int)
    requires
        0 <= k <= 52,
    ensures
        count_in(standard_deck().take(k), id) == if 0 <= id < k {
            1int
        } else {
            0int
        },
    decreases k,
{
    if k > 0 {
        lemma_deck_prefix_count(k - 1, id);
        assert(standard_deck().take(k).drop_last() =~= standard_deck().take(k - 1));
        assert(standard_deck().take(k).last() == standard_deck()[k - 1]);
        lemma_standard_card(k - 1);
    }
}

/// The fresh deck holds each of the 52 identities exactly once and
/// nothing else.
pub proof fn lemma_deck_count(id: int)
    ensures
        count_in(standard_deck(), id) == if 0 <= id < 52 {
            1int
        } else {
            0int
        },
{
    lemma_deck_prefix_count(52, id);
    assert(standard_deck().take(52) =~= standard_deck());
}

/// The position the shuffle swaps position `i` with: a rolling function
/// of the seed, reduced modulo the deck size.
pub open spec fn swap_target(seed: u64, i: int) -> int {
    vstd::wrapping::u64_specs::wrapping_add(seed, (i * 17) as u64) as int % 52
}

/// One step of the shuffle: the cards at `i` and at the seed-derived
/// target position change places.
pub open spec fn shuffle_step(s: Seq<Card>, seed: u64, i: int) -> Seq<Card> {
    let j = swap_target(seed, i);
    s.update(i, s[j]).update(j, s[i])
}

/// The deck after the first `n` shuffle steps have run on the fresh deck.
pub open spec fn shuffled_prefix(seed: u64, n: int) -> Seq<Card>
    decreases n,
{
    if n <= 0 {
        standard_deck()
    } else {
        shuffle_step(shuffled_prefix(seed, n - 1), seed, n - 1)
    }
}

/// The fully shuffled deck for a seed.
pub open spec fn shuffled_deck(seed: u64) -> Seq<Card> {
    shuffled_prefix(seed, 52)
}

/// The shuffle only rearranges the fresh deck: the length, the counts of
/// every identity, and the cards' well-formedness and face-down state are
/// all preserved.
proof fn lemma_shuffle_props(seed: u64, n: int, id: int)
    requires
        0 <= n <= 52,
    ensures
        shuffled_prefix(seed, n).len() == 52,
        count_in(shuffled_prefix(seed, n), id) == count_in(standard_deck(), id),
        forall|i: int|
            0 <= i < 52 ==> card_ok(#[trigger] shuffled_prefix(seed, n)[i]) && !shuffled_prefix(
                seed,
                n,
            )[i].face_up,
    decreases n,
{
    if n == 0 {
        assert forall|i: int|
            0 <= i < 52 implies card_ok(#[trigger] shuffled_prefix(seed, n)[i]) && !shuffled_prefix(
            seed,
            n,
        )[i].face_up by {
            lemma_standard_card(i);
        };
    } else {
        lemma_shuffle_props(seed, n - 1, id);
        let s = shuffled_prefix(seed, n - 1);
        let i = n - 1;
        let j = swap_target(seed, i);
        assert(0 <= j < 52);
        let s1 = s.update(i, s[j]);
        let s2 = s1.update(j, s[i]);
        lemma_count_update(s, i, s[j], id);
        lemma_count_update(s1, j, s[i], id);
        assert(s1[j] == s[j]);
        assert forall|k: int|
            0 <= k < 52 implies card_ok(#[trigger] s2[k]) && !s2[k].face_up by {
            assert(card_ok(s[i]) && !s[i].face_up);
            assert(card_ok(s[j]) && !s[j].face_up);
            assert(card_ok(s[k]) && !s[k].face_up);
        };
    }
}

/// How many cards the first `t` tableau piles receive in the opening
/// deal: the `t`-th triangular number.
pub open spec fn tri(t: int) -> int
    decreases t,
{
    if t <= 0 {
        0
    } else {
        tri(t - 1) + t
    }
}

/// The triangular numbers the deal uses, written out.
proof fn lemma_tri_7()
    ensures
        tri(0) == 0,
        tri(1) == 1,
        tri(2) == 3,
        tri(3) == 6,
        tri(4) == 10,
        tri(5) == 15,
        tri(6) == 21,
        tri(7) == 28,
{
    assert(tri(0) == 0);
    assert(tri(1) == 1);
    assert(tri(2) == 3);
    assert(tri(3) == 6);
    assert(tri(4) == 10);
    assert(tri(5) == 15);
    assert(tri(6) == 21);
    assert(tri(7) == 28);
}

/// The triangular numbers grow with their argument.
proof fn lemma_tri_le(a: int, b: int)
    requires
        0 <= a <= b,
    ensures
        tri(a) <= tri(b),
    decreases b - a,
{
    if a < b {
        lemma_tri_le(a, b - 1);
    }
}

/// Tableau pile `t` as dealt: the `t + 1` consecutive deck cards starting
/// at position `tri(t)`, all face down but the last.
pub open spec fn tableau_start(d: Seq<Card>, t: int) -> Seq<Card> {
    Seq::new(
        (t + 1) as nat,
        |k: int|
            if k == t {
                face_up(d[tri(t) + k])
            } else {
                d[tri(t) + k]
            },
    )
}

/// The opening state for a seed: seven tableau piles of one to seven
/// cards with only each pile's top card face up, the remaining 24 cards
/// in the stock, and everything else empty.
pub open spec fn game_start(seed: u64) -> StateView {
    let d = shuffled_deck(seed);
    StateView {
        stock: d.skip(28),
        waste: Seq::empty(),
        foundations: Seq::new(4, |f: int| Seq::empty()),
        tableaus: Seq::new(7, |t: int| tableau_start(d, t)),
        log: Seq::empty(),
    }
}

/// The first `m` dealt tableau piles together hold exactly the first
/// `tri(m)` cards of the shuffled deck.
proof fn lemma_tableaus_start_count(d: Seq<Card>, m: int, id: int)
    requires
        d.len() == 52,
        0 <= m <= 7,
    ensures
        count_in_piles(Seq::new(m as nat, |t: int| tableau_start(d, t)), id) == count_in(
            d.take(tri(m)),
            id,
        ),
    decreases m,
{
    lemma_tri_7();
    lemma_tri_le(m, 7);
    lemma_tri_le(0, m);
    if m == 0 {
        assert(d.take(0) =~= Seq::<Card>::empty());
        assert(count_in(Seq::<Card>::empty(), id) == 0);
    } else {
        lemma_tableaus_start_count(d, m - 1, id);
        let piles = Seq::new(m as nat, |t: int| tableau_start(d, t));
        assert(piles.drop_last() =~= Seq::new((m - 1) as nat, |t: int| tableau_start(d, t)));
        let pile = tableau_start(d, m - 1);
        assert(piles.last() == pile);
        let seg = d.subrange(tri(m - 1), tri(m));
        assert(tri(m) == tri(m - 1) + m);
        lemma_tri_le(0, m - 1);
        assert forall|k: int| 0 <= k < pile.len() implies card_ident(#[trigger] pile[k])
            == card_ident(seg[k]) by {
            assert(seg[k] == d[tri(m - 1) + k]);
        };
        lemma_count_same_idents(seg, pile, id);
        lemma_count_split(d.take(tri(m)), tri(m - 1), id);
        assert(d.take(tri(m)).take(tri(m - 1)) =~= d.take(tri(m - 1)));
        assert(d.take(tri(m)).skip(tri(m - 1)) =~= seg);
    }
}

/// A group of `m` empty piles holds nothing.
proof fn lemma_empty_piles_count(m: int, id: int)
    requires
        0 <= m,
    ensures
        count_in_piles(Seq::new(m as nat, |f: int| Seq::<Card>::empty()), id) == 0,
    decreases m,
{
    if m > 0 {
        lemma_empty_piles_count(m - 1, id);
        assert(Seq::new(m as nat, |f: int| Seq::<Card>::empty()).drop_last() =~= Seq::new(
            (m - 1) as nat,
            |f: int| Seq::<Card>::empty(),
        ));
        assert(count_in(Seq::<Card>::empty(), id) == 0);
    }
}

/// The opening state satisfies the full invariant.
pub proof fn lemma_game_start_inv(seed: u64)
    ensures
        inv(game_start(seed)),
{
    let d = shuffled_deck(seed);
    let v = game_start(seed);
    lemma_tri_7();
    assert forall|id: int| total_count(v, id) == if 0 <= id < 52 {
        1int
    } else {
        0int
    } by {
        lemma_shuffle_props(seed, 52, id);
        lemma_deck_count(id);
        lemma_tableaus_start_count(d, 7, id);
        lemma_empty_piles_count(4, id);
        lemma_count_split(d, 28, id);
        assert(d.take(28) =~= d.take(tri(7)));
        assert(v.foundations =~= Seq::new(4, |f: int| Seq::<Card>::empty()));
        assert(v.tableaus =~= Seq::new(7, |t: int| tableau_start(d, t)));
    };
    assert(wf(v)) by {
        lemma_shuffle_props(seed, 52, 0);
        assert forall|i: int| 0 <= i < v.stock.len() implies !(#[trigger] v.stock[i]).face_up
            && card_ok(v.stock[i]) by {
            assert(v.stock[i] == d[28 + i]);
        };
        assert forall|f: int|
            0 <= f < 4 implies crate::state::pile_cards_ok(#[trigger] v.foundations[f])
            && crate::state::foundation_ok(v.foundations[f]) by {
            assert(v.foundations[f] =~= Seq::<Card>::empty());
        };
        assert forall|t: int|
            0 <= t < 7 implies crate::state::pile_cards_ok(#[trigger] v.tableaus[t])
            && crate::state::tableau_ok(v.tableaus[t]) by {
            let p = v.tableaus[t];
            assert(p == tableau_start(d, t));
            lemma_tri_7();
            lemma_tri_le(t, 6);
            lemma_tri_le(0, t);
            assert(tri(t) + t < 28);
            assert forall|k: int| 0 <= k < p.len() implies card_ok(#[trigger] p[k]) by {
                assert(card_ok(d[tri(t) + k]));
            };
            assert forall|k: int| 0 <= k < p.len() - 1 implies !(#[trigger] p[k]).face_up by {
                assert(!d[tri(t) + k].face_up);
            };
        };
    };
    assert(inv(v));
}

/// Returns the fresh 52-card deck, face down, in suit order.
pub fn create_deck() -> (r: Vec<Card>)
    ensures
        r@ == standard_deck(),
{
    let mut deck: Vec<Card> = Vec::new();
    let mut i: usize = 0;
    while i < 52
        invariant
            i <= 52,
            deck@ =~= standard_deck().take(i as int),
        decreases 52 - i,
    {
        let suit = if i < 13 {
            Suit::Hearts
        } else if i < 26 {
            Suit::Diamonds
        } else if i < 39 {
            Suit::Clubs
        } else {
            Suit::Spades
        };
        let rank = (i % 13 + 1) as u8;
        deck.push(Card { suit, rank, face_up: false });
        proof {
            let ii = i as int;
            assert(ii / 13 == if ii < 13 {
                0int
            } else if ii < 26 {
                1int
            } else if ii < 39 {
                2int
            } else {
                3int
            });
            assert(deck@ =~= standard_deck().take(ii + 1));
        }
        i += 1;
    }
    proof {
        assert(deck@ =~= standard_deck());
    }
    deck
}

/// Starts a new game from a seed: shuffles a fresh deck deterministically
/// — swapping each position with a seed-derived target, as `shuffled_deck`
/// describes — then deals seven tableau piles of one to seven cards with
/// only each top card face up, and puts the remaining 24 cards in the
/// stock. The waste, the foundations and the undo log start empty.
pub fn new_game(seed: u64) -> (r: GameState)
    ensures
        r@ == game_start(seed),
        inv(r@),
        r@.stock.len() == 24,
        r@.waste.len() == 0,
        r@.log.len() == 0,
        forall|f: int| 0 <= f < 4 ==> (#[trigger] r@.foundations[f]).len() == 0,
        forall|t: int| 0 <= t < 7 ==> (#[trigger] r@.tableaus[t]).len() == t + 1,
        forall|t: int, k: int|
            0 <= t < 7 && 0 <= k <= t ==> ((#[trigger] r@.tableaus[t][k]).face_up <==> k == t),
{
    let mut deck = create_deck();
    let mut i: usize = 0;
    while i < 52
        invariant
            i <= 52,
            deck@ == shuffled_prefix(seed, i as int),
            deck@.len() == 52,
        decreases 52 - i,
    {
        let j = (seed.wrapping_add((i as u64) * 17) % 52) as usize;
        proof {
            assert((i as u64) * 17 == ((i as int) * 17) as u64);
            assert(j as int == swap_target(seed, i as int));
        }
        let a = deck[i];
        let b = deck[j];
        deck.set(i, b);
        deck.set(j, a);
        proof {
            assert(deck@ =~= shuffle_step(shuffled_prefix(seed, i as int), seed, i as int));
        }
        i += 1;
    }
    let ghost d = shuffled_deck(seed);
    proof {
        assert(deck@ == d);
    }
    let mut tableaus: Vec<Vec<Card>> = Vec::new();
    let mut idx: usize = 0;
    let mut t: usize = 0;
    while t < 7
        invariant
            t <= 7,
            idx as int == tri(t as int),
            idx <= 28,
            deck@ == d,
            d.len() == 52,
            tableaus@.len() == t,
            forall|p: int| 0 <= p < t ==> (#[trigger] tableaus@[p])@ == tableau_start(d, p),
        decreases 7 - t,
    {
        let ghost tt = t as int;
        proof {
            lemma_tri_7();
            lemma_tri_le(tt + 1, 7);
        }
        let mut pile: Vec<Card> = Vec::new();
        let mut k: usize = 0;
        while k < t + 1
            invariant
                k <= t + 1,
                t < 7,
                idx as int == tri(t as int) + k,
                idx as int + (t + 1 - k) <= 28,
                deck@ == d,
                d.len() == 52,
                pile@ =~= tableau_start(d, t as int).take(k as int),
            decreases t + 1 - k,
        {
            let c = deck[idx];
            let c2 = if k == t {
                Card { suit: c.suit, rank: c.rank, face_up: true }
            } else {
                c
            };
            pile.push(c2);
            proof {
                assert(pile@ =~= tableau_start(d, t as int).take(k as int + 1));
            }
            idx += 1;
            k += 1;
        }
        proof {
            assert(pile@ =~= tableau_start(d, t as int));
        }
        tableaus.push(pile);
        t += 1;
    }
    let stock = deck.split_off(28);
    let mut foundations: Vec<Vec<Card>> = Vec::new();
    let mut f: usize = 0;
    while f < 4
        invariant
            f <= 4,
            foundations@.len() == f,
            forall|g: int| 0 <= g < f ==> (#[trigger] foundations@[g])@ == Seq::<Card>::empty(),
        decreases 4 - f,
    {
        foundations.push(Vec::new());
        f += 1;
    }
    let state = GameState {
        stock,
        waste: Vec::new(),
        foundations,
        tableaus,
        undo_log: Vec::new(),
    };
    proof {
        assert(state@.foundations =~= game_start(seed).foundations);
        assert(state@.tableaus =~= game_start(seed).tableaus);
        assert(state@ =~= game_start(seed));
        lemma_game_start_inv(seed);
        lemma_tri_7();
        assert forall|t: int, k: int|
            0 <= t < 7 && 0 <= k <= t implies ((#[trigger] state@.tableaus[t][k]).face_up <==> k
            == t) by {
            lemma_shuffle_props(seed, 52, 0);
            lemma_tri_7();
            lemma_tri_le(t, 6);
            lemma_tri_le(0, t);
            assert(state@.tableaus[t] == tableau_start(d, t));
            assert(tri(t) + k < 52);
            if k != t {
                assert(state@.tableaus[t][k] == d[tri(t) + k]);
                assert(!d[tri(t) + k].face_up);
            }
        };
    }
    state
}

} // verus!
