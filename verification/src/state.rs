//! The aggregate game state: stock, waste, four foundations, seven tableau
//! piles and the undo log, together with the invariants that every
//! operation of the library preserves.

use vstd::prelude::*;

use crate::card::Card;
use crate::card::card_ident;
use crate::card::card_ok;
use crate::rules::tableau_stacks_on;

verus! {

/// Names one of the game's piles. Foundations are numbered 0 through 3,
/// tableau piles 0 through 6.
#[derive(Clone, Copy, PartialEq, Eq, Structural, Debug)]
pub enum PileId {
    Stock,
    Waste,
    Foundation(usize),
    Tableau(usize),
}

/// One reversible entry of the undo log.
///
/// A `Unit` records a successful card or run move: `count` cards went from
/// the top of `from` to the top of `to`, and `revealed` tells whether the
/// move turned the newly exposed top card of `from` face up. A `Draw`
/// records one card dealt from the stock to the waste, and a `Recycle`
/// records the waste being turned back into the stock. Together with the
/// current state each entry determines the previous state exactly.
#[derive(Clone, Copy, PartialEq, Eq, Structural, Debug)]
pub enum MoveRecord {
    Unit { from: PileId, to: PileId, count: usize, revealed: bool },
    Draw,
    Recycle,
}

/// The mathematical model of a game state: each pile as a sequence of
/// cards ordered from the bottom up, and the undo log.
#[verifier::ext_equal]
pub struct StateView {
    pub stock: Seq<Card>,
    pub waste: Seq<Card>,
    pub foundations: Seq<Seq<Card>>,
    pub tableaus: Seq<Seq<Card>>,
    pub log: Seq<MoveRecord>,
}

/// The game state. Piles are vectors of cards ordered from the bottom of
/// the pile (index 0) to its top (the last element); for the stock, the
/// top is the next card dealt.
pub struct GameState {
    pub stock: Vec<Card>,
    pub waste: Vec<Card>,
    pub foundations: Vec<Vec<Card>>,
    pub tableaus: Vec<Vec<Card>>,
    pub undo_log: Vec<MoveRecord>,
}

impl View for GameState {
    type V = StateView;

    open spec fn view(&self) -> StateView {
        StateView {
            stock: self.stock@,
            waste: self.waste@,
            foundations: self.foundations@.map_values(|p: Vec<Card>| p@),
            tableaus: self.tableaus@.map_values(|p: Vec<Card>| p@),
            log: self.undo_log@,
        }
    }
}

/// The pile named by `id`.
pub open spec fn pile_at(v: StateView, id: PileId) -> Seq<Card> {
    match id {
        PileId::Stock => v.stock,
        PileId::Waste => v.waste,
        PileId::Foundation(f) => v.foundations[f as int],
        PileId::Tableau(t) => v.tableaus[t as int],
    }
}

/// The state with the pile named by `id` replaced by `p`.
pub open spec fn with_pile(v: StateView, id: PileId, p: Seq<Card>) -> StateView {
    match id {
        PileId::Stock => StateView { stock: p, ..v },
        PileId::Waste => StateView { waste: p, ..v },
        PileId::Foundation(f) => StateView { foundations: v.foundations.update(f as int, p), ..v },
        PileId::Tableau(t) => StateView { tableaus: v.tableaus.update(t as int, p), ..v },
    }
}

/// The pile name carries an index within range.
pub open spec fn pile_id_ok(id: PileId) -> bool {
    match id {
        PileId::Stock => true,
        PileId::Waste => true,
        PileId::Foundation(f) => f < 4,
        PileId::Tableau(t) => t < 7,
    }
}

/// How many cards with identity `id` the pile holds.
pub open spec fn count_in(s: Seq<Card>, id: int) -> int
    decreases s.len(),
{
    if s.len() == 0 {
        0
    } else {
        count_in(s.drop_last(), id) + if card_ident(s.last()) == id {
            1int
        } else {
            0int
        }
    }
}

/// How many cards with identity `id` a group of piles holds in total.
pub open spec fn count_in_piles(ps: Seq<Seq<Card>>, id: int) -> int
    decreases ps.len(),
{
    if ps.len() == 0 {
        0
    } else {
        count_in_piles(ps.drop_last(), id) + count_in(ps.last(), id)
    }
}

/// How many cards with identity `id` the whole state holds.
pub open spec fn total_count(v: StateView, id: int) -> int {
    count_in(v.stock, id) + count_in(v.waste, id) + count_in_piles(v.foundations, id)
        + count_in_piles(v.tableaus, id)
}

/// The 52-card partition: every one of the 52 card identities occurs
/// exactly once across all piles, and nothing else occurs at all.
pub open spec fn cards_partition(v: StateView) -> bool {
    forall|id: int| total_count(v, id) == if 0 <= id < 52 {
        1int
    } else {
        0int
    }
}

/// Every card in the pile has a rank between 1 and 13.
pub open spec fn pile_cards_ok(s: Seq<Card>) -> bool {
    forall|i: int| 0 <= i < s.len() ==> card_ok(#[trigger] s[i])
}

/// A foundation pile is empty or an ascending same-suit sequence that
/// starts at the ace, all face up.
pub open spec fn foundation_ok(p: Seq<Card>) -> bool {
    forall|i: int|
        0 <= i < p.len() ==> (#[trigger] p[i]).face_up && p[i].rank == i + 1 && p[i].suit
            == p[0].suit
}

/// No face-down card lies above a face-up card: the face-up cards form a
/// contiguous suffix of the pile.
pub open spec fn face_up_contiguous(p: Seq<Card>) -> bool {
    forall|i: int, j: int|
        0 <= i < j < p.len() && (#[trigger] p[i]).face_up ==> (#[trigger] p[j]).face_up
}

/// A tableau pile is well formed when its face-up cards form a contiguous
/// suffix and every face-up card legally carries the card above it.
pub open spec fn tableau_ok(p: Seq<Card>) -> bool {
    &&& face_up_contiguous(p)
    &&& forall|i: int|
        0 <= i < p.len() - 1 && (#[trigger] p[i]).face_up ==> tableau_stacks_on(p[i + 1], p[i])
}

/// The well-formedness invariant of a game state: four foundations and
/// seven tableau piles, the 52-card partition, ranks in range everywhere,
/// foundations ascending in suit from the ace, tableau face-up suffixes
/// valid runs, the stock all face down and the waste all face up.
pub open spec fn wf(v: StateView) -> bool {
    &&& v.foundations.len() == 4
    &&& v.tableaus.len() == 7
    &&& cards_partition(v)
    &&& pile_cards_ok(v.stock)
    &&& pile_cards_ok(v.waste)
    &&& forall|f: int|
        0 <= f < 4 ==> pile_cards_ok(#[trigger] v.foundations[f]) && foundation_ok(v.foundations[f])
    &&& forall|t: int|
        0 <= t < 7 ==> pile_cards_ok(#[trigger] v.tableaus[t]) && tableau_ok(v.tableaus[t])
    &&& forall|i: int| 0 <= i < v.stock.len() ==> !(#[trigger] v.stock[i]).face_up
    &&& forall|i: int| 0 <= i < v.waste.len() ==> (#[trigger] v.waste[i]).face_up
}

/// The full invariant: the state is well formed and every entry of the
/// undo log can be reversed, each reversal leading to a state that again
/// satisfies the invariant. Every state the library hands out satisfies
/// this.
pub open spec fn inv(v: StateView) -> bool
    decreases v.log.len(),
{
    &&& wf(v)
    &&& v.log.len() > 0 ==> {
        &&& crate::undo::undoable(v, v.log.last())
        &&& inv(crate::undo::undo_view(v, v.log.last()))
    }
}

/// Appending a card adds one to the count of its identity and leaves
/// every other count unchanged.
pub proof fn lemma_count_push(s: Seq<Card>, c: Card, id: int)
    ensures
        count_in(s.push(c), id) == count_in(s, id) + if card_ident(c) == id {
            1int
        } else {
            0int
        },
{
    assert(s.push(c).drop_last() =~= s);
}

/// Counting distributes over concatenation.
pub proof fn lemma_count_concat(a: Seq<Card>, b: Seq<Card>, id: int)
    ensures
        count_in(a + b, id) == count_in(a, id) + count_in(b, id),
    decreases b.len(),
{
    if b.len() == 0 {
        assert(a + b =~= a);
    } else {
        assert((a + b).drop_last() =~= a + b.drop_last());
        lemma_count_concat(a, b.drop_last(), id);
    }
}

/// A pile's count splits at any position into the counts of the prefix
/// and the suffix.
pub proof fn lemma_count_split(s: Seq<Card>, i: int, id: int)
    requires
        0 <= i <= s.len(),
    ensures
        count_in(s, id) == count_in(s.take(i), id) + count_in(s.skip(i), id),
{
    assert(s =~= s.take(i) + s.skip(i));
    lemma_count_concat(s.take(i), s.skip(i), id);
}

/// Replacing one card adjusts the counts of exactly the old and the new
/// card's identities.
pub proof fn lemma_count_update(s: Seq<Card>, i: int, c: Card, id: int)
    requires
        0 <= i < s.len(),
    ensures
        count_in(s.update(i, c), id) == count_in(s, id) - (if card_ident(s[i]) == id {
            1int
        } else {
            0int
        }) + (if card_ident(c) == id {
            1int
        } else {
            0int
        }),
    decreases s.len(),
{
    if i == s.len() - 1 {
        assert(s.update(i, c).drop_last() =~= s.drop_last());
    } else {
        assert(s.update(i, c).drop_last() =~= s.drop_last().update(i, c));
        lemma_count_update(s.drop_last(), i, c, id);
    }
}

/// Replacing one pile of a group adjusts the group's count by the
/// difference between the new and the old pile's counts.
pub proof fn lemma_count_piles_update(ps: Seq<Seq<Card>>, i: int, p: Seq<Card>, id: int)
    requires
        0 <= i < ps.len(),
    ensures
        count_in_piles(ps.update(i, p), id) == count_in_piles(ps, id) - count_in(ps[i], id)
            + count_in(p, id),
    decreases ps.len(),
{
    if i == ps.len() - 1 {
        assert(ps.update(i, p).drop_last() =~= ps.drop_last());
    } else {
        assert(ps.update(i, p).drop_last() =~= ps.drop_last().update(i, p));
        lemma_count_piles_update(ps.drop_last(), i, p, id);
    }
}

/// The state has its four foundations and seven tableau piles.
pub open spec fn shape_ok(v: StateView) -> bool {
    v.foundations.len() == 4 && v.tableaus.len() == 7
}

/// Replacing one pile leaves every other pile as it was.
pub proof fn lemma_with_pile_preserves(v: StateView, id: PileId, p: Seq<Card>, other: PileId)
    requires
        other != id,
        pile_id_ok(id),
        pile_id_ok(other),
        shape_ok(v),
    ensures
        pile_at(with_pile(v, id, p), other) == pile_at(v, other),
        with_pile(v, id, p).log == v.log,
{
}

/// Replacing one pile changes the pile named and nothing else.
pub proof fn lemma_with_pile_at(v: StateView, id: PileId, p: Seq<Card>)
    requires
        pile_id_ok(id),
        shape_ok(v),
    ensures
        pile_at(with_pile(v, id, p), id) == p,
        shape_ok(with_pile(v, id, p)),
{
}

/// Replacing one pile changes the total count of each identity by the
/// difference between the new and the old pile's counts.
pub proof fn lemma_total_with_pile(v: StateView, id: PileId, p: Seq<Card>, ident: int)
    requires
        pile_id_ok(id),
        shape_ok(v),
    ensures
        total_count(with_pile(v, id, p), ident) == total_count(v, ident) - count_in(
            pile_at(v, id),
            ident,
        ) + count_in(p, ident),
{
    match id {
        PileId::Stock => {},
        PileId::Waste => {},
        PileId::Foundation(f) => {
            lemma_count_piles_update(v.foundations, f as int, p, ident);
        },
        PileId::Tableau(t) => {
            lemma_count_piles_update(v.tableaus, t as int, p, ident);
        },
    }
}

/// Returns the number of cards in the pile named by `id`.
pub(crate) fn pile_len(state: &GameState, id: PileId) -> (r: usize)
    requires
        shape_ok(state@),
        pile_id_ok(id),
    ensures
        r == pile_at(state@, id).len(),
{
    match id {
        PileId::Stock => state.stock.len(),
        PileId::Waste => state.waste.len(),
        PileId::Foundation(f) => state.foundations[f].len(),
        PileId::Tableau(t) => state.tableaus[t].len(),
    }
}

/// Returns the card at position `i` (from the bottom) of the pile named by
/// `id`.
pub(crate) fn read_card(state: &GameState, id: PileId, i: usize) -> (r: Card)
    requires
        shape_ok(state@),
        pile_id_ok(id),
        i < pile_at(state@, id).len(),
    ensures
        r == pile_at(state@, id)[i as int],
{
    match id {
        PileId::Stock => state.stock[i],
        PileId::Waste => state.waste[i],
        PileId::Foundation(f) => state.foundations[f][i],
        PileId::Tableau(t) => state.tableaus[t][i],
    }
}

/// Copies the cards of the pile named by `id` from position `index` to the
/// top.
pub(crate) fn clone_top(state: &GameState, id: PileId, index: usize) -> (r: Vec<Card>)
    requires
        shape_ok(state@),
        pile_id_ok(id),
        index <= pile_at(state@, id).len(),
    ensures
        r@ == pile_at(state@, id).skip(index as int),
{
    let n = pile_len(state, id);
    let mut out: Vec<Card> = Vec::new();
    let mut i: usize = index;
    while i < n
        invariant
            shape_ok(state@),
            pile_id_ok(id),
            index <= i <= n,
            n == pile_at(state@, id).len(),
            out@ == pile_at(state@, id).subrange(index as int, i as int),
        decreases n - i,
    {
        out.push(read_card(state, id, i));
        proof {
            assert(out@ =~= pile_at(state@, id).subrange(index as int, i + 1));
        }
        i += 1;
    }
    proof {
        assert(out@ =~= pile_at(state@, id).skip(index as int));
    }
    out
}

/// Removes the top `count` cards of the pile named by `id` and returns
/// them in pile order.
pub(crate) fn detach_top(state: &mut GameState, id: PileId, count: usize) -> (r: Vec<Card>)
    requires
        shape_ok(old(state)@),
        pile_id_ok(id),
        count <= pile_at(old(state)@, id).len(),
    ensures
        final(state)@ == with_pile(
            old(state)@,
            id,
            pile_at(old(state)@, id).take(pile_at(old(state)@, id).len() - count),
        ),
        r@ == pile_at(old(state)@, id).skip(pile_at(old(state)@, id).len() - count),
{
    let ghost v0 = state@;
    match id {
        PileId::Stock => {
            let at = state.stock.len() - count;
            let r = state.stock.split_off(at);
            proof {
                assert(state@ =~= with_pile(v0, id, pile_at(v0, id).take(pile_at(v0, id).len() - count)));
            }
            r
        },
        PileId::Waste => {
            let at = state.waste.len() - count;
            let r = state.waste.split_off(at);
            proof {
                assert(state@ =~= with_pile(v0, id, pile_at(v0, id).take(pile_at(v0, id).len() - count)));
            }
            r
        },
        PileId::Foundation(f) => {
            let mut pile = state.foundations.remove(f);
            let at = pile.len() - count;
            let r = pile.split_off(at);
            state.foundations.insert(f, pile);
            proof {
                assert(state@.foundations =~= v0.foundations.update(
                    f as int,
                    pile_at(v0, id).take(pile_at(v0, id).len() - count),
                ));
                assert(state@ =~= with_pile(v0, id, pile_at(v0, id).take(pile_at(v0, id).len() - count)));
            }
            r
        },
        PileId::Tableau(t) => {
            let mut pile = state.tableaus.remove(t);
            let at = pile.len() - count;
            let r = pile.split_off(at);
            state.tableaus.insert(t, pile);
            proof {
                assert(state@.tableaus =~= v0.tableaus.update(
                    t as int,
                    pile_at(v0, id).take(pile_at(v0, id).len() - count),
                ));
                assert(state@ =~= with_pile(v0, id, pile_at(v0, id).take(pile_at(v0, id).len() - count)));
            }
            r
        },
    }
}

/// Appends `cards`, in order, to the top of the pile named by `id`.
pub(crate) fn attach(state: &mut GameState, id: PileId, cards: Vec<Card>)
    requires
        shape_ok(old(state)@),
        pile_id_ok(id),
    ensures
        final(state)@ == with_pile(old(state)@, id, pile_at(old(state)@, id) + cards@),
{
    let ghost v0 = state@;
    let ghost cs = cards@;
    let mut cards = cards;
    match id {
        PileId::Stock => {
            state.stock.append(&mut cards);
            proof {
                assert(state@ =~= with_pile(v0, id, pile_at(v0, id) + cs));
            }
        },
        PileId::Waste => {
            state.waste.append(&mut cards);
            proof {
                assert(state@ =~= with_pile(v0, id, pile_at(v0, id) + cs));
            }
        },
        PileId::Foundation(f) => {
            let mut pile = state.foundations.remove(f);
            pile.append(&mut cards);
            state.foundations.insert(f, pile);
            proof {
                assert(state@.foundations =~= v0.foundations.update(f as int, pile_at(v0, id) + cs));
                assert(state@ =~= with_pile(v0, id, pile_at(v0, id) + cs));
            }
        },
        PileId::Tableau(t) => {
            let mut pile = state.tableaus.remove(t);
            pile.append(&mut cards);
            state.tableaus.insert(t, pile);
            proof {
                assert(state@.tableaus =~= v0.tableaus.update(t as int, pile_at(v0, id) + cs));
                assert(state@ =~= with_pile(v0, id, pile_at(v0, id) + cs));
            }
        },
    }
}

/// Turns the top card of the pile named by `id` face up or face down.
pub(crate) fn set_top_face(state: &mut GameState, id: PileId, up: bool)
    requires
        shape_ok(old(state)@),
        pile_id_ok(id),
        pile_at(old(state)@, id).len() > 0,
    ensures
        final(state)@ == with_pile(
            old(state)@,
            id,
            pile_at(old(state)@, id).update(
                pile_at(old(state)@, id).len() - 1,
                Card {
                    suit: pile_at(old(state)@, id).last().suit,
                    rank: pile_at(old(state)@, id).last().rank,
                    face_up: up,
                },
            ),
        ),
{
    let ghost v0 = state@;
    let n = pile_len(state, id);
    let top = read_card(state, id, n - 1);
    let flipped = Card { suit: top.suit, rank: top.rank, face_up: up };
    match id {
        PileId::Stock => {
            state.stock.set(n - 1, flipped);
            proof {
                assert(state@ =~= with_pile(v0, id, pile_at(v0, id).update(n - 1, flipped)));
            }
        },
        PileId::Waste => {
            state.waste.set(n - 1, flipped);
            proof {
                assert(state@ =~= with_pile(v0, id, pile_at(v0, id).update(n - 1, flipped)));
            }
        },
        PileId::Foundation(f) => {
            let mut pile = state.foundations.remove(f);
            pile.set(n - 1, flipped);
            state.foundations.insert(f, pile);
            proof {
                assert(state@.foundations =~= v0.foundations.update(f as int, pile_at(v0, id).update(n - 1, flipped)));
                assert(state@ =~= with_pile(v0, id, pile_at(v0, id).update(n - 1, flipped)));
            }
        },
        PileId::Tableau(t) => {
            let mut pile = state.tableaus.remove(t);
            pile.set(n - 1, flipped);
            state.tableaus.insert(t, pile);
            proof {
                assert(state@.tableaus =~= v0.tableaus.update(t as int, pile_at(v0, id).update(n - 1, flipped)));
                assert(state@ =~= with_pile(v0, id, pile_at(v0, id).update(n - 1, flipped)));
            }
        },
    }
}

/// Two piles whose cards agree position by position on their identities
/// have the same counts.
pub proof fn lemma_count_same_idents(s: Seq<Card>, t: Seq<Card>, id: int)
    requires
        s.len() == t.len(),
        forall|i: int| 0 <= i < s.len() ==> card_ident(#[trigger] t[i]) == card_ident(s[i]),
    ensures
        count_in(t, id) == count_in(s, id),
    decreases s.len(),
{
    if s.len() > 0 {
        lemma_count_same_idents(s.drop_last(), t.drop_last(), id);
    }
}

/// Reversing a pile does not change its counts.
pub proof fn lemma_count_reverse(s: Seq<Card>, id: int)
    ensures
        count_in(s.reverse(), id) == count_in(s, id),
    decreases s.len(),
{
    if s.len() > 0 {
        assert(s.reverse().drop_last() =~= s.skip(1).reverse());
        assert(s.reverse().last() == s[0]);
        lemma_count_reverse(s.skip(1), id);
        lemma_count_split(s, 1, id);
        assert(count_in(s.take(1), id) == if card_ident(s[0]) == id {
            1int
        } else {
            0int
        }) by {
            assert(count_in(Seq::<Card>::empty(), id) == 0);
            assert(s.take(1).drop_last() =~= Seq::<Card>::empty());
            assert(s.take(1).last() == s[0]);
        };
    } else {
        assert(s.reverse() =~= s);
    }
}

} // verus!
