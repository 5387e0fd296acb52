//! Reversing recorded moves: the exact meaning of one undo step, and the
//! executable `undo` operation.

use vstd::prelude::*;

use crate::card::Card;
use crate::card::face_down;
use crate::card::face_up;
use crate::state::GameState;
use crate::state::MoveRecord;
use crate::state::PileId;
use crate::state::StateView;
use crate::state::inv;
use crate::state::pile_at;
use crate::state::with_pile;
use crate::state::set_top_face;

verus! {

/// A unit move's record may only name the waste or a tableau pile as its
/// origin.
pub open spec fn rec_from_ok(id: PileId) -> bool {
    match id {
        PileId::Waste => true,
        PileId::Tableau(t) => t < 7,
        _ => false,
    }
}

/// A unit move's record may only name a foundation or a tableau pile as
/// its destination.
pub open spec fn rec_to_ok(id: PileId) -> bool {
    match id {
        PileId::Foundation(f) => f < 4,
        PileId::Tableau(t) => t < 7,
        _ => false,
    }
}

/// The record can be reversed in state `v`: its piles exist, the moved
/// cards are still on top of the destination, and a recorded reveal can be
/// undone by turning the origin's face-up top back down.
pub open spec fn undoable(v: StateView, r: MoveRecord) -> bool {
    match r {
        MoveRecord::Unit { from, to, count, revealed } => {
            &&& 1 <= count
            &&& rec_from_ok(from)
            &&& rec_to_ok(to)
            &&& from != to
            &&& pile_at(v, to).len() >= count
            &&& (from is Waste ==> count == 1 && !revealed)
            &&& (revealed ==> pile_at(v, from).len() >= 1 && pile_at(v, from).last().face_up)
        },
        MoveRecord::Draw => v.waste.len() >= 1,
        MoveRecord::Recycle => v.waste.len() == 0,
    }
}

/// The state one undo step before `v`, according to record `r`: the moved
/// cards return from the top of the destination to the top of the origin,
/// a recorded reveal is turned back down, a drawn card returns face down
/// to the stock, and a recycle turns the stock back into the waste.
pub open spec fn undo_view(v: StateView, r: MoveRecord) -> StateView {
    match r {
        MoveRecord::Unit { from, to, count, revealed } => {
            let tp = pile_at(v, to);
            let moved = tp.skip(tp.len() - count);
            let v1 = with_pile(v, to, tp.take(tp.len() - count));
            let fp = pile_at(v1, from);
            let fp1 = if revealed {
                fp.update(fp.len() - 1, face_down(fp.last()))
            } else {
                fp
            };
            let v2 = with_pile(v1, from, fp1 + moved);
            StateView { log: v.log.drop_last(), ..v2 }
        },
        MoveRecord::Draw => StateView {
            stock: v.stock.push(face_down(v.waste.last())),
            waste: v.waste.drop_last(),
            log: v.log.drop_last(),
            ..v
        },
        MoveRecord::Recycle => StateView {
            stock: Seq::empty(),
            waste: v.stock.reverse().map_values(|c: Card| face_up(c)),
            log: v.log.drop_last(),
            ..v
        },
    }
}

/// Undoes the most recent recorded move, restoring the exact previous
/// state: the moved cards return to their source pile, a revealed card is
/// turned face down again, a drawn card returns face down to the stock,
/// and a recycle is unwound back into the waste. On an empty log nothing
/// happens and `None` is returned.
pub fn undo(state: &mut GameState) -> (r: Option<()>)
    requires
        inv(old(state)@),
    ensures
        inv(final(state)@),
        old(state)@.log.len() == 0 ==> r is None && final(state)@ == old(state)@,
        old(state)@.log.len() > 0 ==> r is Some && final(state)@ == undo_view(
            old(state)@,
            old(state)@.log.last(),
        ),
{
    let ghost v0 = state@;
    match state.undo_log.pop() {
        None => {
            proof {
                assert(state@ =~= v0);
            }
            None
        },
        Some(rec) => {
            proof {
                assert(rec == v0.log.last());
                assert(undoable(v0, rec));
                assert(inv(undo_view(v0, rec)));
            }
            match rec {
                MoveRecord::Draw => {
                    let c = state.waste.pop().unwrap();
                    state.stock.push(Card { suit: c.suit, rank: c.rank, face_up: false });
                    proof {
                        assert(state@ =~= undo_view(v0, rec));
                    }
                    Some(())
                },
                MoveRecord::Recycle => {
                    while state.stock.len() > 0
                        invariant
                            state@.foundations == v0.foundations,
                            state@.tableaus == v0.tableaus,
                            state@.log == v0.log.drop_last(),
                            state@.stock.len() <= v0.stock.len(),
                            state@.stock =~= v0.stock.take(state@.stock.len() as int),
                            state@.waste =~= v0.stock.skip(
                                state@.stock.len() as int,
                            ).reverse().map_values(|c: Card| face_up(c)),
                        decreases state@.stock.len(),
                    {
                        let ghost k = state@.stock.len() as int;
                        let c = state.stock.pop().unwrap();
                        state.waste.push(Card { suit: c.suit, rank: c.rank, face_up: true });
                        proof {
                            assert(c == v0.stock[k - 1]);
                            assert(state@.stock =~= v0.stock.take(k - 1));
                            assert(state@.waste =~= v0.stock.skip(k - 1).reverse().map_values(
                                |c: Card| face_up(c),
                            ));
                        }
                    }
                    proof {
                        assert(state@ =~= undo_view(v0, rec));
                    }
                    Some(())
                },
                MoveRecord::Unit { from, to, count, revealed } => {
                    let ghost v1 = state@;
                    let moved = crate::state::detach_top(state, to, count);
                    proof {
                        crate::state::lemma_with_pile_preserves(
                            v1,
                            to,
                            pile_at(v1, to).take(pile_at(v1, to).len() - count as int),
                            from,
                        );
                    }
                    if revealed {
                        set_top_face(state, from, false);
                    }
                    crate::state::attach(state, from, moved);
                    proof {
                        assert(state@ =~= undo_view(v0, rec));
                    }
                    Some(())
                },
            }
        },
    }
}

} // verus!
