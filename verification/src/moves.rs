//! The move legality engine and executor: validating a proposed move,
//! applying it atomically, and recording it for undo.

use vstd::prelude::*;

use crate::card::Card;
use crate::card::face_up;
use crate::card::is_red_suit;
use crate::card::spec_is_red;
use crate::rules::can_place_on_foundation;
use crate::rules::is_face_up_run;
use crate::rules::spec_can_place_on_foundation;
use crate::rules::tableau_stacks_on;
use crate::rules::valid_run;
use crate::state::GameState;
use crate::state::MoveRecord;
use crate::state::PileId;
use crate::state::StateView;
use crate::state::attach;
use crate::state::clone_top;
use crate::state::count_in;
use crate::state::detach_top;
use crate::state::foundation_ok;
use crate::state::inv;
use crate::state::lemma_count_concat;
use crate::state::lemma_count_split;
use crate::state::lemma_count_update;
use crate::state::lemma_total_with_pile;
use crate::state::lemma_with_pile_at;
use crate::state::lemma_with_pile_preserves;
use crate::state::pile_at;
use crate::state::pile_cards_ok;
use crate::state::pile_len;
use crate::state::read_card;
use crate::state::set_top_face;
use crate::state::shape_ok;
use crate::state::tableau_ok;
use crate::state::total_count;
use crate::state::wf;
use crate::state::with_pile;
use crate::undo::undo_view;
use crate::undo::undoable;

verus! {

/// Why a proposed move was rejected. Rejections are routine and leave the
/// state untouched.
#[derive(Clone, Copy, PartialEq, Eq, Structural, Debug)]
pub enum MoveRejected {
    WrongRank,
    WrongColor,
    EmptyPileRequiresKing,
    FoundationRequiresSameSuitSucc,
    FoundationSingleCardOnly,
    NotTopOfStack,
    TargetFaceDown,
    RunNotValidSequence,
}

/// Identifies the cards a move wants to carry: everything from position
/// `index` (counted from the bottom) to the top of the `source` pile. For
/// the waste, `index` must name the top card.
#[derive(Clone, Copy, PartialEq, Eq, Structural, Debug)]
pub struct MovingUnit {
    pub source: PileId,
    pub index: usize,
}

/// A unit may only come from the waste or from a tableau pile.
pub open spec fn unit_source_ok(u: MovingUnit) -> bool {
    match u.source {
        PileId::Waste => true,
        PileId::Tableau(t) => t < 7,
        _ => false,
    }
}

/// A unit may only go to a foundation or to a tableau pile other than its
/// own.
pub open spec fn dest_ok_for(u: MovingUnit, dest: PileId) -> bool {
    match dest {
        PileId::Foundation(f) => f < 4,
        PileId::Tableau(t) => t < 7 && u.source != PileId::Tableau(t),
        _ => false,
    }
}

/// The unit names an existing position: for the waste its top card, for a
/// tableau pile any position within the pile.
pub open spec fn unit_in_range(v: StateView, u: MovingUnit) -> bool {
    match u.source {
        PileId::Waste => v.waste.len() > 0 && u.index == v.waste.len() - 1,
        PileId::Tableau(t) => u.index < v.tableaus[t as int].len(),
        _ => false,
    }
}

/// The cards the unit would carry, from its lead card at the bottom to the
/// pile's top card.
pub open spec fn unit_cards(v: StateView, u: MovingUnit) -> Seq<Card> {
    pile_at(v, u.source).skip(u.index as int)
}

/// Why the move of `u` to `dest` is rejected, or `None` when it is legal.
/// The checks run in a fixed order: the unit must exist, must be a valid
/// face-up run, and must be acceptable to the destination.
pub open spec fn move_error(v: StateView, u: MovingUnit, dest: PileId) -> Option<MoveRejected> {
    if !unit_in_range(v, u) {
        Some(MoveRejected::NotTopOfStack)
    } else if !valid_run(unit_cards(v, u)) {
        Some(MoveRejected::RunNotValidSequence)
    } else {
        let cards = unit_cards(v, u);
        let lead = cards[0];
        match dest {
            PileId::Foundation(f) => {
                if cards.len() > 1 {
                    Some(MoveRejected::FoundationSingleCardOnly)
                } else if !spec_can_place_on_foundation(lead, v.foundations[f as int]) {
                    Some(MoveRejected::FoundationRequiresSameSuitSucc)
                } else {
                    None
                }
            },
            PileId::Tableau(t) => {
                let p = v.tableaus[t as int];
                if p.len() == 0 {
                    if lead.rank == 13 {
                        None
                    } else {
                        Some(MoveRejected::EmptyPileRequiresKing)
                    }
                } else {
                    let top = p.last();
                    if !top.face_up {
                        Some(MoveRejected::TargetFaceDown)
                    } else if lead.rank + 1 != top.rank {
                        Some(MoveRejected::WrongRank)
                    } else if spec_is_red(lead.suit) == spec_is_red(top.suit) {
                        Some(MoveRejected::WrongColor)
                    } else {
                        None
                    }
                }
            },
            _ => Some(MoveRejected::NotTopOfStack),
        }
    }
}

/// Whether executing the move exposes a face-down card at the top of the
/// source pile, which the executor then turns face up.
pub open spec fn move_revealed(v: StateView, u: MovingUnit) -> bool {
    match u.source {
        PileId::Tableau(t) => u.index > 0 && !v.tableaus[t as int][u.index - 1].face_up,
        _ => false,
    }
}

/// The record a successful move of `u` to `dest` produces.
pub open spec fn move_record_of(v: StateView, u: MovingUnit, dest: PileId) -> MoveRecord {
    MoveRecord::Unit {
        from: u.source,
        to: dest,
        count: (pile_at(v, u.source).len() - u.index) as usize,
        revealed: move_revealed(v, u),
    }
}

/// The state after a legal move of `u` to `dest`: the unit leaves the
/// source pile, an exposed face-down card there turns face up, the unit
/// lands on the destination in order, and the record is logged.
pub open spec fn move_dest_view(v: StateView, u: MovingUnit, dest: PileId) -> StateView {
    let cards = unit_cards(v, u);
    let src = pile_at(v, u.source);
    let kept = src.take(u.index as int);
    let kept2 = if move_revealed(v, u) {
        kept.update(u.index - 1, face_up(kept.last()))
    } else {
        kept
    };
    let v1 = with_pile(v, u.source, kept2);
    let v2 = with_pile(v1, dest, pile_at(v1, dest) + cards);
    StateView { log: v.log.push(move_record_of(v, u, dest)), ..v2 }
}

/// What `attempt_move` does to state `v`: the error and the unchanged
/// state, or the new state and the record of the move.
pub open spec fn move_result(v: StateView, u: MovingUnit, dest: PileId) -> Result<
    (StateView, MoveRecord),
    MoveRejected,
> {
    match move_error(v, u, dest) {
        Some(e) => Err(e),
        None => Ok((move_dest_view(v, u, dest), move_record_of(v, u, dest))),
    }
}

/// The game is won when every foundation holds its full thirteen cards.
pub open spec fn spec_game_won(v: StateView) -> bool {
    forall|f: int| 0 <= f < 4 ==> (#[trigger] v.foundations[f]).len() == 13
}

/// Returns whether all four foundations are complete.
pub fn is_game_won(state: &GameState) -> (r: bool)
    requires
        shape_ok(state@),
    ensures
        r == spec_game_won(state@),
{
    let mut f: usize = 0;
    while f < 4
        invariant
            f <= 4,
            shape_ok(state@),
            forall|g: int| 0 <= g < f ==> (#[trigger] state@.foundations[g]).len() == 13,
        decreases 4 - f,
    {
        if state.foundations[f].len() != 13 {
            proof {
                assert(state@.foundations[f as int] == state.foundations@[f as int]@);
            }
            return false;
        }
        f += 1;
    }
    true
}

/// A prefix of a well-formed tableau pile is well formed.
proof fn lemma_tableau_take(p: Seq<Card>, i: int)
    requires
        tableau_ok(p),
        0 <= i <= p.len(),
    ensures
        tableau_ok(p.take(i)),
{
    let q = p.take(i);
    assert forall|a: int, b: int|
        0 <= a < b < q.len() && (#[trigger] q[a]).face_up implies (#[trigger] q[b]).face_up by {
        assert(p[a].face_up);
        assert(p[b].face_up);
    };
    assert forall|a: int|
        0 <= a < q.len() - 1 && (#[trigger] q[a]).face_up implies tableau_stacks_on(
        q[a + 1],
        q[a],
    ) by {
        assert(p[a].face_up);
        assert(tableau_stacks_on(p[a + 1], p[a]));
    };
}

/// Turning the top card of a well-formed tableau pile face up keeps the
/// pile well formed, provided that card was face down.
proof fn lemma_tableau_flip_top(p: Seq<Card>)
    requires
        tableau_ok(p),
        p.len() > 0,
        !p.last().face_up,
    ensures
        tableau_ok(p.update(p.len() - 1, face_up(p.last()))),
{
    let n = p.len() as int;
    let q = p.update(n - 1, face_up(p.last()));
    // no card below the top is face up, else contiguity would make the
    // top face up as well
    assert forall|a: int| 0 <= a < n - 1 implies !(#[trigger] p[a]).face_up by {
        if p[a].face_up {
            assert(p[n - 1].face_up);
        }
    };
    assert forall|a: int, b: int|
        0 <= a < b < q.len() && (#[trigger] q[a]).face_up implies (#[trigger] q[b]).face_up by {
        assert(b == n - 1);
    };
}

/// Appending a valid run to a well-formed tableau pile keeps it well
/// formed when the boundary is legal: the pile is empty, or its top card
/// is face up and carries the run's lead card.
proof fn lemma_tableau_append(p: Seq<Card>, run: Seq<Card>)
    requires
        tableau_ok(p),
        valid_run(run),
        p.len() > 0 ==> p.last().face_up && (run.len() > 0 ==> tableau_stacks_on(
            run[0],
            p.last(),
        )),
    ensures
        tableau_ok(p + run),
{
    let q = p + run;
    let n = p.len() as int;
    assert forall|a: int, b: int|
        0 <= a < b < q.len() && (#[trigger] q[a]).face_up implies (#[trigger] q[b]).face_up by {
        if b < n {
            assert(p[a].face_up);
            assert(p[b].face_up);
        } else if a >= n {
            assert(run[b - n].face_up);
        } else {
            assert(run[b - n].face_up);
        }
    };
    assert forall|a: int|
        0 <= a < q.len() - 1 && (#[trigger] q[a]).face_up implies tableau_stacks_on(
        q[a + 1],
        q[a],
    ) by {
        if a < n - 1 {
            assert(p[a].face_up);
            assert(tableau_stacks_on(p[a + 1], p[a]));
        } else if a == n - 1 {
            assert(q[a] == p.last());
            assert(q[a + 1] == run[0]);
        } else {
            assert(q[a] == run[a - n]);
            assert(q[a + 1] == run[a + 1 - n]);
            assert(tableau_stacks_on(run[a - n + 1], run[a - n]));
        }
    };
}

/// Splitting a pile whose ranks are in range leaves both parts with
/// their ranks in range.
proof fn lemma_cards_of_pile_ok(src: Seq<Card>, idx: int)
    requires
        pile_cards_ok(src),
        0 <= idx <= src.len(),
    ensures
        pile_cards_ok(src.skip(idx)),
        pile_cards_ok(src.take(idx)),
{
    let run = src.skip(idx);
    let kept = src.take(idx);
    assert forall|i: int| 0 <= i < run.len() implies crate::card::card_ok(#[trigger] run[i]) by {
        assert(run[i] == src[idx + i]);
        assert(crate::card::card_ok(src[idx + i]));
    };
    assert forall|i: int| 0 <= i < kept.len() implies crate::card::card_ok(#[trigger] kept[i]) by {
        assert(crate::card::card_ok(src[i]));
    };
}

/// The source pile of a legal tableau move stays well formed once the
/// unit is removed and an exposed face-down top is turned up.
proof fn lemma_source_tableau_ok(src: Seq<Card>, idx: int, revealed: bool)
    requires
        tableau_ok(src),
        pile_cards_ok(src),
        0 <= idx <= src.len(),
        revealed ==> idx > 0 && !src[idx - 1].face_up,
    ensures
        ({
            let kept = src.take(idx);
            let kept2 = if revealed {
                kept.update(idx - 1, face_up(kept.last()))
            } else {
                kept
            };
            tableau_ok(kept2) && pile_cards_ok(kept2)
        }),
{
    let kept = src.take(idx);
    let kept2 = if revealed {
        kept.update(idx - 1, face_up(kept.last()))
    } else {
        kept
    };
    lemma_tableau_take(src, idx);
    lemma_cards_of_pile_ok(src, idx);
    if revealed {
        assert(kept.last() == src[idx - 1]);
        lemma_tableau_flip_top(kept);
        assert(kept2 =~= kept.update(kept.len() - 1, face_up(kept.last())));
        assert forall|i: int| 0 <= i < kept2.len() implies crate::card::card_ok(
            #[trigger] kept2[i],
        ) by {
            assert(crate::card::card_ok(kept[i]));
        };
    }
}

/// A legal move leads to a well-formed state.
#[verifier::rlimit(100)]
proof fn lemma_move_wf(v: StateView, u: MovingUnit, dest: PileId)
    requires
        wf(v),
        unit_source_ok(u),
        dest_ok_for(u, dest),
        move_error(v, u, dest) is None,
    ensures
        wf(move_dest_view(v, u, dest)),
{
    let cards = unit_cards(v, u);
    let src = pile_at(v, u.source);
    let idx = u.index as int;
    let kept = src.take(idx);
    let revealed = move_revealed(v, u);
    let kept2 = if revealed {
        kept.update(idx - 1, face_up(kept.last()))
    } else {
        kept
    };
    let v1 = with_pile(v, u.source, kept2);
    let dp = pile_at(v, dest);
    let rec = move_record_of(v, u, dest);
    let count = src.len() - idx;
    let vfin = move_dest_view(v, u, dest);

    lemma_with_pile_preserves(v, u.source, kept2, dest);
    lemma_with_pile_at(v, u.source, kept2);
    assert(pile_at(v1, dest) == dp);
    let v2 = with_pile(v1, dest, dp + cards);
    assert(vfin == StateView { log: v.log.push(rec), ..v2 });

    assert(valid_run(cards));
    assert(cards.len() == count);
    assert(1 <= count);
    let lead = cards[0];
    assert(lead == src[idx]);

    // the source pile's well-formedness facts
    let source_pile_ok = match u.source {
        PileId::Waste => true,
        PileId::Tableau(ts) => {
            assert(tableau_ok(src) && pile_cards_ok(src));
            lemma_source_tableau_ok(src, idx, revealed);
            true
        },
        _ => false,
    };
    assert(source_pile_ok);
    lemma_cards_of_pile_ok(src, idx);
    assert(pile_cards_ok(cards));
    assert(pile_cards_ok(kept));

    // === the 52-card partition is preserved ===
    assert forall|ident: int| total_count(vfin, ident) == total_count(v, ident) by {
        lemma_count_split(src, idx, ident);
        if revealed {
            assert(crate::card::card_ident(face_up(kept.last())) == crate::card::card_ident(
                kept.last(),
            ));
            lemma_count_update(kept, idx - 1, face_up(kept.last()), ident);
        }
        lemma_total_with_pile(v, u.source, kept2, ident);
        lemma_total_with_pile(v1, dest, dp + cards, ident);
        lemma_count_concat(dp, cards, ident);
        assert(total_count(vfin, ident) == total_count(v2, ident));
    };

    // === the destination pile stays well formed ===
    match dest {
        PileId::Foundation(f) => {
            assert(cards.len() == 1);
            assert(dp + cards =~= dp.push(lead));
            assert(spec_can_place_on_foundation(lead, dp));
            assert(lead.face_up);
            lemma_foundation_push(dp, lead);
            assert(foundation_ok(dp + cards));
            assert forall|i: int| 0 <= i < (dp + cards).len() implies crate::card::card_ok(
                #[trigger] (dp + cards)[i],
            ) by {
                if i < dp.len() {
                    assert(crate::card::card_ok(dp[i]));
                } else {
                    assert((dp + cards)[i] == cards[i - dp.len()]);
                }
            };
        },
        PileId::Tableau(t) => {
            assert(tableau_ok(dp));
            if dp.len() > 0 {
                assert(dp.last().face_up);
                assert(tableau_stacks_on(lead, dp.last()));
            }
            lemma_tableau_append(dp, cards);
            assert(tableau_ok(dp + cards));
            assert forall|i: int| 0 <= i < (dp + cards).len() implies crate::card::card_ok(
                #[trigger] (dp + cards)[i],
            ) by {
                if i < dp.len() {
                    assert(crate::card::card_ok(dp[i]));
                } else {
                    assert((dp + cards)[i] == cards[i - dp.len()]);
                }
            };
        },
        _ => {
            assert(false);
        },
    }

    // === well-formedness of the new state, per field ===
    assert(wf(vfin)) by {
        assert(vfin.foundations.len() == 4);
        assert(vfin.tableaus.len() == 7);
        assert(crate::state::cards_partition(vfin));
        assert(pile_cards_ok(vfin.stock));
        assert(pile_cards_ok(vfin.waste));
        assert forall|f: int|
            0 <= f < 4 implies pile_cards_ok(#[trigger] vfin.foundations[f]) && foundation_ok(
            vfin.foundations[f],
        ) by {
            if dest == PileId::Foundation(f as usize) {
                assert(vfin.foundations[f] == dp + cards);
            } else {
                assert(vfin.foundations[f] == v.foundations[f]);
            }
        };
        assert forall|t: int|
            0 <= t < 7 implies pile_cards_ok(#[trigger] vfin.tableaus[t]) && tableau_ok(
            vfin.tableaus[t],
        ) by {
            if dest == PileId::Tableau(t as usize) {
                assert(vfin.tableaus[t] == dp + cards);
            } else if u.source == PileId::Tableau(t as usize) {
                assert(vfin.tableaus[t] == kept2);
            } else {
                assert(vfin.tableaus[t] == v.tableaus[t]);
            }
        };
        assert forall|i: int| 0 <= i < vfin.stock.len() implies !(#[trigger] vfin.stock[i]).face_up
            by {
            assert(vfin.stock == v.stock);
        };
        assert forall|i: int| 0 <= i < vfin.waste.len() implies (#[trigger] vfin.waste[i]).face_up
            by {
            if u.source == PileId::Waste {
                assert(vfin.waste == kept);
                assert(kept[i] == v.waste[i]);
            } else {
                assert(vfin.waste == v.waste);
            }
        };
    };
}

/// A legal move preserves the full invariant, and its record reverses it
/// exactly: undoing the move restores precisely the state it started from.
#[verifier::rlimit(100)]
pub proof fn lemma_move_ok(v: StateView, u: MovingUnit, dest: PileId)
    requires
        inv(v),
        unit_source_ok(u),
        dest_ok_for(u, dest),
        move_error(v, u, dest) is None,
    ensures
        inv(move_dest_view(v, u, dest)),
        undoable(move_dest_view(v, u, dest), move_record_of(v, u, dest)),
        undo_view(move_dest_view(v, u, dest), move_record_of(v, u, dest)) == v,
{
    let cards = unit_cards(v, u);
    let src = pile_at(v, u.source);
    let idx = u.index as int;
    let kept = src.take(idx);
    let revealed = move_revealed(v, u);
    let kept2 = if revealed {
        kept.update(idx - 1, face_up(kept.last()))
    } else {
        kept
    };
    let v1 = with_pile(v, u.source, kept2);
    let dp = pile_at(v, dest);
    let rec = move_record_of(v, u, dest);
    let count = src.len() - idx;
    let vfin = move_dest_view(v, u, dest);

    lemma_with_pile_preserves(v, u.source, kept2, dest);
    lemma_with_pile_at(v, u.source, kept2);
    assert(pile_at(v1, dest) == dp);
    let v2 = with_pile(v1, dest, dp + cards);
    assert(vfin == StateView { log: v.log.push(rec), ..v2 });

    assert(valid_run(cards));
    assert(cards.len() == count);
    assert(1 <= count);

    lemma_move_wf(v, u, dest);

    // === the record can be reversed ===
    assert(pile_at(vfin, dest) == dp + cards);
    assert(pile_at(vfin, u.source) == kept2);
    assert(undoable(vfin, rec));

    // === reversing restores the old state exactly ===
    let tp = pile_at(vfin, dest);
    assert(tp.skip(tp.len() - count) =~= cards);
    assert(tp.take(tp.len() - count) =~= dp);
    let w1 = with_pile(vfin, dest, dp);
    lemma_with_pile_preserves(vfin, dest, dp, u.source);
    assert(pile_at(w1, u.source) == kept2);
    let fp1 = if revealed {
        kept2.update(kept2.len() - 1, crate::card::face_down(kept2.last()))
    } else {
        kept2
    };
    if revealed {
        assert(kept2.len() == idx);
        assert(kept2.last() == face_up(src[idx - 1]));
        assert(crate::card::face_down(kept2.last()) == src[idx - 1]);
        assert(fp1 =~= kept);
    }
    assert(fp1 + cards =~= src);
    assert(undo_view(vfin, rec) =~= v);

    // === the invariant carries over ===
    assert(vfin.log.last() == rec);
    assert(inv(vfin));
}

/// Attempts to move the unit `unit` onto the pile `dest`, returning the
/// record of the move on success. A rejected move returns its reason and
/// changes nothing; a successful move removes the unit from its source
/// pile, turns a newly exposed face-down source top face up, appends the
/// unit to the destination and logs the record — exactly as `move_result`
/// describes.
pub fn attempt_move(state: &mut GameState, unit: MovingUnit, dest: PileId) -> (r: Result<
    MoveRecord,
    MoveRejected,
>)
    requires
        inv(old(state)@),
        unit_source_ok(unit),
        dest_ok_for(unit, dest),
    ensures
        inv(final(state)@),
        match r {
            Ok(rec) => move_result(old(state)@, unit, dest) == Ok::<
                (StateView, MoveRecord),
                MoveRejected,
            >((final(state)@, rec)),
            Err(e) => move_error(old(state)@, unit, dest) == Some(e) && final(state)@ == old(state)@,
        },
{
    let ghost v0 = state@;
    let src_len = pile_len(state, unit.source);
    let in_range = match unit.source {
        PileId::Waste => src_len > 0 && unit.index == src_len - 1,
        PileId::Tableau(_) => unit.index < src_len,
        _ => false,
    };
    if !in_range {
        return Err(MoveRejected::NotTopOfStack);
    }
    let cards_probe = clone_top(state, unit.source, unit.index);
    if !is_face_up_run(&cards_probe) {
        return Err(MoveRejected::RunNotValidSequence);
    }
    let lead = cards_probe[0];
    let count = src_len - unit.index;
    proof {
        assert(lead == unit_cards(v0, unit)[0]);
        assert(count == unit_cards(v0, unit).len());
    }
    match dest {
        PileId::Foundation(f) => {
            if count > 1 {
                return Err(MoveRejected::FoundationSingleCardOnly);
            }
            proof {
                assert(state.foundations@[f as int]@ == v0.foundations[f as int]);
            }
            if !can_place_on_foundation(&lead, &state.foundations[f]) {
                return Err(MoveRejected::FoundationRequiresSameSuitSucc);
            }
        },
        PileId::Tableau(t) => {
            proof {
                assert(state.tableaus@[t as int]@ == v0.tableaus[t as int]);
            }
            let plen = state.tableaus[t].len();
            if plen == 0 {
                if lead.rank != 13 {
                    return Err(MoveRejected::EmptyPileRequiresKing);
                }
            } else {
                let top = state.tableaus[t][plen - 1];
                if !top.face_up {
                    return Err(MoveRejected::TargetFaceDown);
                }
                if lead.rank as u16 + 1 != top.rank as u16 {
                    return Err(MoveRejected::WrongRank);
                }
                if is_red_suit(lead.suit) == is_red_suit(top.suit) {
                    return Err(MoveRejected::WrongColor);
                }
            }
        },
        _ => {
            return Err(MoveRejected::NotTopOfStack);
        },
    }
    proof {
        assert(move_error(v0, unit, dest) is None);
    }
    let moved = detach_top(state, unit.source, count);
    let revealed = match unit.source {
        PileId::Tableau(_) => {
            if unit.index > 0 {
                let below = read_card(state, unit.source, unit.index - 1);
                if !below.face_up {
                    set_top_face(state, unit.source, true);
                    true
                } else {
                    false
                }
            } else {
                false
            }
        },
        _ => false,
    };
    proof {
        assert(revealed == move_revealed(v0, unit));
        assert(state@ =~= with_pile(
            v0,
            unit.source,
            if move_revealed(v0, unit) {
                pile_at(v0, unit.source).take(unit.index as int).update(
                    unit.index - 1,
                    face_up(pile_at(v0, unit.source).take(unit.index as int).last()),
                )
            } else {
                pile_at(v0, unit.source).take(unit.index as int)
            },
        ));
        lemma_with_pile_preserves(
            v0,
            unit.source,
            pile_at(state@, unit.source),
            dest,
        );
    }
    attach(state, dest, moved);
    let rec = MoveRecord::Unit { from: unit.source, to: dest, count, revealed };
    state.undo_log.push(rec);
    proof {
        assert(rec == move_record_of(v0, unit, dest));
        assert(state@ =~= move_dest_view(v0, unit, dest));
        lemma_move_ok(v0, unit, dest);
    }
    Ok(rec)
}

/// The state after one card is dealt from a non-empty stock: the stock's
/// top card moves to the top of the waste, turned face up, and a `Draw`
/// record is logged.
pub open spec fn draw_view(v: StateView) -> StateView {
    StateView {
        stock: v.stock.drop_last(),
        waste: v.waste.push(face_up(v.stock.last())),
        log: v.log.push(MoveRecord::Draw),
        ..v
    }
}

/// The state after the waste is recycled into an empty stock: the waste is
/// reversed and turned face down — so the next draws repeat the original
/// deal order — and a `Recycle` record is logged.
pub open spec fn recycle_view(v: StateView) -> StateView {
    StateView {
        stock: v.waste.reverse().map_values(|c: Card| crate::card::face_down(c)),
        waste: Seq::empty(),
        log: v.log.push(MoveRecord::Recycle),
        ..v
    }
}

/// Dealing a card preserves the invariant, and the `Draw` record reverses
/// it exactly.
proof fn lemma_draw_ok(v: StateView)
    requires
        inv(v),
        v.stock.len() > 0,
    ensures
        inv(draw_view(v)),
        undo_view(draw_view(v), MoveRecord::Draw) == v,
{
    let c = v.stock.last();
    let vd = draw_view(v);
    assert forall|ident: int| total_count(vd, ident) == total_count(v, ident) by {
        lemma_count_split(v.stock, v.stock.len() - 1, ident);
        assert(count_in(v.stock.skip(v.stock.len() - 1), ident) == if crate::card::card_ident(c)
            == ident {
            1int
        } else {
            0int
        }) by {
            assert(v.stock.skip(v.stock.len() - 1).drop_last() =~= Seq::<Card>::empty());
            assert(v.stock.skip(v.stock.len() - 1).last() == c);
        };
        crate::state::lemma_count_push(v.waste, face_up(c), ident);
        assert(vd.stock == v.stock.drop_last());
        assert(v.stock.drop_last() =~= v.stock.take(v.stock.len() - 1));
    };
    assert(wf(vd)) by {
        assert forall|i: int| 0 <= i < vd.stock.len() implies !(#[trigger] vd.stock[i]).face_up by {
            assert(vd.stock[i] == v.stock[i]);
        };
        assert forall|i: int| 0 <= i < vd.waste.len() implies (#[trigger] vd.waste[i]).face_up by {
            if i < v.waste.len() {
                assert(vd.waste[i] == v.waste[i]);
            }
        };
        assert forall|i: int| 0 <= i < vd.stock.len() implies crate::card::card_ok(
            #[trigger] vd.stock[i],
        ) by {
            assert(vd.stock[i] == v.stock[i]);
        };
        assert forall|i: int| 0 <= i < vd.waste.len() implies crate::card::card_ok(
            #[trigger] vd.waste[i],
        ) by {
            if i < v.waste.len() {
                assert(vd.waste[i] == v.waste[i]);
            } else {
                assert(crate::card::card_ok(c));
            }
        };
    };
    assert(undoable(vd, MoveRecord::Draw));
    assert(vd.waste.last() == face_up(c));
    assert(!c.face_up);
    assert(crate::card::face_down(face_up(c)) == c);
    assert(vd.stock.push(c) =~= v.stock);
    assert(vd.waste.drop_last() =~= v.waste);
    assert(undo_view(vd, MoveRecord::Draw) =~= v);
    assert(inv(vd));
}

/// Recycling the waste into an empty stock preserves the invariant, and
/// the `Recycle` record reverses it exactly.
proof fn lemma_recycle_ok(v: StateView)
    requires
        inv(v),
        v.stock.len() == 0,
        v.waste.len() > 0,
    ensures
        inv(recycle_view(v)),
        undo_view(recycle_view(v), MoveRecord::Recycle) == v,
{
    let vr = recycle_view(v);
    let rev = v.waste.reverse();
    assert(vr.stock.len() == v.waste.len());
    assert forall|ident: int| total_count(vr, ident) == total_count(v, ident) by {
        crate::state::lemma_count_reverse(v.waste, ident);
        crate::state::lemma_count_same_idents(rev, vr.stock, ident);
    };
    assert(wf(vr)) by {
        assert forall|i: int| 0 <= i < vr.stock.len() implies !(#[trigger] vr.stock[i]).face_up
            && crate::card::card_ok(vr.stock[i]) by {
            assert(vr.stock[i] == crate::card::face_down(rev[i]));
            assert(rev[i] == v.waste[v.waste.len() - 1 - i]);
            assert(crate::card::card_ok(v.waste[v.waste.len() - 1 - i]));
        };
    };
    assert(undoable(vr, MoveRecord::Recycle));
    assert(undo_view(vr, MoveRecord::Recycle).waste =~= v.waste) by {
        let back = vr.stock.reverse().map_values(|c: Card| face_up(c));
        assert forall|i: int| 0 <= i < v.waste.len() implies back[i] == v.waste[i] by {
            assert(vr.stock.reverse()[i] == vr.stock[vr.stock.len() - 1 - i]);
            assert(vr.stock[vr.stock.len() - 1 - i] == crate::card::face_down(
                rev[vr.stock.len() - 1 - i],
            ));
            assert(rev[vr.stock.len() - 1 - i] == v.waste[i]);
            assert(v.waste[i].face_up);
        };
    };
    assert(undo_view(vr, MoveRecord::Recycle) =~= v);
    assert(inv(vr));
}

/// Turns the waste, reversed and face down, back into the stock and logs
/// the recycle. Only called with an empty stock and a non-empty waste.
fn recycle_into_stock(state: &mut GameState)
    requires
        inv(old(state)@),
        old(state)@.stock.len() == 0,
        old(state)@.waste.len() > 0,
    ensures
        inv(final(state)@),
        final(state)@ == recycle_view(old(state)@),
{
    let ghost v0 = state@;
    while state.waste.len() > 0
        invariant
            state@.foundations == v0.foundations,
            state@.tableaus == v0.tableaus,
            state@.log == v0.log,
            state@.waste.len() <= v0.waste.len(),
            state@.waste =~= v0.waste.take(state@.waste.len() as int),
            state@.stock =~= v0.waste.skip(state@.waste.len() as int).reverse().map_values(
                |c: Card| crate::card::face_down(c),
            ),
        decreases state@.waste.len(),
    {
        let ghost k = state@.waste.len() as int;
        let c = state.waste.pop().unwrap();
        state.stock.push(Card { suit: c.suit, rank: c.rank, face_up: false });
        proof {
            assert(c == v0.waste[k - 1]);
            assert(state@.waste =~= v0.waste.take(k - 1));
            assert(state@.stock =~= v0.waste.skip(k - 1).reverse().map_values(
                |c: Card| crate::card::face_down(c),
            ));
        }
    }
    state.undo_log.push(MoveRecord::Recycle);
    proof {
        assert(state@ =~= recycle_view(v0));
        lemma_recycle_ok(v0);
    }
}

/// Draws one card: with a non-empty stock, its top card moves face up to
/// the waste and is returned. With an empty stock and a non-empty waste,
/// the waste is recycled — reversed, face down — into the stock, keeping
/// the original deal order for the next pass, and nothing is returned.
/// With both piles empty, nothing happens.
pub fn draw_from_stock(state: &mut GameState) -> (r: Option<Card>)
    requires
        inv(old(state)@),
    ensures
        inv(final(state)@),
        old(state)@.stock.len() > 0 ==> r == Some(face_up(old(state)@.stock.last()))
            && final(state)@ == draw_view(old(state)@),
        old(state)@.stock.len() == 0 && old(state)@.waste.len() > 0 ==> r is None && final(state)@ == recycle_view(old(state)@),
        old(state)@.stock.len() == 0 && old(state)@.waste.len() == 0 ==> r is None && final(state)@ == old(state)@,
{
    let ghost v0 = state@;
    match state.stock.pop() {
        Some(c) => {
            let dealt = Card { suit: c.suit, rank: c.rank, face_up: true };
            state.waste.push(dealt);
            state.undo_log.push(MoveRecord::Draw);
            proof {
                assert(dealt == face_up(v0.stock.last()));
                assert(state@ =~= draw_view(v0));
                lemma_draw_ok(v0);
            }
            Some(dealt)
        },
        None => {
            if state.waste.len() > 0 {
                recycle_into_stock(state);
            } else {
                proof {
                    assert(state@ =~= v0);
                }
            }
            None
        },
    }
}

/// Recycles the waste into the stock: performed only when the stock is
/// empty and the waste is not; otherwise nothing happens. The waste is
/// reversed and turned face down, preserving the original deal order, and
/// never shuffled.
pub fn recycle_waste_to_stock(state: &mut GameState)
    requires
        inv(old(state)@),
    ensures
        inv(final(state)@),
        old(state)@.stock.len() == 0 && old(state)@.waste.len() > 0 ==> final(state)@
            == recycle_view(old(state)@),
        !(old(state)@.stock.len() == 0 && old(state)@.waste.len() > 0) ==> final(state)@ == old(state)@,
{
    if state.stock.len() == 0 && state.waste.len() > 0 {
        recycle_into_stock(state);
    }
}

/// The unit a double click selects: the single top card of the clicked
/// pile.
pub open spec fn dclick_unit(v: StateView, source: PileId) -> MovingUnit {
    MovingUnit { source, index: (pile_at(v, source).len() - 1) as usize }
}

/// The first tableau pile from `t` on, other than the source pile, that
/// legally accepts the clicked card; `None` when none does.
pub open spec fn first_tableau_dest(v: StateView, source: PileId, t: int) -> Option<int>
    decreases 7 - t,
{
    if t < 0 || t >= 7 {
        None
    } else if source != PileId::Tableau(t as usize) && move_error(
        v,
        dclick_unit(v, source),
        PileId::Tableau(t as usize),
    ) is None {
        Some(t)
    } else {
        first_tableau_dest(v, source, t + 1)
    }
}

/// Where a double click on the top card of `source` sends it: first its
/// suit's foundation, then the tableau piles in order; `None` when no
/// placement is legal or the pile is empty.
pub open spec fn dclick_dest(v: StateView, source: PileId) -> Option<PileId> {
    if pile_at(v, source).len() == 0 {
        None
    } else {
        let u = dclick_unit(v, source);
        let c = pile_at(v, source).last();
        let fdest = PileId::Foundation(crate::card::suit_index(c.suit) as usize);
        if move_error(v, u, fdest) is None {
            Some(fdest)
        } else {
            match first_tableau_dest(v, source, 0) {
                Some(t) => Some(PileId::Tableau(t as usize)),
                None => None,
            }
        }
    }
}

/// Handles a double click on the top card of the waste or of a tableau
/// pile: tries the card's own-suit foundation first, then the tableau
/// piles in order, and performs the first legal move. With no legal
/// target — or an empty pile — nothing happens.
pub fn double_click_auto_move(state: &mut GameState, source: PileId) -> (r: Option<MoveRecord>)
    requires
        inv(old(state)@),
        match source {
            PileId::Waste => true,
            PileId::Tableau(t) => t < 7,
            _ => false,
        },
    ensures
        inv(final(state)@),
        match dclick_dest(old(state)@, source) {
            None => r is None && final(state)@ == old(state)@,
            Some(d) => r matches Some(rec) && move_result(
                old(state)@,
                dclick_unit(old(state)@, source),
                d,
            ) == Ok::<(StateView, MoveRecord), MoveRejected>((final(state)@, rec)),
        },
{
    let ghost v0 = state@;
    let n = pile_len(state, source);
    if n == 0 {
        return None;
    }
    let top = read_card(state, source, n - 1);
    let unit = MovingUnit { source, index: n - 1 };
    proof {
        assert(unit == dclick_unit(v0, source));
    }
    let findex: usize = match top.suit {
        crate::card::Suit::Hearts => 0,
        crate::card::Suit::Diamonds => 1,
        crate::card::Suit::Clubs => 2,
        crate::card::Suit::Spades => 3,
    };
    let fdest = PileId::Foundation(findex);
    proof {
        assert(findex as int == crate::card::suit_index(top.suit));
    }
    match attempt_move(state, unit, fdest) {
        Ok(rec) => {
            proof {
                assert(top == pile_at(v0, source).last());
                assert(dclick_dest(v0, source) == Some(fdest));
            }
            return Some(rec);
        },
        Err(_) => {},
    }
    let mut t: usize = 0;
    while t < 7
        invariant
            t <= 7,
            v0 == old(state)@,
            state@ == v0,
            inv(v0),
            n == pile_at(v0, source).len(),
            n > 0,
            unit == dclick_unit(v0, source),
            unit_source_ok(unit),
            move_error(v0, unit, fdest) is Some,
            fdest == PileId::Foundation(crate::card::suit_index(pile_at(v0, source).last().suit) as usize),
            first_tableau_dest(v0, source, 0) == first_tableau_dest(v0, source, t as int),
        decreases 7 - t,
    {
        if source != PileId::Tableau(t) {
            match attempt_move(state, unit, PileId::Tableau(t)) {
                Ok(rec) => {
                    proof {
                        assert(first_tableau_dest(v0, source, t as int) == Some(t as int));
                        assert(first_tableau_dest(v0, source, 0) == Some(t as int));
                        assert(dclick_dest(v0, source) == Some(PileId::Tableau(t)));
                    }
                    return Some(rec);
                },
                Err(_) => {
                    proof {
                        assert(first_tableau_dest(v0, source, t as int) == first_tableau_dest(
                            v0,
                            source,
                            t as int + 1,
                        ));
                    }
                },
            }
        } else {
            proof {
                assert(first_tableau_dest(v0, source, t as int) == first_tableau_dest(
                    v0,
                    source,
                    t as int + 1,
                ));
            }
        }
        t += 1;
    }
    proof {
        assert(first_tableau_dest(v0, source, 7) is None);
        assert(dclick_dest(v0, source) is None);
    }
    None
}

/// Appending the single legal card to a well-formed foundation pile keeps
/// it well formed.
proof fn lemma_foundation_push(p: Seq<Card>, c: Card)
    requires
        foundation_ok(p),
        spec_can_place_on_foundation(c, p),
        c.face_up,
    ensures
        foundation_ok(p.push(c)),
{
    let q = p.push(c);
    assert forall|i: int|
        0 <= i < q.len() implies (#[trigger] q[i]).face_up && q[i].rank == i + 1 && q[i].suit
        == q[0].suit by {
        if i < p.len() {
            assert(p[i].face_up && p[i].rank == i + 1 && p[i].suit == p[0].suit);
        }
    };
}

} // verus!
