//! The library's laws: properties that hold of every reachable state and
//! of the operations, stated once and proved from the invariants.

use vstd::prelude::*;

use crate::card::Card;
use crate::card::card_ok;
use crate::moves::MoveRejected;
use crate::moves::MovingUnit;
use crate::moves::dest_ok_for;
use crate::moves::move_error;
use crate::moves::move_result;
use crate::moves::unit_source_ok;
use crate::rules::spec_can_place_on_foundation;
use crate::rules::spec_can_place_on_tableau_card;
use crate::rules::spec_stack_sequence_ok;
use crate::rules::stack_pair_ok;
use crate::rules::tableau_stacks_on;
use crate::rules::valid_run;
use crate::state::MoveRecord;
use crate::state::PileId;
use crate::state::StateView;
use crate::state::inv;
use crate::state::total_count;
use crate::state::wf;
use crate::undo::undo_view;

verus! {

/// Every well-formed state holds each of the 52 cards exactly once
/// across the stock, the waste, the foundations and the tableau piles:
/// no card is duplicated and none is lost.
pub proof fn lemma_cards_conserved(v: StateView)
    requires
        wf(v),
    ensures
        forall|id: int| total_count(v, id) == if 0 <= id < 52 {
            1int
        } else {
            0int
        },
{
}

/// In every well-formed state each foundation pile is either empty or an
/// ascending same-suit sequence that starts at the ace, all face up.
pub proof fn lemma_foundation_ascending(v: StateView, f: int)
    requires
        wf(v),
        0 <= f < 4,
    ensures
        forall|i: int|
            0 <= i < v.foundations[f].len() ==> (#[trigger] v.foundations[f][i]).face_up
                && v.foundations[f][i].rank == i + 1 && v.foundations[f][i].suit
                == v.foundations[f][0].suit,
{
}

/// In every well-formed state, any face-up suffix of a tableau pile forms
/// a strictly descending, colour-alternating run.
pub proof fn lemma_tableau_face_up_suffix(v: StateView, t: int, k: int)
    requires
        wf(v),
        0 <= t < 7,
        0 <= k <= v.tableaus[t].len(),
        forall|j: int| k <= j < v.tableaus[t].len() ==> (#[trigger] v.tableaus[t][j]).face_up,
    ensures
        valid_run(v.tableaus[t].skip(k)),
{
    let p = v.tableaus[t];
    let run = p.skip(k);
    assert forall|i: int| 0 <= i < run.len() implies (#[trigger] run[i]).face_up by {
        assert(p[k + i].face_up);
    };
    assert forall|i: int| 0 <= i < run.len() - 1 implies tableau_stacks_on(
        #[trigger] run[i + 1],
        run[i],
    ) by {
        assert(p[k + i].face_up);
        assert(tableau_stacks_on(p[k + i + 1], p[k + i]));
    };
}

/// Undoing a successful move restores exactly the state the move started
/// from, and re-attempting the identical move from there succeeds again
/// with the same new state and record: undo followed by redo of the same
/// move is a round trip.
pub proof fn lemma_undo_redo_round_trip(v: StateView, u: MovingUnit, dest: PileId)
    requires
        inv(v),
        unit_source_ok(u),
        dest_ok_for(u, dest),
        move_result(v, u, dest) is Ok,
    ensures
        move_result(v, u, dest) matches Ok((v2, rec)) ==> undo_view(v2, rec) == v && move_result(
            undo_view(v2, rec),
            u,
            dest,
        ) == move_result(v, u, dest),
{
    crate::moves::lemma_move_ok(v, u, dest);
}

/// Rejection is deterministic in the state: a rejected attempt leaves the
/// state unchanged — that is the executor's contract — so repeating the
/// same illegal move yields the same rejection and again changes nothing.
pub proof fn lemma_rejection_idempotent(v: StateView, u: MovingUnit, dest: PileId)
    requires
        move_error(v, u, dest) is Some,
    ensures
        move_result(v, u, dest) == Err::<(StateView, MoveRecord), MoveRejected>(
            move_error(v, u, dest).unwrap(),
        ),
{
}

/// An empty foundation accepts exactly the aces: a single ace may always
/// start it, and any higher card — a two included — is refused.
pub proof fn lemma_empty_foundation_takes_exactly_aces(c: Card)
    ensures
        spec_can_place_on_foundation(c, Seq::empty()) <==> c.rank == 1,
{
}

/// One direction of the permutation law: the property carries over to
/// any sequence holding the same cards.
proof fn lemma_stack_sequence_transfer(s1: Seq<Card>, s2: Seq<Card>)
    requires
        s1.to_multiset() == s2.to_multiset(),
        spec_stack_sequence_ok(s1),
    ensures
        spec_stack_sequence_ok(s2),
{
    broadcast use vstd::seq_lib::group_to_multiset_ensures;

    assert(s1.len() == s1.to_multiset().len());
    assert(s2.len() == s2.to_multiset().len());
    if s2.len() > 1 {
        // distinct ranks in `s1` make its cards pairwise distinct, so
        // every card occurs once in the shared multiset and `s2` repeats
        // no card either
        assert(s1.no_duplicates()) by {
            assert forall|i: int, j: int|
                0 <= i < s1.len() && 0 <= j < s1.len() && i != j implies s1[i] != s1[j] by {
                assert(stack_pair_ok(s1, i, j));
            };
        };
        s1.lemma_multiset_has_no_duplicates();
        s2.lemma_multiset_has_no_duplicates_conv();
        assert(s2.no_duplicates());
        assert forall|a: int, b: int|
            0 <= a < s2.len() && 0 <= b < s2.len() implies #[trigger] stack_pair_ok(s2, a, b) by {
            assert(s2.contains(s2[a]));
            assert(s2.contains(s2[b]));
            assert(s1.to_multiset().count(s2[a]) > 0);
            assert(s1.to_multiset().count(s2[b]) > 0);
            assert(s1.contains(s2[a]));
            assert(s1.contains(s2[b]));
            let k = s1.lemma_contains_to_index(s2[a]);
            let l = s1.lemma_contains_to_index(s2[b]);
            if a != b {
                assert(s2[a] != s2[b]);
                assert(k != l);
            }
            assert(stack_pair_ok(s1, k, l));
            assert(stack_pair_ok(s1, l, k));
        };
    }
}

/// The run test `is_valid_stack_sequence` answers for looks only at
/// which cards are present: two sequences holding the same cards — the
/// same multiset, in any order — always test the same.
pub proof fn lemma_stack_sequence_permutation(s1: Seq<Card>, s2: Seq<Card>)
    requires
        s1.to_multiset() == s2.to_multiset(),
    ensures
        spec_stack_sequence_ok(s1) == spec_stack_sequence_ok(s2),
{
    if spec_stack_sequence_ok(s1) {
        lemma_stack_sequence_transfer(s1, s2);
    }
    if spec_stack_sequence_ok(s2) {
        lemma_stack_sequence_transfer(s2, s1);
    }
}

/// A king can never be placed onto a non-empty tableau pile, whatever
/// card tops it: kings go only to empty piles.
pub proof fn lemma_king_only_on_empty(king: Card, target: Card)
    requires
        king.rank == 13,
        card_ok(target),
    ensures
        !spec_can_place_on_tableau_card(king, target),
{
}

} // verus!
