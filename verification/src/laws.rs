//! The module's laws: properties that hold across operations, stated over
//! the same spec functions the operations' contracts use.

use vstd::prelude::*;

use crate::pallet::{
    escrow_sum, match_moved, orphan_sum, spec_abort_outcome, spec_clear_outcome,
    spec_join_outcome, spec_make_move_outcome, Pallet,
};
use crate::types::{spec_match_id, Error, Match, MatchId, MatchState, NextMove};

verus! {

/// Distinct creation nonces derive distinct match identifiers, whatever the
/// players: the strictly increasing counter therefore makes every created
/// match's identifier unique for the counter's lifetime.
pub proof fn lemma_match_id_injective(c1: u64, o1: u64, n1: u128, c2: u64, o2: u64, n2: u128)
    requires
        n1 != n2,
    ensures
        spec_match_id(c1, o1, n1) != spec_match_id(c2, o2, n2),
{
}

/// The identifier the next creation would mint is not held by any live
/// match: every stored nonce is older than the counter.
pub proof fn lemma_next_id_fresh(p: Pallet, challenger: u64, opponent: u64)
    requires
        p.wf(),
    ensures
        !p.spec_has_match(spec_match_id(challenger, opponent, p.spec_next_nonce())),
{
    let id = spec_match_id(challenger, opponent, p.spec_next_nonce());
    if p.spec_has_match(id) {
        let i = crate::pallet::row_index_of(p.rows(), id);
        assert(crate::pallet::row_ok(
            p.rows()[i],
            p.spec_next_nonce(),
            p.spec_config().pallet_account,
        ));
    }
}

/// Aborting succeeds only while the match still awaits its opponent.
pub proof fn lemma_abort_only_while_awaiting(p: Pallet, caller: u64, id: MatchId)
    requires
        spec_abort_outcome(p, caller, id) is Ok,
    ensures
        p.spec_has_match(id),
        p.spec_match(id).state is AwaitingOpponent,
{
}

/// Once the opponent has joined — the match is ongoing — aborting fails
/// with the state-precondition error, whoever calls.
pub proof fn lemma_abort_blocked_after_join(p: Pallet, caller: u64, id: MatchId)
    requires
        p.spec_has_match(id),
        p.spec_match(id).state matches MatchState::OnGoing(_),
    ensures
        spec_abort_outcome(p, caller, id) == Err::<(), Error>(Error::NotAwaitingOpponent),
{
}

/// An accepted move that leaves the match ongoing strictly alternates the
/// side to move.
pub proof fn lemma_turn_alternates(m0: Match, m1: Match, turn: NextMove, mv: Seq<char>, now: u64)
    requires
        m0.state == MatchState::OnGoing(turn),
        match_moved(m0, m1, turn, mv, now),
    ensures
        m1.state matches MatchState::OnGoing(t2) && t2 != turn,
{
}

/// The stored turn of an ongoing match always agrees with the engine's side
/// to move in the stored position, so the authorization check for the next
/// move asks exactly the player the engine expects.
pub proof fn lemma_turn_agrees_with_engine(p: Pallet, id: MatchId, turn: NextMove)
    requires
        p.wf(),
        p.spec_has_match(id),
        p.spec_match(id).state == MatchState::OnGoing(turn),
    ensures
        (turn == NextMove::Whites) == crate::codec::white_to_move(p.spec_match(id).board@),
{
    let i = crate::pallet::row_index_of(p.rows(), id);
    assert(crate::pallet::row_ok(
        p.rows()[i],
        p.spec_next_nonce(),
        p.spec_config().pallet_account,
    ));
}

/// Escrow conservation: in every well-formed state, the custody account of
/// each asset holds exactly the stake total escrowed across live matches,
/// plus whatever a failed payout left behind. While no payout has failed,
/// custody holds exactly the escrow total.
pub proof fn lemma_escrow_conservation(p: Pallet, asset: u32)
    requires
        p.wf(),
    ensures
        p.spec_balance(asset, p.spec_config().pallet_account) as int == escrow_sum(
            p.rows(),
            asset,
        ) + orphan_sum(p.spec_orphaned(), asset),
        p.spec_orphaned() == Seq::<(u32, u64)>::empty() ==> p.spec_balance(
            asset,
            p.spec_config().pallet_account,
        ) as int == escrow_sum(p.rows(), asset),
{
}

/// A deleted match stays deleted: every operation that references an
/// identifier with no live match fails with the not-found error (a
/// four-character encoding is assumed for the move, since a malformed
/// encoding is rejected even earlier).
pub proof fn lemma_deleted_match_rejects_operations(
    p: Pallet,
    caller: u64,
    id: MatchId,
    mv: Seq<char>,
    now: u64,
)
    requires
        !p.spec_has_match(id),
    ensures
        spec_abort_outcome(p, caller, id) == Err::<(), Error>(Error::NonExistentMatch),
        spec_join_outcome(p, caller, id) == Err::<(), Error>(Error::NonExistentMatch),
        mv.len() == 4 ==> spec_make_move_outcome(p, caller, id, mv) == Err::<(), Error>(
            Error::NonExistentMatch,
        ),
        spec_clear_outcome(p, caller, id, now) == Err::<(), Error>(Error::NonExistentMatch),
{
}

/// No future creation can mint a deleted identifier again: a deleted match's
/// nonce is older than the counter, and creations always use the counter.
pub proof fn lemma_deleted_id_never_recreated(p: Pallet, id: MatchId, challenger: u64, opponent: u64)
    requires
        id.nonce < p.spec_next_nonce(),
    ensures
        spec_match_id(challenger, opponent, p.spec_next_nonce()) != id,
{
}

} // verus!
