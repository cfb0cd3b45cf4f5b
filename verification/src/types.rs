//! Core data types of the chess module: match records, identifiers,
//! lifecycle states, events and errors.

use vstd::prelude::*;

verus! {

/// Time-control category of a match; selects the per-move time budget.
#[derive(Clone, Copy, Debug, PartialEq, Eq, Structural)]
pub enum MatchStyle {
    Bullet,
    Blitz,
    Rapid,
    Daily,
}

/// The side that must make the next move. The challenger plays the white
/// pieces, the opponent the black pieces.
#[derive(Clone, Copy, Debug, PartialEq, Eq, Structural)]
pub enum NextMove {
    Whites,
    Blacks,
}

/// Lifecycle state of a match. Terminal states (`Won`, `Drawn`) are never
/// stored in the registry: a match that reaches one is settled and deleted
/// in the same operation.
#[derive(Clone, Copy, Debug, PartialEq, Eq, Structural)]
pub enum MatchState {
    AwaitingOpponent,
    OnGoing(NextMove),
    Won,
    Drawn,
}

/// Unique match identifier, derived deterministically from the creating
/// triple. Since the nonce is allocated by a strictly increasing counter,
/// two identifiers are equal only if their nonces are, so identifiers never
/// collide over the lifetime of the counter.
#[derive(Clone, Copy, Debug, PartialEq, Eq, Hash, Structural)]
pub struct MatchId {
    pub challenger: u64,
    pub opponent: u64,
    pub nonce: u128,
}

/// The identifier a triple derives to.
pub open spec fn spec_match_id(challenger: u64, opponent: u64, nonce: u128) -> MatchId {
    MatchId { challenger, opponent, nonce }
}

/// Derives the identifier of the match a triple creates.
pub fn match_id(challenger: u64, opponent: u64, nonce: u128) -> (r: MatchId)
    ensures
        r == spec_match_id(challenger, opponent, nonce),
{
    MatchId { challenger, opponent, nonce }
}

/// A failure of the asset ledger.
#[derive(Clone, Copy, Debug, PartialEq, Eq, Structural)]
pub enum LedgerError {
    /// The asset is not registered.
    UnknownAsset,
    /// The asset identifier is already registered.
    AssetAlreadyExists,
    /// The payer does not hold the transferred amount.
    InsufficientBalance,
    /// The payee's balance would not fit its fixed width.
    Overflow,
}

/// An error returned by one of the module's operations. Every precondition
/// violation is detected before any state is mutated.
#[derive(Clone, Copy, Debug, PartialEq, Eq, Structural)]
pub enum Error {
    /// The match counter is exhausted.
    NonceOverflow,
    /// The referenced match does not exist.
    NonExistentMatch,
    /// The challenger chose itself, or a custody party, as opponent.
    InvalidOpponent,
    /// The caller is not the designated opponent.
    NotMatchOpponent,
    /// The caller is not the challenger.
    NotMatchChallenger,
    /// The stored board does not decode to a position.
    InvalidBoardEncoding,
    /// The move is not a well-formed move encoding.
    InvalidMoveEncoding,
    /// The operation needs a match that still awaits its opponent.
    NotAwaitingOpponent,
    /// The match has not been joined yet.
    StillAwaitingOpponent,
    /// The match has already reached a terminal state.
    MatchAlreadyFinished,
    /// It is the other player's turn.
    NotYourTurn,
    /// The move is not legal in the current position.
    IllegalMove,
    /// The stake does not cover the minimum incentive share.
    BetTooLow,
    /// The stake asset is not registered.
    BetDoesNotExist,
    /// The operation needs an ongoing match.
    MatchNotOnGoing,
    /// The time budget for the pending move has not lapsed yet.
    MoveNotExpired,
    /// A stake transfer into or out of custody failed before any state was
    /// mutated; the ledger's error is surfaced verbatim.
    Transfer(LedgerError),
}

/// A match record: two distinct accounts, the current position, the
/// lifecycle state, the creation nonce, the time control, the two clock
/// timestamps and the stake.
#[derive(Clone, Debug, PartialEq)]
pub struct Match {
    pub challenger: u64,
    pub opponent: u64,
    pub board: String,
    pub state: MatchState,
    pub nonce: u128,
    pub style: MatchStyle,
    /// When the match became ongoing; zero while awaiting the opponent.
    pub start: u64,
    /// When the last move was accepted; zero until the first move.
    pub last_move: u64,
    pub bet_asset_id: u32,
    pub bet_amount: u64,
}

/// The prize pool of a match: both stakes, saturating at the balance width.
pub open spec fn spec_pot(bet_amount: u64) -> u64 {
    if bet_amount + bet_amount > u64::MAX {
        u64::MAX
    } else {
        (bet_amount + bet_amount) as u64
    }
}

/// The janitor's share of a pot: `incentive_share` percent, rounded down.
pub open spec fn spec_incentive(bet_amount: u64, incentive_share: u8) -> u64 {
    (spec_pot(bet_amount) * incentive_share / 100) as u64
}

/// The janitor's incentive share of a stake's pot, and the remainder that
/// still goes to the winner.
pub fn incentive_split(bet_amount: u64, incentive_share: u8) -> (r: (u64, u64))
    requires
        incentive_share <= 100,
    ensures
        r.0 == spec_incentive(bet_amount, incentive_share),
        r.1 == spec_pot(bet_amount) - spec_incentive(bet_amount, incentive_share),
{
    let winner_prize = bet_amount.saturating_add(bet_amount);
    proof {
        assert(winner_prize * incentive_share <= winner_prize * 100) by (nonlinear_arith)
            requires
                incentive_share <= 100,
        ;
    }
    let incentive_wide: u128 = (winner_prize as u128) * (incentive_share as u128) / 100;
    let incentive = incentive_wide as u64;
    (incentive, winner_prize - incentive)
}

impl Match {
    /// The split of the prize pool when a third party clears an abandoned
    /// match: the caller's incentive share of the pot, and the remainder
    /// that still goes to the winner.
    pub fn janitor_incentive(&self, incentive_share: u8) -> (r: (u64, u64))
        requires
            incentive_share <= 100,
        ensures
            r.0 == spec_incentive(self.bet_amount, incentive_share),
            r.1 == spec_pot(self.bet_amount) - spec_incentive(self.bet_amount, incentive_share),
    {
        incentive_split(self.bet_amount, incentive_share)
    }
}

/// An event recording an accepted operation, or a payout failure that was
/// reported instead of blocking a settlement.
#[derive(Clone, Debug, PartialEq)]
pub enum Event {
    /// Challenger, opponent, and the new match's identifier.
    MatchCreated(u64, u64, MatchId),
    MatchAborted(MatchId),
    MatchStarted(MatchId),
    /// Match, accepted move, and the position after it.
    MoveExecuted(MatchId, String, String),
    /// Match, winner, and the final position.
    MatchWon(MatchId, u64, String),
    /// Match and the final position.
    MatchDrawn(MatchId, String),
    /// A refund transfer failed during settlement of a draw.
    MatchRefundError(MatchId),
    /// An award transfer to the winner failed during settlement.
    MatchAwardError(MatchId, u64),
    /// A split transfer failed while clearing an abandoned match; carries
    /// the winner and the janitor.
    MatchClearanceError(MatchId, u64, u64),
}

/// The rating every account starts from.
pub struct DefaultElo;

impl DefaultElo {
    /// The process-wide default Elo rating.
    pub fn get() -> (r: u16)
        ensures
            r == 1600,
    {
        1600
    }
}

} // verus!
