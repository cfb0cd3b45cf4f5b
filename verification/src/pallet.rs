//! The match registry, the lifecycle state machine and settlement.
//!
//! All module state lives in one [`Pallet`] value: the configuration, the
//! asset ledger, the monotonic creation counter, the registry of live
//! matches, the rating table and the event log. Each operation runs as one
//! atomic state transition: every precondition is checked before anything is
//! mutated, and an error return leaves the state exactly as it was. The one
//! exception, by design, is a payout transfer that fails during settlement:
//! the failure is reported as an event and the match is still deleted, so a
//! match can never get stuck; the unpaid funds stay in custody, recorded in
//! an orphaned-funds log for out-of-band reconciliation, so that escrow
//! conservation remains provable.
//!
//! Abandoned matches are resolved pull-based: there is no periodic sweep,
//! and a lapsed clock is acted on only when some caller invokes
//! [`Pallet::clear_abandoned_match`]. This keeps every operation's cost
//! independent of the number of live matches.

use vstd::prelude::*;

use crate::codec;
use crate::codec::BoardStatus;
use crate::config::Config;
use crate::elo;
use crate::elo::{EloTable, Score};
use crate::ledger::Ledger;
use crate::ledger::{spec_balance_after_transfer, spec_transfer_outcome};
use crate::types::{
    incentive_split, match_id, spec_incentive, spec_match_id, spec_pot, Error, Event, LedgerError,
    Match, MatchId, MatchState, MatchStyle, NextMove,
};

verus! {

/// Whether a registry row carries this identifier.
pub open spec fn row_matches(row: (MatchId, Match), id: MatchId) -> bool {
    row.0 == id
}

/// Whether a registry row's match was created with this nonce.
pub open spec fn nonce_matches(row: (MatchId, Match), nonce: u128) -> bool {
    row.1.nonce == nonce
}

/// Whether the registry holds the identifier.
pub open spec fn has_row(s: Seq<(MatchId, Match)>, id: MatchId) -> bool {
    exists|i: int| 0 <= i < s.len() && #[trigger] row_matches(s[i], id)
}

/// The index of the identifier's row.
pub open spec fn row_index_of(s: Seq<(MatchId, Match)>, id: MatchId) -> int {
    choose|i: int| 0 <= i < s.len() && #[trigger] row_matches(s[i], id)
}

/// The identifier's match record. Meaningful only while `has_row` holds.
pub open spec fn row_of(s: Seq<(MatchId, Match)>, id: MatchId) -> Match {
    s[row_index_of(s, id)].1
}

/// Whether the registry holds a match created with this nonce.
pub open spec fn has_nonce(s: Seq<(MatchId, Match)>, nonce: u128) -> bool {
    exists|i: int| 0 <= i < s.len() && #[trigger] nonce_matches(s[i], nonce)
}

/// The identifier of the match created with this nonce. Meaningful only
/// while `has_nonce` holds.
pub open spec fn id_of_nonce(s: Seq<(MatchId, Match)>, nonce: u128) -> MatchId {
    s[choose|i: int| 0 <= i < s.len() && #[trigger] nonce_matches(s[i], nonce)].0
}

/// No two rows carry the same identifier.
pub open spec fn ids_unique(s: Seq<(MatchId, Match)>) -> bool {
    forall|i: int, j: int| 0 <= i < j < s.len() ==> s[i].0 != s[j].0
}

/// No two rows were created with the same nonce.
pub open spec fn nonces_unique(s: Seq<(MatchId, Match)>) -> bool {
    forall|i: int, j: int| 0 <= i < j < s.len() ==> s[i].1.nonce != s[j].1.nonce
}

/// Whether the account plays in the match.
pub open spec fn involves(m: Match, account: u64) -> bool {
    m.challenger == account || m.opponent == account
}

/// Everything a stored row guarantees: the identifier derives from the
/// record, the nonce was allocated by the counter, the players are distinct
/// accounts other than custody, the board decodes, a waiting match has both
/// clocks at the sentinel, an ongoing match's stored turn agrees with the
/// engine's side to move, and no terminal state is ever stored.
pub open spec fn row_ok(row: (MatchId, Match), next_nonce: u128, custody: u64) -> bool {
    &&& row.0 == spec_match_id(row.1.challenger, row.1.opponent, row.1.nonce)
    &&& row.1.nonce < next_nonce
    &&& row.1.challenger != row.1.opponent
    &&& row.1.challenger != custody
    &&& row.1.opponent != custody
    &&& codec::fen_ok(row.1.board@)
    &&& match row.1.state {
        MatchState::AwaitingOpponent => row.1.start == 0 && row.1.last_move == 0
            && codec::white_to_move(row.1.board@),
        MatchState::OnGoing(t) => (t == NextMove::Whites) == codec::white_to_move(row.1.board@),
        MatchState::Won => false,
        MatchState::Drawn => false,
    }
}

/// How much of the match's stake asset is escrowed in custody: one stake
/// while awaiting the opponent, both once the match is ongoing.
pub open spec fn escrowed_amount(m: Match) -> int {
    match m.state {
        MatchState::AwaitingOpponent => m.bet_amount as int,
        MatchState::OnGoing(_) => 2 * (m.bet_amount as int),
        MatchState::Won => 0,
        MatchState::Drawn => 0,
    }
}

/// The row's contribution to the asset's escrow.
pub open spec fn row_escrow(row: (MatchId, Match), asset: u32) -> int {
    if row.1.bet_asset_id == asset {
        escrowed_amount(row.1)
    } else {
        0
    }
}

/// The total stake the registry escrows in the asset.
pub open spec fn escrow_sum(s: Seq<(MatchId, Match)>, asset: u32) -> int
    decreases s.len(),
{
    if s.len() == 0 {
        0
    } else {
        row_escrow(s[0], asset) + escrow_sum(s.skip(1), asset)
    }
}

/// The identifiers of the account's live matches, in creation order.
pub open spec fn player_ids(s: Seq<(MatchId, Match)>, account: u64) -> Seq<MatchId>
    decreases s.len(),
{
    if s.len() == 0 {
        Seq::empty()
    } else {
        player_ids(s.drop_last(), account) + (if involves(s.last().1, account) {
            seq![s.last().0]
        } else {
            Seq::empty()
        })
    }
}

/// With unique identifiers, the row at a matching index is the lookup's
/// result.
pub proof fn lemma_row_at(s: Seq<(MatchId, Match)>, id: MatchId, i: int)
    requires
        ids_unique(s),
        0 <= i < s.len(),
        row_matches(s[i], id),
    ensures
        has_row(s, id),
        row_index_of(s, id) == i,
        row_of(s, id) == s[i].1,
{
    assert(has_row(s, id));
    let j = row_index_of(s, id);
    if i < j {
        assert(s[i].0 != s[j].0);
    } else if j < i {
        assert(s[j].0 != s[i].0);
    }
}

/// With unique nonces, the row at a matching index answers the nonce index.
pub proof fn lemma_nonce_at(s: Seq<(MatchId, Match)>, nonce: u128, i: int)
    requires
        nonces_unique(s),
        0 <= i < s.len(),
        nonce_matches(s[i], nonce),
    ensures
        has_nonce(s, nonce),
        id_of_nonce(s, nonce) == s[i].0,
{
    assert(has_nonce(s, nonce));
    let j = choose|j: int| 0 <= j < s.len() && #[trigger] nonce_matches(s[j], nonce);
    if i < j {
        assert(s[i].1.nonce != s[j].1.nonce);
    } else if j < i {
        assert(s[j].1.nonce != s[i].1.nonce);
    }
}

/// Well-formed rows with unique nonces have unique identifiers: the
/// identifier embeds the nonce.
pub proof fn lemma_ids_unique(s: Seq<(MatchId, Match)>, next_nonce: u128, custody: u64)
    requires
        nonces_unique(s),
        forall|i: int| 0 <= i < s.len() ==> row_ok(#[trigger] s[i], next_nonce, custody),
    ensures
        ids_unique(s),
{
    assert forall|i: int, j: int| 0 <= i < j < s.len() implies s[i].0 != s[j].0 by {
        assert(row_ok(s[i], next_nonce, custody));
        assert(row_ok(s[j], next_nonce, custody));
        assert(s[i].0.nonce == s[i].1.nonce);
        assert(s[j].0.nonce == s[j].1.nonce);
    }
}

/// No row contributes a negative escrow.
pub proof fn lemma_escrow_sum_nonneg(s: Seq<(MatchId, Match)>, asset: u32)
    ensures
        escrow_sum(s, asset) >= 0,
    decreases s.len(),
{
    if s.len() > 0 {
        lemma_escrow_sum_nonneg(s.skip(1), asset);
    }
}

/// The escrow total covers each single row's contribution.
pub proof fn lemma_escrow_sum_bound(s: Seq<(MatchId, Match)>, i: int, asset: u32)
    requires
        0 <= i < s.len(),
    ensures
        escrow_sum(s, asset) >= row_escrow(s[i], asset),
    decreases s.len(),
{
    lemma_escrow_sum_nonneg(s.skip(1), asset);
    if i == 0 {
    } else {
        lemma_escrow_sum_bound(s.skip(1), i - 1, asset);
        assert(s.skip(1)[i - 1] == s[i]);
        lemma_escrow_sum_nonneg(s, asset);
    }
}

/// Appending a row adds its contribution to the total.
pub proof fn lemma_escrow_sum_push(s: Seq<(MatchId, Match)>, row: (MatchId, Match), asset: u32)
    ensures
        escrow_sum(s.push(row), asset) == escrow_sum(s, asset) + row_escrow(row, asset),
    decreases s.len(),
{
    if s.len() == 0 {
        assert(s.push(row).skip(1) =~= Seq::<(MatchId, Match)>::empty());
        assert(s.push(row)[0] == row);
        assert(escrow_sum(s, asset) == 0);
        assert(escrow_sum(Seq::<(MatchId, Match)>::empty(), asset) == 0);
        assert(escrow_sum(s.push(row), asset) == row_escrow(s.push(row)[0], asset) + escrow_sum(
            s.push(row).skip(1),
            asset,
        ));
    } else {
        assert(s.push(row).skip(1) =~= s.skip(1).push(row));
        assert(s.push(row)[0] == s[0]);
        lemma_escrow_sum_push(s.skip(1), row, asset);
    }
}

/// Replacing a row swaps its contribution in the total.
pub proof fn lemma_escrow_sum_update(
    s: Seq<(MatchId, Match)>,
    i: int,
    row: (MatchId, Match),
    asset: u32,
)
    requires
        0 <= i < s.len(),
    ensures
        escrow_sum(s.update(i, row), asset) == escrow_sum(s, asset) - row_escrow(s[i], asset)
            + row_escrow(row, asset),
    decreases s.len(),
{
    if i == 0 {
        assert(s.update(0, row).skip(1) =~= s.skip(1));
    } else {
        assert(s.update(i, row).skip(1) =~= s.skip(1).update(i - 1, row));
        assert(s.update(i, row)[0] == s[0]);
        lemma_escrow_sum_update(s.skip(1), i - 1, row, asset);
        assert(s.skip(1)[i - 1] == s[i]);
    }
}

/// Deleting a row removes its contribution from the total.
pub proof fn lemma_escrow_sum_remove(s: Seq<(MatchId, Match)>, i: int, asset: u32)
    requires
        0 <= i < s.len(),
    ensures
        escrow_sum(s.remove(i), asset) == escrow_sum(s, asset) - row_escrow(s[i], asset),
    decreases s.len(),
{
    if i == 0 {
        assert(s.remove(0) =~= s.skip(1));
    } else {
        assert(s.remove(i).skip(1) =~= s.skip(1).remove(i - 1));
        assert(s.remove(i)[0] == s[0]);
        lemma_escrow_sum_remove(s.skip(1), i - 1, asset);
        assert(s.skip(1)[i - 1] == s[i]);
    }
}

/// A log entry's contribution to the asset's orphaned funds.
pub open spec fn orphan_entry(entry: (u32, u64), asset: u32) -> int {
    if entry.0 == asset {
        entry.1 as int
    } else {
        0
    }
}

/// The total custody funds the failed-payout log records for the asset.
pub open spec fn orphan_sum(s: Seq<(u32, u64)>, asset: u32) -> int
    decreases s.len(),
{
    if s.len() == 0 {
        0
    } else {
        orphan_entry(s[0], asset) + orphan_sum(s.skip(1), asset)
    }
}

/// No log entry is negative.
pub proof fn lemma_orphan_sum_nonneg(s: Seq<(u32, u64)>, asset: u32)
    ensures
        orphan_sum(s, asset) >= 0,
    decreases s.len(),
{
    if s.len() > 0 {
        lemma_orphan_sum_nonneg(s.skip(1), asset);
    }
}

/// Logging a failed payout adds its amount to the log's total.
pub proof fn lemma_orphan_sum_push(s: Seq<(u32, u64)>, entry: (u32, u64), asset: u32)
    ensures
        orphan_sum(s.push(entry), asset) == orphan_sum(s, asset) + orphan_entry(entry, asset),
    decreases s.len(),
{
    if s.len() == 0 {
        assert(s.push(entry).skip(1) =~= Seq::<(u32, u64)>::empty());
        assert(s.push(entry)[0] == entry);
        assert(orphan_sum(s.push(entry), asset) == orphan_entry(s.push(entry)[0], asset)
            + orphan_sum(s.push(entry).skip(1), asset));
    } else {
        assert(s.push(entry).skip(1) =~= s.skip(1).push(entry));
        assert(s.push(entry)[0] == s[0]);
        lemma_orphan_sum_push(s.skip(1), entry, asset);
        assert(orphan_sum(s.push(entry), asset) == orphan_entry(s.push(entry)[0], asset)
            + orphan_sum(s.push(entry).skip(1), asset));
    }
}

/// The whole module state.
pub struct Pallet {
    config: Config,
    ledger: Ledger,
    next_nonce: u128,
    matches: Vec<(MatchId, Match)>,
    elo: EloTable,
    events: Vec<Event>,
    /// Funds that stayed in custody because a payout transfer failed during
    /// settlement; they await out-of-band reconciliation.
    orphaned: Vec<(u32, u64)>,
}

impl Pallet {
    /// The configuration.
    pub closed spec fn spec_config(&self) -> Config {
        self.config
    }

    /// The asset ledger.
    pub closed spec fn ledger_view(&self) -> Ledger {
        self.ledger
    }

    /// The next creation nonce.
    pub closed spec fn spec_next_nonce(&self) -> u128 {
        self.next_nonce
    }

    /// The registry rows, in creation order.
    pub closed spec fn rows(&self) -> Seq<(MatchId, Match)> {
        self.matches@
    }

    /// The rating table.
    pub closed spec fn elo_table(&self) -> EloTable {
        self.elo
    }

    /// The event log.
    pub closed spec fn events_seq(&self) -> Seq<Event> {
        self.events@
    }

    /// The log of payouts that failed during settlement: the stake asset and
    /// the amount that stayed in custody.
    pub closed spec fn spec_orphaned(&self) -> Seq<(u32, u64)> {
        self.orphaned@
    }

    /// The holding of `account` in `asset`.
    pub open spec fn spec_balance(&self, asset: u32, account: u64) -> u64 {
        self.ledger_view().spec_balance(asset, account)
    }

    /// Whether the asset is registered.
    pub open spec fn spec_asset_exists(&self, asset: u32) -> bool {
        self.ledger_view().spec_asset_exists(asset)
    }

    /// The asset's minimum balance.
    pub open spec fn spec_min_balance(&self, asset: u32) -> u64 {
        self.ledger_view().spec_min_balance(asset)
    }

    /// The account's Elo rating.
    pub open spec fn spec_player_elo(&self, account: u64) -> u16 {
        self.elo_table().spec_rating(account)
    }

    /// Whether a match with this identifier is live.
    pub open spec fn spec_has_match(&self, id: MatchId) -> bool {
        has_row(self.rows(), id)
    }

    /// The live match with this identifier. Meaningful only while
    /// `spec_has_match` holds.
    pub open spec fn spec_match(&self, id: MatchId) -> Match {
        row_of(self.rows(), id)
    }

    /// The module invariant: components are well-formed, stored rows are
    /// consistent ([`row_ok`]) with unique nonces, and the custody account
    /// of every asset holds exactly the registry's escrow total plus the
    /// funds orphaned by failed payouts.
    pub open spec fn wf(&self) -> bool {
        &&& self.spec_config().wf()
        &&& self.ledger_view().wf()
        &&& self.elo_table().wf()
        &&& nonces_unique(self.rows())
        &&& forall|i: int|
            0 <= i < self.rows().len() ==> row_ok(
                #[trigger] self.rows()[i],
                self.spec_next_nonce(),
                self.spec_config().pallet_account,
            )
        &&& forall|i: int|
            0 <= i < self.rows().len() ==> self.ledger_view().spec_asset_exists(
                (#[trigger] self.rows()[i]).1.bet_asset_id,
            )
        &&& forall|a: u32|
            #[trigger] self.spec_balance(a, self.spec_config().pallet_account) as int
                == escrow_sum(self.rows(), a) + orphan_sum(self.spec_orphaned(), a)
    }

    /// A fresh module: no assets, no matches, no events, default ratings.
    pub fn new(config: Config) -> (r: Pallet)
        requires
            config.wf(),
        ensures
            r.wf(),
            r.spec_config() == config,
            r.spec_next_nonce() == 0,
            r.rows() == Seq::<(MatchId, Match)>::empty(),
            r.events_seq() == Seq::<Event>::empty(),
            forall|a: u32| !r.spec_asset_exists(a),
            forall|a: u32, acc: u64| #[trigger] r.spec_balance(a, acc) == 0,
            forall|acc: u64| #[trigger] r.spec_player_elo(acc) == 1600,
            r.spec_orphaned() == Seq::<(u32, u64)>::empty(),
    {
        let r = Pallet {
            config,
            ledger: Ledger::new(),
            next_nonce: 0,
            matches: Vec::new(),
            elo: EloTable::new(),
            events: Vec::new(),
            orphaned: Vec::new(),
        };
        proof {
            assert forall|a: u32| #[trigger] r.spec_balance(
                a,
                r.spec_config().pallet_account,
            ) as int == escrow_sum(r.rows(), a) + orphan_sum(r.spec_orphaned(), a) by {
                assert(r.spec_balance(a, r.spec_config().pallet_account) == 0);
            }
        }
        r
    }

    /// The next creation nonce.
    pub fn next_nonce(&self) -> (r: u128)
        ensures
            r == self.spec_next_nonce(),
    {
        self.next_nonce
    }

    /// The configuration.
    pub fn config(&self) -> (r: Config)
        ensures
            r == self.spec_config(),
    {
        self.config
    }

    /// The events emitted so far, oldest first.
    pub fn events(&self) -> (r: &Vec<Event>)
        ensures
            r@ == self.events_seq(),
    {
        &self.events
    }

    /// The holding of `account` in `asset`.
    pub fn balance(&self, asset: u32, account: u64) -> (r: u64)
        requires
            self.wf(),
        ensures
            r == self.spec_balance(asset, account),
    {
        self.ledger.balance(asset, account)
    }

    /// The account's Elo rating.
    pub fn player_elo(&self, account: u64) -> (r: u16)
        requires
            self.wf(),
        ensures
            r == self.spec_player_elo(account),
    {
        self.elo.get(account)
    }

    /// The index of the identifier's row, if it is live.
    fn find_row(&self, id: MatchId) -> (r: Option<usize>)
        ensures
            match r {
                Some(i) => i < self.rows().len() && row_matches(self.rows()[i as int], id),
                None => forall|i: int|
                    0 <= i < self.rows().len() ==> !(#[trigger] row_matches(self.rows()[i], id)),
            },
    {
        let mut i: usize = 0;
        while i < self.matches.len()
            invariant
                i <= self.rows().len(),
                forall|j: int| 0 <= j < i ==> !(#[trigger] row_matches(self.rows()[j], id)),
            decreases self.rows().len() - i,
        {
            if self.matches[i].0 == id {
                return Some(i);
            }
            i = i + 1;
        }
        None
    }

    /// The live match with this identifier.
    pub fn chess_matches(&self, id: MatchId) -> (r: Option<&Match>)
        requires
            self.wf(),
        ensures
            self.spec_has_match(id) ==> (r matches Some(m) && *m == self.spec_match(id)),
            !self.spec_has_match(id) ==> r is None,
    {
        proof {
            lemma_ids_unique(
                self.rows(),
                self.spec_next_nonce(),
                self.spec_config().pallet_account,
            );
        }
        match self.find_row(id) {
            Some(i) => {
                proof {
                    lemma_row_at(self.rows(), id, i as int);
                }
                Some(&self.matches[i].1)
            },
            None => None,
        }
    }

    /// The identifier of the live match created with this nonce.
    pub fn chess_match_id_from_nonce(&self, nonce: u128) -> (r: Option<MatchId>)
        requires
            self.wf(),
        ensures
            has_nonce(self.rows(), nonce) ==> r == Some(id_of_nonce(self.rows(), nonce)),
            !has_nonce(self.rows(), nonce) ==> r is None,
    {
        let mut i: usize = 0;
        while i < self.matches.len()
            invariant
                self.wf(),
                i <= self.rows().len(),
                forall|j: int| 0 <= j < i ==> !(#[trigger] nonce_matches(self.rows()[j], nonce)),
            decreases self.rows().len() - i,
        {
            if self.matches[i].1.nonce == nonce {
                proof {
                    lemma_nonce_at(self.rows(), nonce, i as int);
                }
                return Some(self.matches[i].0);
            }
            i = i + 1;
        }
        None
    }

    /// The identifiers of the account's live matches, in creation order.
    pub fn player_matches(&self, account: u64) -> (r: Vec<MatchId>)
        ensures
            r@ == player_ids(self.rows(), account),
    {
        let mut out: Vec<MatchId> = Vec::new();
        let mut i: usize = 0;
        while i < self.matches.len()
            invariant
                i <= self.rows().len(),
                out@ == player_ids(self.rows().take(i as int), account),
            decreases self.rows().len() - i,
        {
            let ghost prefix = self.rows().take(i as int);
            if self.matches[i].1.challenger == account || self.matches[i].1.opponent == account {
                out.push(self.matches[i].0);
            }
            i = i + 1;
            proof {
                let taken = self.rows().take(i as int);
                assert(taken.drop_last() =~= prefix);
                assert(taken.last() == self.rows()[i - 1]);
            }
        }
        proof {
            assert(self.rows().take(self.rows().len() as int) =~= self.rows());
        }
        out
    }

    /// Registers a stake asset with its minimum balance.
    pub fn register_asset(&mut self, id: u32, min_balance: u64) -> (r: Result<(), LedgerError>)
        requires
            old(self).wf(),
        ensures
            final(self).wf(),
            r is Ok <==> !old(self).spec_asset_exists(id),
            r is Err ==> *final(self) == *old(self),
            r is Ok ==> final(self).spec_asset_exists(id) && final(self).spec_min_balance(id)
                == min_balance,
            forall|a: u32|
                a != id ==> #[trigger] final(self).spec_asset_exists(a) == old(
                    self,
                ).spec_asset_exists(a),
            forall|a: u32, acc: u64| #[trigger]
                final(self).spec_balance(a, acc) == old(self).spec_balance(a, acc),
            final(self).spec_config() == old(self).spec_config(),
            final(self).rows() == old(self).rows(),
            final(self).spec_next_nonce() == old(self).spec_next_nonce(),
            final(self).events_seq() == old(self).events_seq(),
            final(self).elo_table() == old(self).elo_table(),
            final(self).spec_orphaned() == old(self).spec_orphaned(),
    {
        let r = self.ledger.register_asset(id, min_balance);
        proof {
            assert forall|i: int| 0 <= i < self.rows().len() implies self.ledger_view(
            ).spec_asset_exists((#[trigger] self.rows()[i]).1.bet_asset_id) by {
                assert(old(self).ledger_view().spec_asset_exists(
                    old(self).rows()[i].1.bet_asset_id,
                ));
                if old(self).rows()[i].1.bet_asset_id != id {
                    assert(self.spec_asset_exists(old(self).rows()[i].1.bet_asset_id) == old(
                        self,
                    ).spec_asset_exists(old(self).rows()[i].1.bet_asset_id));
                }
            }
            assert forall|a: u32| #[trigger] self.spec_balance(
                a,
                self.spec_config().pallet_account,
            ) as int == escrow_sum(self.rows(), a) + orphan_sum(self.spec_orphaned(), a) by {
                assert(old(self).spec_balance(a, old(self).spec_config().pallet_account) as int
                    == escrow_sum(old(self).rows(), a) + orphan_sum(old(self).spec_orphaned(), a));
                assert(self.spec_balance(a, self.spec_config().pallet_account) == old(
                    self,
                ).spec_balance(a, old(self).spec_config().pallet_account));
            }
        }
        r
    }

    /// Endows a player account with freshly issued units of a registered
    /// asset. The custody account cannot be endowed: its balance is owned by
    /// the escrow bookkeeping.
    pub fn endow(&mut self, asset: u32, account: u64, amount: u64) -> (r: Result<(), LedgerError>)
        requires
            old(self).wf(),
            account != old(self).spec_config().pallet_account,
        ensures
            final(self).wf(),
            r is Ok <==> old(self).spec_asset_exists(asset) && old(self).spec_balance(
                asset,
                account,
            ) + amount <= u64::MAX,
            r is Err ==> *final(self) == *old(self),
            r is Ok ==> final(self).spec_balance(asset, account) == old(self).spec_balance(
                asset,
                account,
            ) + amount,
            r is Ok ==> forall|a2: u32, acc2: u64|
                !(a2 == asset && acc2 == account) ==> #[trigger] final(self).spec_balance(a2, acc2)
                    == old(self).spec_balance(a2, acc2),
            forall|a: u32| #[trigger]
                final(self).spec_asset_exists(a) == old(self).spec_asset_exists(a),
            forall|a: u32| #[trigger]
                final(self).spec_min_balance(a) == old(self).spec_min_balance(a),
            final(self).spec_config() == old(self).spec_config(),
            final(self).rows() == old(self).rows(),
            final(self).spec_next_nonce() == old(self).spec_next_nonce(),
            final(self).events_seq() == old(self).events_seq(),
            final(self).elo_table() == old(self).elo_table(),
            final(self).spec_orphaned() == old(self).spec_orphaned(),
    {
        let r = self.ledger.mint(asset, account, amount);
        proof {
            assert forall|i: int| 0 <= i < self.rows().len() implies self.ledger_view(
            ).spec_asset_exists((#[trigger] self.rows()[i]).1.bet_asset_id) by {
                assert(old(self).ledger_view().spec_asset_exists(
                    old(self).rows()[i].1.bet_asset_id,
                ));
            }
            assert forall|a: u32| #[trigger] self.spec_balance(
                a,
                self.spec_config().pallet_account,
            ) as int == escrow_sum(self.rows(), a) + orphan_sum(self.spec_orphaned(), a) by {
                assert(old(self).spec_balance(a, old(self).spec_config().pallet_account) as int
                    == escrow_sum(old(self).rows(), a) + orphan_sum(old(self).spec_orphaned(), a));
                assert(self.spec_balance(a, self.spec_config().pallet_account) == old(
                    self,
                ).spec_balance(a, old(self).spec_config().pallet_account));
            }
        }
        r
    }

}


/// The fields of a freshly created match record.
pub open spec fn match_inited(
    m: Match,
    challenger: u64,
    opponent: u64,
    style: MatchStyle,
    bet_asset_id: u32,
    bet_amount: u64,
    nonce: u128,
) -> bool {
    &&& m.challenger == challenger
    &&& m.opponent == opponent
    &&& m.board@ == codec::init_fen()
    &&& m.state == MatchState::AwaitingOpponent
    &&& m.nonce == nonce
    &&& m.style == style
    &&& m.start == 0
    &&& m.last_move == 0
    &&& m.bet_asset_id == bet_asset_id
    &&& m.bet_amount == bet_amount
}

/// The outcome `create_match` decides before mutating anything: the
/// challenger must name a distinct, non-custody opponent, the counter must
/// not be exhausted, the stake asset must exist, the stake's incentive share
/// must reach the asset's minimum balance, and the challenger's stake must
/// transfer into custody.
pub open spec fn spec_create_outcome(
    p: Pallet,
    challenger: u64,
    opponent: u64,
    bet_asset_id: u32,
    bet_amount: u64,
) -> Result<MatchId, Error> {
    let cfg = p.spec_config();
    if challenger == opponent || challenger == cfg.pallet_account || opponent
        == cfg.pallet_account {
        Err(Error::InvalidOpponent)
    } else if p.spec_next_nonce() == u128::MAX {
        Err(Error::NonceOverflow)
    } else if !p.spec_asset_exists(bet_asset_id) {
        Err(Error::BetDoesNotExist)
    } else if spec_incentive(bet_amount, cfg.incentive_share) < p.spec_min_balance(bet_asset_id) {
        Err(Error::BetTooLow)
    } else {
        match spec_transfer_outcome(
            p.ledger_view(),
            bet_asset_id,
            challenger,
            cfg.pallet_account,
            bet_amount,
        ) {
            Ok(()) => Ok(spec_match_id(challenger, opponent, p.spec_next_nonce())),
            Err(e) => Err(Error::Transfer(e)),
        }
    }
}

impl Pallet {
    /// Creates a match: escrows the challenger's stake, registers the new
    /// record under a fresh identifier, advances the nonce and emits a
    /// creation event. Fails atomically: on any error nothing changes.
    pub fn create_match(
        &mut self,
        challenger: u64,
        opponent: u64,
        style: MatchStyle,
        bet_asset_id: u32,
        bet_amount: u64,
    ) -> (r: Result<MatchId, Error>)
        requires
            old(self).wf(),
        ensures
            final(self).wf(),
            r == spec_create_outcome(*old(self), challenger, opponent, bet_asset_id, bet_amount),
            r is Err ==> *final(self) == *old(self),
            forall|a: u32| #[trigger]
                final(self).spec_asset_exists(a) == old(self).spec_asset_exists(a),
            forall|a: u32| #[trigger]
                final(self).spec_min_balance(a) == old(self).spec_min_balance(a),
            final(self).spec_config() == old(self).spec_config(),
            r matches Ok(id) ==> {
                &&& id == spec_match_id(challenger, opponent, old(self).spec_next_nonce())
                &&& !old(self).spec_has_match(id)
                &&& final(self).spec_next_nonce() == old(self).spec_next_nonce() + 1
                &&& final(self).rows().len() == old(self).rows().len() + 1
                &&& final(self).rows().drop_last() == old(self).rows()
                &&& final(self).rows().last().0 == id
                &&& match_inited(
                    final(self).rows().last().1,
                    challenger,
                    opponent,
                    style,
                    bet_asset_id,
                    bet_amount,
                    old(self).spec_next_nonce(),
                )
                &&& final(self).spec_has_match(id)
                &&& final(self).spec_match(id) == final(self).rows().last().1
                &&& forall|a: u32, acc: u64| #[trigger]
                    final(self).spec_balance(a, acc) == spec_balance_after_transfer(
                        old(self).ledger_view(),
                        bet_asset_id,
                        challenger,
                        old(self).spec_config().pallet_account,
                        bet_amount,
                        a,
                        acc,
                    )
                &&& final(self).events_seq() == old(self).events_seq().push(
                    Event::MatchCreated(challenger, opponent, id),
                )
                &&& final(self).elo_table() == old(self).elo_table()
                &&& final(self).spec_orphaned() == old(self).spec_orphaned()
            },
    {
        if challenger == opponent || challenger == self.config.pallet_account || opponent
            == self.config.pallet_account {
            return Err(Error::InvalidOpponent);
        }
        if self.next_nonce == u128::MAX {
            return Err(Error::NonceOverflow);
        }
        if !self.ledger.asset_exists(bet_asset_id) {
            return Err(Error::BetDoesNotExist);
        }
        let (incentive, _remainder) = incentive_split(bet_amount, self.config.incentive_share);
        if incentive < self.ledger.min_balance(bet_asset_id) {
            return Err(Error::BetTooLow);
        }
        match self.ledger.transfer(
            bet_asset_id,
            challenger,
            self.config.pallet_account,
            bet_amount,
        ) {
            Ok(()) => {},
            Err(e) => {
                return Err(Error::Transfer(e));
            },
        }
        let nonce = self.next_nonce;
        let id = match_id(challenger, opponent, nonce);
        let board = codec::initial_position();
        let new_match = Match {
            challenger,
            opponent,
            board,
            state: MatchState::AwaitingOpponent,
            nonce,
            style,
            start: 0,
            last_move: 0,
            bet_asset_id,
            bet_amount,
        };
        let ghost rows0 = self.rows();
        self.matches.push((id, new_match));
        self.next_nonce = nonce + 1;
        self.events.push(Event::MatchCreated(challenger, opponent, id));
        proof {
            let pre = *old(self);
            let custody = pre.spec_config().pallet_account;
            let rows1 = self.rows();
            let row = rows1.last();
            assert(rows1 == rows0.push(row));
            assert(rows1.drop_last() =~= rows0);
            // the new identifier was never live: every stored nonce is older
            assert(!has_row(rows0, id)) by {
                if has_row(rows0, id) {
                    let i = row_index_of(rows0, id);
                    assert(row_ok(rows0[i], nonce, custody));
                }
            }
            // stored nonces stay unique and rows stay well-formed
            assert forall|i: int, j: int| 0 <= i < j < rows1.len() implies rows1[i].1.nonce
                != rows1[j].1.nonce by {
                if j < rows0.len() {
                    assert(rows1[i] == rows0[i] && rows1[j] == rows0[j]);
                } else {
                    assert(rows1[i] == rows0[i]);
                    assert(row_ok(rows0[i], nonce, custody));
                }
            }
            assert forall|i: int| 0 <= i < rows1.len() implies row_ok(
                #[trigger] rows1[i],
                self.spec_next_nonce(),
                custody,
            ) by {
                if i < rows0.len() {
                    assert(rows1[i] == rows0[i]);
                    assert(row_ok(rows0[i], nonce, custody));
                }
            }
            assert forall|j: int| 0 <= j < rows1.len() implies self.ledger_view(
            ).spec_asset_exists((#[trigger] rows1[j]).1.bet_asset_id) by {
                if j < rows0.len() {
                    assert(rows1[j] == rows0[j]);
                    assert(pre.ledger_view().spec_asset_exists(rows0[j].1.bet_asset_id));
                }
            }
            // escrow conservation: the new row contributes exactly the stake
            // that just moved into custody
            assert forall|a: u32| #[trigger] self.spec_balance(a, custody) as int == escrow_sum(
                self.rows(),
                a,
            ) + orphan_sum(self.spec_orphaned(), a) by {
                lemma_escrow_sum_push(rows0, row, a);
                assert(pre.spec_balance(a, custody) as int == escrow_sum(rows0, a) + orphan_sum(
                    pre.spec_orphaned(),
                    a,
                ));
                assert(self.spec_balance(a, custody) == spec_balance_after_transfer(
                    pre.ledger_view(),
                    bet_asset_id,
                    challenger,
                    custody,
                    bet_amount,
                    a,
                    custody,
                ));
            }
            lemma_ids_unique(rows1, self.spec_next_nonce(), custody);
            lemma_row_at(rows1, id, rows1.len() - 1);
        }
        Ok(id)
    }
}


/// The outcome `abort_match` decides before mutating anything: the match
/// must exist, must still await its opponent, the caller must be its
/// challenger, and the refund must transfer back out of custody.
pub open spec fn spec_abort_outcome(p: Pallet, caller: u64, id: MatchId) -> Result<(), Error> {
    if !p.spec_has_match(id) {
        Err(Error::NonExistentMatch)
    } else {
        let m = p.spec_match(id);
        if !(m.state is AwaitingOpponent) {
            Err(Error::NotAwaitingOpponent)
        } else if caller != m.challenger {
            Err(Error::NotMatchChallenger)
        } else {
            match spec_transfer_outcome(
                p.ledger_view(),
                m.bet_asset_id,
                p.spec_config().pallet_account,
                m.challenger,
                m.bet_amount,
            ) {
                Ok(()) => Ok(()),
                Err(e) => Err(Error::Transfer(e)),
            }
        }
    }
}

/// The outcome `join_match` decides before mutating anything: the match
/// must exist, the caller must be its designated opponent, the match must
/// still await them, and their stake must transfer into custody.
pub open spec fn spec_join_outcome(p: Pallet, caller: u64, id: MatchId) -> Result<(), Error> {
    if !p.spec_has_match(id) {
        Err(Error::NonExistentMatch)
    } else {
        let m = p.spec_match(id);
        if caller != m.opponent {
            Err(Error::NotMatchOpponent)
        } else if !(m.state is AwaitingOpponent) {
            Err(Error::NotAwaitingOpponent)
        } else {
            match spec_transfer_outcome(
                p.ledger_view(),
                m.bet_asset_id,
                m.opponent,
                p.spec_config().pallet_account,
                m.bet_amount,
            ) {
                Ok(()) => Ok(()),
                Err(e) => Err(Error::Transfer(e)),
            }
        }
    }
}

/// How a record changes when its opponent joins: the state moves to ongoing
/// with white to play, the clock starts now, and every other field is kept.
pub open spec fn match_joined(m0: Match, m1: Match, now: u64) -> bool {
    &&& m1.challenger == m0.challenger
    &&& m1.opponent == m0.opponent
    &&& m1.board == m0.board
    &&& m1.state == MatchState::OnGoing(NextMove::Whites)
    &&& m1.nonce == m0.nonce
    &&& m1.style == m0.style
    &&& m1.start == now
    &&& m1.last_move == m0.last_move
    &&& m1.bet_asset_id == m0.bet_asset_id
    &&& m1.bet_amount == m0.bet_amount
}

impl Pallet {
    /// Aborts a match that still awaits its opponent: refunds the
    /// challenger's stake and deletes the record. Only the challenger may
    /// abort, and only before the opponent joined; after that the abort
    /// fails with a state error whoever calls.
    pub fn abort_match(&mut self, caller: u64, id: MatchId) -> (r: Result<(), Error>)
        requires
            old(self).wf(),
        ensures
            final(self).wf(),
            r == spec_abort_outcome(*old(self), caller, id),
            r is Err ==> *final(self) == *old(self),
            forall|a: u32| #[trigger]
                final(self).spec_asset_exists(a) == old(self).spec_asset_exists(a),
            forall|a: u32| #[trigger]
                final(self).spec_min_balance(a) == old(self).spec_min_balance(a),
            final(self).spec_config() == old(self).spec_config(),
            r is Ok ==> {
                let i = row_index_of(old(self).rows(), id);
                let m0 = old(self).spec_match(id);
                &&& old(self).spec_has_match(id)
                &&& m0.state is AwaitingOpponent
                &&& caller == m0.challenger
                &&& final(self).rows() == old(self).rows().remove(i)
                &&& !final(self).spec_has_match(id)
                &&& forall|a: u32, acc: u64| #[trigger]
                    final(self).spec_balance(a, acc) == spec_balance_after_transfer(
                        old(self).ledger_view(),
                        m0.bet_asset_id,
                        old(self).spec_config().pallet_account,
                        m0.challenger,
                        m0.bet_amount,
                        a,
                        acc,
                    )
                &&& final(self).events_seq() == old(self).events_seq().push(
                    Event::MatchAborted(id),
                )
                &&& final(self).spec_next_nonce() == old(self).spec_next_nonce()
                &&& final(self).elo_table() == old(self).elo_table()
                &&& final(self).spec_orphaned() == old(self).spec_orphaned()
            },
    {
        proof {
            lemma_ids_unique(
                self.rows(),
                self.spec_next_nonce(),
                self.spec_config().pallet_account,
            );
        }
        let i = match self.find_row(id) {
            Some(i) => i,
            None => {
                return Err(Error::NonExistentMatch);
            },
        };
        proof {
            lemma_row_at(self.rows(), id, i as int);
        }
        if !(self.matches[i].1.state == MatchState::AwaitingOpponent) {
            return Err(Error::NotAwaitingOpponent);
        }
        if caller != self.matches[i].1.challenger {
            return Err(Error::NotMatchChallenger);
        }
        let asset = self.matches[i].1.bet_asset_id;
        let amount = self.matches[i].1.bet_amount;
        let challenger = self.matches[i].1.challenger;
        match self.ledger.transfer(asset, self.config.pallet_account, challenger, amount) {
            Ok(()) => {},
            Err(e) => {
                return Err(Error::Transfer(e));
            },
        }
        let ghost rows0 = self.rows();
        let _removed = self.matches.remove(i);
        self.events.push(Event::MatchAborted(id));
        proof {
            let pre = *old(self);
            let custody = pre.spec_config().pallet_account;
            let rows1 = self.rows();
            assert(rows1 == rows0.remove(i as int));
            assert forall|j: int| 0 <= j < rows1.len() implies rows1[j] == (if j < i {
                rows0[j]
            } else {
                rows0[j + 1]
            }) by {
                if j < i {
                    assert(rows1[j] == rows0.subrange(0, i as int)[j]);
                } else {
                    assert(rows1[j] == rows0.subrange(i as int + 1, rows0.len() as int)[j - i]);
                }
            }
            assert forall|p: int, q: int| 0 <= p < q < rows1.len() implies rows1[p].1.nonce
                != rows1[q].1.nonce by {}
            assert forall|j: int| 0 <= j < rows1.len() implies row_ok(
                #[trigger] rows1[j],
                self.spec_next_nonce(),
                custody,
            ) by {}
            assert forall|j: int| 0 <= j < rows1.len() implies !(#[trigger] row_matches(
                rows1[j],
                id,
            )) by {
                if j < i {
                    assert(rows0[j].0 != rows0[i as int].0);
                } else {
                    assert(rows0[j + 1].0 != rows0[i as int].0);
                }
            }
            assert forall|j: int| 0 <= j < rows1.len() implies self.ledger_view(
            ).spec_asset_exists((#[trigger] rows1[j]).1.bet_asset_id) by {
                if j < i {
                    assert(pre.ledger_view().spec_asset_exists(rows0[j].1.bet_asset_id));
                } else {
                    assert(pre.ledger_view().spec_asset_exists(rows0[j + 1].1.bet_asset_id));
                }
            }
            assert forall|a: u32| #[trigger] self.spec_balance(a, custody) as int == escrow_sum(
                self.rows(),
                a,
            ) + orphan_sum(self.spec_orphaned(), a) by {
                lemma_escrow_sum_remove(rows0, i as int, a);
                assert(pre.spec_balance(a, custody) as int == escrow_sum(rows0, a) + orphan_sum(
                    pre.spec_orphaned(),
                    a,
                ));
                assert(self.spec_balance(a, custody) == spec_balance_after_transfer(
                    pre.ledger_view(),
                    asset,
                    custody,
                    challenger,
                    amount,
                    a,
                    custody,
                ));
            }
        }
        Ok(())
    }

    /// Joins a match as its designated opponent: escrows the opponent's
    /// stake, moves the state to ongoing with white to play, and starts the
    /// match clock at `now`.
    pub fn join_match(&mut self, caller: u64, id: MatchId, now: u64) -> (r: Result<(), Error>)
        requires
            old(self).wf(),
        ensures
            final(self).wf(),
            r == spec_join_outcome(*old(self), caller, id),
            r is Err ==> *final(self) == *old(self),
            forall|a: u32| #[trigger]
                final(self).spec_asset_exists(a) == old(self).spec_asset_exists(a),
            forall|a: u32| #[trigger]
                final(self).spec_min_balance(a) == old(self).spec_min_balance(a),
            final(self).spec_config() == old(self).spec_config(),
            r is Ok ==> {
                let i = row_index_of(old(self).rows(), id);
                let m0 = old(self).spec_match(id);
                &&& old(self).spec_has_match(id)
                &&& m0.state is AwaitingOpponent
                &&& caller == m0.opponent
                &&& final(self).rows().len() == old(self).rows().len()
                &&& forall|j: int|
                    0 <= j < old(self).rows().len() && j != i ==> final(self).rows()[j] == old(
                        self,
                    ).rows()[j]
                &&& final(self).rows()[i].0 == id
                &&& match_joined(m0, final(self).rows()[i].1, now)
                &&& final(self).spec_has_match(id)
                &&& final(self).spec_match(id) == final(self).rows()[i].1
                &&& forall|a: u32, acc: u64| #[trigger]
                    final(self).spec_balance(a, acc) == spec_balance_after_transfer(
                        old(self).ledger_view(),
                        m0.bet_asset_id,
                        m0.opponent,
                        old(self).spec_config().pallet_account,
                        m0.bet_amount,
                        a,
                        acc,
                    )
                &&& final(self).events_seq() == old(self).events_seq().push(
                    Event::MatchStarted(id),
                )
                &&& final(self).spec_next_nonce() == old(self).spec_next_nonce()
                &&& final(self).elo_table() == old(self).elo_table()
                &&& final(self).spec_orphaned() == old(self).spec_orphaned()
            },
    {
        proof {
            lemma_ids_unique(
                self.rows(),
                self.spec_next_nonce(),
                self.spec_config().pallet_account,
            );
        }
        let i = match self.find_row(id) {
            Some(i) => i,
            None => {
                return Err(Error::NonExistentMatch);
            },
        };
        proof {
            lemma_row_at(self.rows(), id, i as int);
        }
        if caller != self.matches[i].1.opponent {
            return Err(Error::NotMatchOpponent);
        }
        if !(self.matches[i].1.state == MatchState::AwaitingOpponent) {
            return Err(Error::NotAwaitingOpponent);
        }
        let asset = self.matches[i].1.bet_asset_id;
        let amount = self.matches[i].1.bet_amount;
        let opponent = self.matches[i].1.opponent;
        match self.ledger.transfer(asset, opponent, self.config.pallet_account, amount) {
            Ok(()) => {},
            Err(e) => {
                return Err(Error::Transfer(e));
            },
        }
        let ghost rows0 = self.rows();
        self.matches[i].1.state = MatchState::OnGoing(NextMove::Whites);
        self.matches[i].1.start = now;
        self.events.push(Event::MatchStarted(id));
        proof {
            let pre = *old(self);
            let custody = pre.spec_config().pallet_account;
            let rows1 = self.rows();
            let row = rows1[i as int];
            assert(rows1 == rows0.update(i as int, row));
            assert forall|p: int, q: int| 0 <= p < q < rows1.len() implies rows1[p].1.nonce
                != rows1[q].1.nonce by {
                assert(rows1[p].1.nonce == rows0[p].1.nonce);
                assert(rows1[q].1.nonce == rows0[q].1.nonce);
            }
            assert forall|j: int| 0 <= j < rows1.len() implies row_ok(
                #[trigger] rows1[j],
                self.spec_next_nonce(),
                custody,
            ) by {
                assert(row_ok(rows0[j], pre.spec_next_nonce(), custody));
                if j == i {
                    assert(rows1[j].1.board == rows0[j].1.board);
                }
            }
            assert forall|j: int| 0 <= j < rows1.len() implies self.ledger_view(
            ).spec_asset_exists((#[trigger] rows1[j]).1.bet_asset_id) by {
                assert(pre.ledger_view().spec_asset_exists(rows0[j].1.bet_asset_id));
                assert(rows1[j].1.bet_asset_id == rows0[j].1.bet_asset_id);
            }
            assert forall|a: u32| #[trigger] self.spec_balance(a, custody) as int == escrow_sum(
                self.rows(),
                a,
            ) + orphan_sum(self.spec_orphaned(), a) by {
                lemma_escrow_sum_update(rows0, i as int, row, a);
                assert(pre.spec_balance(a, custody) as int == escrow_sum(rows0, a) + orphan_sum(
                    pre.spec_orphaned(),
                    a,
                ));
                assert(self.spec_balance(a, custody) == spec_balance_after_transfer(
                    pre.ledger_view(),
                    asset,
                    opponent,
                    custody,
                    amount,
                    a,
                    custody,
                ));
            }
            lemma_ids_unique(rows1, self.spec_next_nonce(), custody);
            lemma_row_at(rows1, id, i as int);
        }
        Ok(())
    }
}


/// The side that moves after this one.
pub open spec fn spec_flip(t: NextMove) -> NextMove {
    match t {
        NextMove::Whites => NextMove::Blacks,
        NextMove::Blacks => NextMove::Whites,
    }
}

/// The account whose turn it is.
pub open spec fn spec_mover(m: Match, turn: NextMove) -> u64 {
    if turn == NextMove::Whites {
        m.challenger
    } else {
        m.opponent
    }
}

/// The rating a player ends up with after a settlement against `other`.
pub open spec fn spec_elo_after(p: Pallet, player: u64, other: u64, score: Score) -> u16 {
    elo::spec_new_rating(
        p.spec_player_elo(player),
        p.spec_config().k,
        score,
        elo::spec_expected_percent(
            p.spec_player_elo(player) as int,
            p.spec_player_elo(other) as int,
        ),
    )
}

/// The outcome `make_move` decides before mutating anything: the encoding
/// must be exactly four characters, the match must exist and be ongoing, the
/// caller must be the side to move, and the move must decode and be legal in
/// the stored position.
pub open spec fn spec_make_move_outcome(p: Pallet, caller: u64, id: MatchId, mv: Seq<char>) -> Result<
    (),
    Error,
> {
    if mv.len() != 4 {
        Err(Error::InvalidMoveEncoding)
    } else if !p.spec_has_match(id) {
        Err(Error::NonExistentMatch)
    } else {
        let m = p.spec_match(id);
        match m.state {
            MatchState::AwaitingOpponent => Err(Error::StillAwaitingOpponent),
            MatchState::Won => Err(Error::MatchAlreadyFinished),
            MatchState::Drawn => Err(Error::MatchAlreadyFinished),
            MatchState::OnGoing(turn) => {
                if caller != spec_mover(m, turn) {
                    Err(Error::NotYourTurn)
                } else if !codec::fen_ok(m.board@) {
                    Err(Error::InvalidBoardEncoding)
                } else if !codec::move_ok(mv) {
                    Err(Error::InvalidMoveEncoding)
                } else if !codec::move_legal(m.board@, mv) {
                    Err(Error::IllegalMove)
                } else {
                    Ok(())
                }
            },
        }
    }
}

/// How a record changes when a move is accepted and the game goes on: the
/// board advances, the side to move flips, the move clock restarts at `now`,
/// and every other field is kept.
pub open spec fn match_moved(m0: Match, m1: Match, turn: NextMove, mv: Seq<char>, now: u64) -> bool {
    &&& m1.challenger == m0.challenger
    &&& m1.opponent == m0.opponent
    &&& m1.board@ == codec::fen_after(m0.board@, mv)
    &&& m1.state == MatchState::OnGoing(spec_flip(turn))
    &&& m1.nonce == m0.nonce
    &&& m1.style == m0.style
    &&& m1.start == m0.start
    &&& m1.last_move == now
    &&& m1.bet_asset_id == m0.bet_asset_id
    &&& m1.bet_amount == m0.bet_amount
}

/// A settlement in which `winner` takes the whole pot: the match is deleted,
/// both ratings are updated, a win event carries the final position, and the
/// pot either reaches the winner or — if the payout transfer fails — stays
/// in custody, reported by an award-error event and logged as orphaned.
pub open spec fn settled_won(
    pre: Pallet,
    post: Pallet,
    id: MatchId,
    winner: u64,
    loser: u64,
    board1: Seq<char>,
) -> bool {
    let i = row_index_of(pre.rows(), id);
    let m0 = row_of(pre.rows(), id);
    let pot = spec_pot(m0.bet_amount);
    let payout = spec_transfer_outcome(
        pre.ledger_view(),
        m0.bet_asset_id,
        pre.spec_config().pallet_account,
        winner,
        pot,
    );
    &&& post.rows() == pre.rows().remove(i)
    &&& !has_row(post.rows(), id)
    &&& post.spec_player_elo(winner) == spec_elo_after(pre, winner, loser, Score::Win)
    &&& post.spec_player_elo(loser) == spec_elo_after(pre, loser, winner, Score::Loss)
    &&& forall|acc: u64|
        acc != winner && acc != loser ==> #[trigger] post.spec_player_elo(acc)
            == pre.spec_player_elo(acc)
    &&& post.events_seq().subrange(0, pre.events_seq().len() as int) == pre.events_seq()
    &&& (post.events_seq()[pre.events_seq().len() as int] matches Event::MatchWon(eid, w, b)
        && eid == id && w == winner && b@ == board1)
    &&& (payout is Ok ==> {
        &&& post.events_seq().len() == pre.events_seq().len() + 1
        &&& forall|a: u32, acc: u64| #[trigger]
            post.spec_balance(a, acc) == spec_balance_after_transfer(
                pre.ledger_view(),
                m0.bet_asset_id,
                pre.spec_config().pallet_account,
                winner,
                pot,
                a,
                acc,
            )
        &&& post.spec_orphaned() == pre.spec_orphaned()
    })
    &&& (payout is Err ==> {
        &&& post.events_seq().len() == pre.events_seq().len() + 2
        &&& post.events_seq().last() == Event::MatchAwardError(id, winner)
        &&& forall|a: u32, acc: u64| #[trigger]
            post.spec_balance(a, acc) == pre.spec_balance(a, acc)
        &&& post.spec_orphaned() == pre.spec_orphaned().push((m0.bet_asset_id, pot))
    })
}

/// A settlement in which the match is drawn: the match is deleted, both
/// ratings move by a half score, a draw event carries the final position,
/// and each player's stake is refunded. A refund transfer that fails leaves
/// the remaining funds in custody, reported by a refund-error event and
/// logged as orphaned; a failed first refund also forgoes the second.
pub open spec fn settled_drawn(pre: Pallet, post: Pallet, id: MatchId, board1: Seq<char>) -> bool {
    let i = row_index_of(pre.rows(), id);
    let m0 = row_of(pre.rows(), id);
    let amount = m0.bet_amount;
    let asset = m0.bet_asset_id;
    let custody = pre.spec_config().pallet_account;
    let refund1 = spec_transfer_outcome(pre.ledger_view(), asset, custody, m0.challenger, amount);
    let second_fits = pre.spec_balance(asset, m0.opponent) + amount <= u64::MAX;
    &&& post.rows() == pre.rows().remove(i)
    &&& !has_row(post.rows(), id)
    &&& post.spec_player_elo(m0.challenger) == spec_elo_after(
        pre,
        m0.challenger,
        m0.opponent,
        Score::Draw,
    )
    &&& post.spec_player_elo(m0.opponent) == spec_elo_after(
        pre,
        m0.opponent,
        m0.challenger,
        Score::Draw,
    )
    &&& forall|acc: u64|
        acc != m0.challenger && acc != m0.opponent ==> #[trigger] post.spec_player_elo(acc)
            == pre.spec_player_elo(acc)
    &&& post.events_seq().subrange(0, pre.events_seq().len() as int) == pre.events_seq()
    &&& (post.events_seq()[pre.events_seq().len() as int] matches Event::MatchDrawn(eid, b)
        && eid == id && b@ == board1)
    &&& (refund1 is Err ==> {
        &&& post.events_seq().len() == pre.events_seq().len() + 2
        &&& post.events_seq().last() == Event::MatchRefundError(id)
        &&& forall|a: u32, acc: u64| #[trigger]
            post.spec_balance(a, acc) == pre.spec_balance(a, acc)
        &&& post.spec_orphaned() == pre.spec_orphaned().push((asset, spec_pot(amount)))
    })
    &&& (refund1 is Ok && second_fits ==> {
        &&& post.events_seq().len() == pre.events_seq().len() + 1
        &&& forall|a: u32, acc: u64| #[trigger]
            post.spec_balance(a, acc) == (if a == asset && acc == custody {
                (pre.spec_balance(asset, custody) - 2 * amount) as u64
            } else if a == asset && acc == m0.challenger {
                (pre.spec_balance(asset, m0.challenger) + amount) as u64
            } else if a == asset && acc == m0.opponent {
                (pre.spec_balance(asset, m0.opponent) + amount) as u64
            } else {
                pre.spec_balance(a, acc)
            })
        &&& post.spec_orphaned() == pre.spec_orphaned()
    })
    &&& (refund1 is Ok && !second_fits ==> {
        &&& post.events_seq().len() == pre.events_seq().len() + 2
        &&& post.events_seq().last() == Event::MatchRefundError(id)
        &&& forall|a: u32, acc: u64| #[trigger]
            post.spec_balance(a, acc) == (if a == asset && acc == custody {
                (pre.spec_balance(asset, custody) - amount) as u64
            } else if a == asset && acc == m0.challenger {
                (pre.spec_balance(asset, m0.challenger) + amount) as u64
            } else {
                pre.spec_balance(a, acc)
            })
        &&& post.spec_orphaned() == pre.spec_orphaned().push((asset, amount))
    })
}

impl Pallet {
    /// Plays one move: enforces the four-character encoding, the match's
    /// existence, the turn order and the move's legality, then applies the
    /// move through the engine. If the game goes on, the board, turn and
    /// move clock are updated; a win pays the whole pot to the mover and a
    /// draw refunds both stakes, in both cases updating ratings and deleting
    /// the match.
    pub fn make_move(&mut self, caller: u64, id: MatchId, encoded_move: &str, now: u64) -> (r:
        Result<(), Error>)
        requires
            old(self).wf(),
        ensures
            final(self).wf(),
            r == spec_make_move_outcome(*old(self), caller, id, encoded_move@),
            r is Err ==> *final(self) == *old(self),
            forall|a: u32| #[trigger]
                final(self).spec_asset_exists(a) == old(self).spec_asset_exists(a),
            forall|a: u32| #[trigger]
                final(self).spec_min_balance(a) == old(self).spec_min_balance(a),
            final(self).spec_config() == old(self).spec_config(),
            final(self).spec_next_nonce() == old(self).spec_next_nonce(),
            r is Ok ==> {
                let i = row_index_of(old(self).rows(), id);
                let m0 = old(self).spec_match(id);
                let turn = m0.state->OnGoing_0;
                let board1 = codec::fen_after(m0.board@, encoded_move@);
                &&& old(self).spec_has_match(id)
                &&& m0.state == MatchState::OnGoing(turn)
                &&& caller == spec_mover(m0, turn)
                &&& match codec::status_of(board1) {
                    BoardStatus::Ongoing => {
                        &&& final(self).rows().len() == old(self).rows().len()
                        &&& forall|j: int|
                            0 <= j < old(self).rows().len() && j != i ==> final(self).rows()[j]
                                == old(self).rows()[j]
                        &&& final(self).rows()[i].0 == id
                        &&& match_moved(m0, final(self).rows()[i].1, turn, encoded_move@, now)
                        &&& final(self).events_seq().len() == old(self).events_seq().len() + 1
                        &&& final(self).events_seq().drop_last() == old(self).events_seq()
                        &&& (final(self).events_seq().last() matches Event::MoveExecuted(
                            eid,
                            emv,
                            eb,
                        ) && eid == id && emv@ == encoded_move@ && eb@ == board1)
                        &&& forall|a: u32, acc: u64| #[trigger]
                            final(self).spec_balance(a, acc) == old(self).spec_balance(a, acc)
                        &&& final(self).elo_table() == old(self).elo_table()
                        &&& final(self).spec_orphaned() == old(self).spec_orphaned()
                    },
                    BoardStatus::Won => settled_won(
                        *old(self),
                        *final(self),
                        id,
                        caller,
                        (if caller == m0.challenger {
                            m0.opponent
                        } else {
                            m0.challenger
                        }),
                        board1,
                    ),
                    BoardStatus::Drawn => settled_drawn(*old(self), *final(self), id, board1),
                }
            },
    {
        if encoded_move.unicode_len() != 4 {
            return Err(Error::InvalidMoveEncoding);
        }
        proof {
            lemma_ids_unique(
                self.rows(),
                self.spec_next_nonce(),
                self.spec_config().pallet_account,
            );
        }
        let i = match self.find_row(id) {
            Some(i) => i,
            None => {
                return Err(Error::NonExistentMatch);
            },
        };
        proof {
            lemma_row_at(self.rows(), id, i as int);
        }
        let turn = match self.matches[i].1.state {
            MatchState::AwaitingOpponent => {
                return Err(Error::StillAwaitingOpponent);
            },
            MatchState::Won => {
                return Err(Error::MatchAlreadyFinished);
            },
            MatchState::Drawn => {
                return Err(Error::MatchAlreadyFinished);
            },
            MatchState::OnGoing(t) => t,
        };
        let mover = if turn == NextMove::Whites {
            self.matches[i].1.challenger
        } else {
            self.matches[i].1.opponent
        };
        if caller != mover {
            return Err(Error::NotYourTurn);
        }
        let (new_board, status) = match codec::apply_move_checked(
            self.matches[i].1.board.as_str(),
            encoded_move,
        ) {
            Ok(p) => p,
            Err(e) => {
                return Err(e);
            },
        };
        let challenger = self.matches[i].1.challenger;
        let opponent = self.matches[i].1.opponent;
        let asset = self.matches[i].1.bet_asset_id;
        let amount = self.matches[i].1.bet_amount;
        let ghost pre = *old(self);
        let ghost rows0 = self.rows();
        let ghost custody = pre.spec_config().pallet_account;
        match status {
            BoardStatus::Ongoing => {
                let next_turn = if turn == NextMove::Whites {
                    NextMove::Blacks
                } else {
                    NextMove::Whites
                };
                let board_copy = new_board.clone();
                self.matches[i].1.board = new_board;
                self.matches[i].1.state = MatchState::OnGoing(next_turn);
                self.matches[i].1.last_move = now;
                self.events.push(
                    Event::MoveExecuted(id, String::from_str(encoded_move), board_copy),
                );
                proof {
                    let rows1 = self.rows();
                    let row = rows1[i as int];
                    assert(rows1 == rows0.update(i as int, row));
                    assert forall|p_: int, q_: int| 0 <= p_ < q_ < rows1.len() implies
                        rows1[p_].1.nonce != rows1[q_].1.nonce by {
                        assert(rows1[p_].1.nonce == rows0[p_].1.nonce);
                        assert(rows1[q_].1.nonce == rows0[q_].1.nonce);
                    }
                    assert forall|j: int| 0 <= j < rows1.len() implies row_ok(
                        #[trigger] rows1[j],
                        self.spec_next_nonce(),
                        custody,
                    ) by {
                        assert(row_ok(rows0[j], pre.spec_next_nonce(), custody));
                    }
                    assert forall|j: int| 0 <= j < rows1.len() implies self.ledger_view(
                    ).spec_asset_exists((#[trigger] rows1[j]).1.bet_asset_id) by {
                        assert(pre.ledger_view().spec_asset_exists(rows0[j].1.bet_asset_id));
                        assert(rows1[j].1.bet_asset_id == rows0[j].1.bet_asset_id);
                    }
                    assert forall|a: u32| #[trigger] self.spec_balance(a, custody) as int
                        == escrow_sum(self.rows(), a) + orphan_sum(self.spec_orphaned(), a) by {
                        lemma_escrow_sum_update(rows0, i as int, row, a);
                        assert(pre.spec_balance(a, custody) as int == escrow_sum(rows0, a)
                            + orphan_sum(pre.spec_orphaned(), a));
                    }
                    assert(self.events_seq().drop_last() =~= pre.events_seq());
                }
                Ok(())
            },
            BoardStatus::Won => {
                let winner = caller;
                let loser = if winner == challenger {
                    opponent
                } else {
                    challenger
                };
                proof {
                    lemma_escrow_sum_bound(rows0, i as int, asset);
                    lemma_orphan_sum_nonneg(pre.spec_orphaned(), asset);
                }
                let pot = amount.saturating_add(amount);
                self.events.push(Event::MatchWon(id, winner, new_board));
                let payout = self.ledger.transfer(asset, self.config.pallet_account, winner, pot);
                let ghost orphaned0 = self.spec_orphaned();
                match payout {
                    Ok(()) => {},
                    Err(_) => {
                        self.events.push(Event::MatchAwardError(id, winner));
                        self.orphaned.push((asset, pot));
                        proof {
                            lemma_orphan_sum_push(orphaned0, (asset, pot), asset);
                        }
                    },
                }
                self.elo.update_pair(winner, Score::Win, loser, Score::Loss, self.config.k);
                let _removed = self.matches.remove(i);
                proof {
                    let rows1 = self.rows();
                    assert(rows1 == rows0.remove(i as int));
                    assert forall|j: int| 0 <= j < rows1.len() implies rows1[j] == (if j < i {
                        rows0[j]
                    } else {
                        rows0[j + 1]
                    }) by {
                        if j < i {
                            assert(rows1[j] == rows0.subrange(0, i as int)[j]);
                        } else {
                            assert(rows1[j] == rows0.subrange(
                                i as int + 1,
                                rows0.len() as int,
                            )[j - i]);
                        }
                    }
                    assert forall|p_: int, q_: int| 0 <= p_ < q_ < rows1.len() implies
                        rows1[p_].1.nonce != rows1[q_].1.nonce by {}
                    assert forall|j: int| 0 <= j < rows1.len() implies row_ok(
                        #[trigger] rows1[j],
                        self.spec_next_nonce(),
                        custody,
                    ) by {}
                    assert forall|j: int| 0 <= j < rows1.len() implies self.ledger_view(
                    ).spec_asset_exists((#[trigger] rows1[j]).1.bet_asset_id) by {
                        if j < i {
                            assert(pre.ledger_view().spec_asset_exists(rows0[j].1.bet_asset_id));
                        } else {
                            assert(pre.ledger_view().spec_asset_exists(
                                rows0[j + 1].1.bet_asset_id,
                            ));
                        }
                    }
                    assert forall|j: int| 0 <= j < rows1.len() implies !(#[trigger] row_matches(
                        rows1[j],
                        id,
                    )) by {
                        if j < i {
                            assert(rows0[j].0 != rows0[i as int].0);
                        } else {
                            assert(rows0[j + 1].0 != rows0[i as int].0);
                        }
                    }
                    assert forall|a: u32| #[trigger] self.spec_balance(a, custody) as int
                        == escrow_sum(self.rows(), a) + orphan_sum(self.spec_orphaned(), a) by {
                        lemma_escrow_sum_remove(rows0, i as int, a);
                        lemma_orphan_sum_nonneg(pre.spec_orphaned(), a);
                        assert(pre.spec_balance(a, custody) as int == escrow_sum(rows0, a)
                            + orphan_sum(pre.spec_orphaned(), a));
                        if payout is Err {
                            lemma_orphan_sum_push(orphaned0, (asset, pot), a);
                        }
                    }
                    assert(self.events_seq().subrange(0, pre.events_seq().len() as int)
                        =~= pre.events_seq());
                }
                Ok(())
            },
            BoardStatus::Drawn => {
                proof {
                    lemma_escrow_sum_bound(rows0, i as int, asset);
                    lemma_orphan_sum_nonneg(pre.spec_orphaned(), asset);
                }
                let pot = amount.saturating_add(amount);
                self.events.push(Event::MatchDrawn(id, new_board));
                let ghost orphaned0 = self.spec_orphaned();
                match self.ledger.transfer(asset, self.config.pallet_account, challenger, amount) {
                    Ok(()) => {
                        proof {
                            // custody covered both stakes, so after the first
                            // refund it still covers the second; only the
                            // opponent's balance width can stop it
                            assert(pre.spec_balance(asset, custody) as int == escrow_sum(
                                rows0,
                                asset,
                            ) + orphan_sum(pre.spec_orphaned(), asset));
                            assert(row_escrow(rows0[i as int], asset) == 2 * amount);
                            assert(self.spec_balance(asset, custody) == (pre.spec_balance(
                                asset,
                                custody,
                            ) - amount) as u64);
                            assert(self.spec_balance(asset, opponent) == pre.spec_balance(
                                asset,
                                opponent,
                            ));
                            assert(self.ledger_view().spec_asset_exists(asset));
                        }
                        let r2 = self.ledger.transfer(
                            asset,
                            self.config.pallet_account,
                            opponent,
                            amount,
                        );
                        proof {
                            assert(r2 is Ok <==> pre.spec_balance(asset, opponent) + amount
                                <= u64::MAX);
                        }
                        match r2 {
                            Ok(()) => {},
                            Err(_) => {
                                self.events.push(Event::MatchRefundError(id));
                                self.orphaned.push((asset, amount));
                                proof {
                                    lemma_orphan_sum_push(orphaned0, (asset, amount), asset);
                                }
                            },
                        }
                    },
                    Err(_) => {
                        self.events.push(Event::MatchRefundError(id));
                        self.orphaned.push((asset, pot));
                        proof {
                            lemma_orphan_sum_push(orphaned0, (asset, pot), asset);
                        }
                    },
                }
                self.elo.update_pair(challenger, Score::Draw, opponent, Score::Draw, self.config.k);
                let _removed = self.matches.remove(i);
                proof {
                    let rows1 = self.rows();
                    assert(rows1 == rows0.remove(i as int));
                    assert forall|j: int| 0 <= j < rows1.len() implies rows1[j] == (if j < i {
                        rows0[j]
                    } else {
                        rows0[j + 1]
                    }) by {
                        if j < i {
                            assert(rows1[j] == rows0.subrange(0, i as int)[j]);
                        } else {
                            assert(rows1[j] == rows0.subrange(
                                i as int + 1,
                                rows0.len() as int,
                            )[j - i]);
                        }
                    }
                    assert forall|p_: int, q_: int| 0 <= p_ < q_ < rows1.len() implies
                        rows1[p_].1.nonce != rows1[q_].1.nonce by {}
                    assert forall|j: int| 0 <= j < rows1.len() implies row_ok(
                        #[trigger] rows1[j],
                        self.spec_next_nonce(),
                        custody,
                    ) by {}
                    assert forall|j: int| 0 <= j < rows1.len() implies self.ledger_view(
                    ).spec_asset_exists((#[trigger] rows1[j]).1.bet_asset_id) by {
                        if j < i {
                            assert(pre.ledger_view().spec_asset_exists(rows0[j].1.bet_asset_id));
                        } else {
                            assert(pre.ledger_view().spec_asset_exists(
                                rows0[j + 1].1.bet_asset_id,
                            ));
                        }
                    }
                    assert forall|j: int| 0 <= j < rows1.len() implies !(#[trigger] row_matches(
                        rows1[j],
                        id,
                    )) by {
                        if j < i {
                            assert(rows0[j].0 != rows0[i as int].0);
                        } else {
                            assert(rows0[j + 1].0 != rows0[i as int].0);
                        }
                    }
                    assert forall|a: u32| #[trigger] self.spec_balance(a, custody) as int
                        == escrow_sum(self.rows(), a) + orphan_sum(self.spec_orphaned(), a) by {
                        lemma_escrow_sum_remove(rows0, i as int, a);
                        lemma_orphan_sum_nonneg(pre.spec_orphaned(), a);
                        assert(pre.spec_balance(a, custody) as int == escrow_sum(rows0, a)
                            + orphan_sum(pre.spec_orphaned(), a));
                        if self.spec_orphaned() != orphaned0 {
                            lemma_orphan_sum_push(
                                orphaned0,
                                self.spec_orphaned().last(),
                                a,
                            );
                        }
                    }
                    assert(self.events_seq().subrange(0, pre.events_seq().len() as int)
                        =~= pre.events_seq());
                }
                Ok(())
            },
        }
    }
}


/// Time elapsed since the pending move's clock started: since the last
/// accepted move, or — while the first move is still pending — since the
/// match started. Clamped at zero for a `now` before that point.
pub open spec fn spec_elapsed(m: Match, now: u64) -> u64 {
    let reference = if m.last_move == 0 {
        m.start
    } else {
        m.last_move
    };
    if now >= reference {
        (now - reference) as u64
    } else {
        0
    }
}

/// Whether the match has crossed the extended abandonment threshold: ten
/// times the style's per-move budget.
pub open spec fn spec_abandoned(p: Pallet, m: Match, now: u64) -> bool {
    (spec_elapsed(m, now) as int) > 10 * (p.spec_config().spec_period(m.style) as int)
}

/// The side that did not abandon the match: the one not to move.
pub open spec fn spec_clear_winner(m: Match, turn: NextMove) -> u64 {
    if turn == NextMove::Whites {
        m.opponent
    } else {
        m.challenger
    }
}

/// The outcome `clear_abandoned_match` decides before mutating anything:
/// the match must exist, be ongoing, and its pending move's time budget must
/// have lapsed.
pub open spec fn spec_clear_outcome(p: Pallet, caller: u64, id: MatchId, now: u64) -> Result<
    (),
    Error,
> {
    if !p.spec_has_match(id) {
        Err(Error::NonExistentMatch)
    } else {
        let m = p.spec_match(id);
        match m.state {
            MatchState::OnGoing(turn) => {
                if spec_elapsed(m, now) <= p.spec_config().spec_period(m.style) {
                    Err(Error::MoveNotExpired)
                } else {
                    Ok(())
                }
            },
            MatchState::AwaitingOpponent => Err(Error::MatchNotOnGoing),
            MatchState::Won => Err(Error::MatchNotOnGoing),
            MatchState::Drawn => Err(Error::MatchNotOnGoing),
        }
    }
}

/// A settlement in which a third-party janitor clears a truly abandoned
/// match: the match is deleted, ratings are updated, a win event carries the
/// last position, the janitor receives the incentive share of the pot and
/// the winner the remainder. A failed split transfer leaves the unpaid funds
/// in custody, reported by a clearance-error event and logged as orphaned; a
/// failed incentive transfer also forgoes the winner's payout.
pub open spec fn settled_cleared(
    pre: Pallet,
    post: Pallet,
    id: MatchId,
    winner: u64,
    loser: u64,
    janitor: u64,
) -> bool {
    let i = row_index_of(pre.rows(), id);
    let m0 = row_of(pre.rows(), id);
    let asset = m0.bet_asset_id;
    let custody = pre.spec_config().pallet_account;
    let pot = spec_pot(m0.bet_amount);
    let incentive = spec_incentive(m0.bet_amount, pre.spec_config().incentive_share);
    let remainder = (pot - incentive) as u64;
    let pay1 = spec_transfer_outcome(pre.ledger_view(), asset, custody, janitor, incentive);
    let second_fits = pre.spec_balance(asset, winner) + remainder <= u64::MAX;
    &&& post.rows() == pre.rows().remove(i)
    &&& !has_row(post.rows(), id)
    &&& post.spec_player_elo(winner) == spec_elo_after(pre, winner, loser, Score::Win)
    &&& post.spec_player_elo(loser) == spec_elo_after(pre, loser, winner, Score::Loss)
    &&& forall|acc: u64|
        acc != winner && acc != loser ==> #[trigger] post.spec_player_elo(acc)
            == pre.spec_player_elo(acc)
    &&& post.events_seq().subrange(0, pre.events_seq().len() as int) == pre.events_seq()
    &&& (post.events_seq()[pre.events_seq().len() as int] matches Event::MatchWon(eid, w, b)
        && eid == id && w == winner && b@ == m0.board@)
    &&& (pay1 is Err ==> {
        &&& post.events_seq().len() == pre.events_seq().len() + 2
        &&& post.events_seq().last() == Event::MatchClearanceError(id, winner, janitor)
        &&& forall|a: u32, acc: u64| #[trigger]
            post.spec_balance(a, acc) == pre.spec_balance(a, acc)
        &&& post.spec_orphaned() == pre.spec_orphaned().push((asset, pot))
    })
    &&& (pay1 is Ok && second_fits ==> {
        &&& post.events_seq().len() == pre.events_seq().len() + 1
        &&& forall|a: u32, acc: u64| #[trigger]
            post.spec_balance(a, acc) == (if a == asset && acc == custody {
                (pre.spec_balance(asset, custody) - pot) as u64
            } else if a == asset && acc == janitor {
                (pre.spec_balance(asset, janitor) + incentive) as u64
            } else if a == asset && acc == winner {
                (pre.spec_balance(asset, winner) + remainder) as u64
            } else {
                pre.spec_balance(a, acc)
            })
        &&& post.spec_orphaned() == pre.spec_orphaned()
    })
    &&& (pay1 is Ok && !second_fits ==> {
        &&& post.events_seq().len() == pre.events_seq().len() + 2
        &&& post.events_seq().last() == Event::MatchClearanceError(id, winner, janitor)
        &&& forall|a: u32, acc: u64| #[trigger]
            post.spec_balance(a, acc) == (if a == asset && acc == custody {
                (pre.spec_balance(asset, custody) - incentive) as u64
            } else if a == asset && acc == janitor {
                (pre.spec_balance(asset, janitor) + incentive) as u64
            } else {
                pre.spec_balance(a, acc)
            })
        &&& post.spec_orphaned() == pre.spec_orphaned().push((asset, remainder))
    })
}

impl Pallet {
    /// Settles a match whose pending move's time budget has lapsed: the side
    /// not to move wins. A player — or any caller before the extended
    /// abandonment threshold — claims the full pot for the winner with no
    /// fee; after ten per-move budgets, a third-party caller keeps the
    /// configured incentive share and the winner receives the remainder. The
    /// custody account never takes a fee from itself. In every case ratings
    /// are updated and the match is deleted.
    pub fn clear_abandoned_match(&mut self, caller: u64, id: MatchId, now: u64) -> (r: Result<
        (),
        Error,
    >)
        requires
            old(self).wf(),
        ensures
            final(self).wf(),
            r == spec_clear_outcome(*old(self), caller, id, now),
            r is Err ==> *final(self) == *old(self),
            forall|a: u32| #[trigger]
                final(self).spec_asset_exists(a) == old(self).spec_asset_exists(a),
            forall|a: u32| #[trigger]
                final(self).spec_min_balance(a) == old(self).spec_min_balance(a),
            final(self).spec_config() == old(self).spec_config(),
            final(self).spec_next_nonce() == old(self).spec_next_nonce(),
            r is Ok ==> {
                let i = row_index_of(old(self).rows(), id);
                let m0 = old(self).spec_match(id);
                let turn = m0.state->OnGoing_0;
                let winner = spec_clear_winner(m0, turn);
                let loser = spec_mover(m0, turn);
                &&& old(self).spec_has_match(id)
                &&& m0.state == MatchState::OnGoing(turn)
                &&& if caller == m0.challenger || caller == m0.opponent || caller == old(
                    self,
                ).spec_config().pallet_account || !spec_abandoned(*old(self), m0, now) {
                    settled_won(*old(self), *final(self), id, winner, loser, m0.board@)
                } else {
                    settled_cleared(*old(self), *final(self), id, winner, loser, caller)
                }
            },
    {
        proof {
            lemma_ids_unique(
                self.rows(),
                self.spec_next_nonce(),
                self.spec_config().pallet_account,
            );
        }
        let i = match self.find_row(id) {
            Some(i) => i,
            None => {
                return Err(Error::NonExistentMatch);
            },
        };
        proof {
            lemma_row_at(self.rows(), id, i as int);
        }
        let turn = match self.matches[i].1.state {
            MatchState::OnGoing(t) => t,
            MatchState::AwaitingOpponent => {
                return Err(Error::MatchNotOnGoing);
            },
            MatchState::Won => {
                return Err(Error::MatchNotOnGoing);
            },
            MatchState::Drawn => {
                return Err(Error::MatchNotOnGoing);
            },
        };
        let reference = if self.matches[i].1.last_move == 0 {
            self.matches[i].1.start
        } else {
            self.matches[i].1.last_move
        };
        let elapsed = now.saturating_sub(reference);
        let period = self.config.period(self.matches[i].1.style);
        if elapsed <= period {
            return Err(Error::MoveNotExpired);
        }
        let challenger = self.matches[i].1.challenger;
        let opponent = self.matches[i].1.opponent;
        let asset = self.matches[i].1.bet_asset_id;
        let amount = self.matches[i].1.bet_amount;
        let winner = if turn == NextMove::Whites {
            opponent
        } else {
            challenger
        };
        let loser = if turn == NextMove::Whites {
            challenger
        } else {
            opponent
        };
        let abandoned = (elapsed as u128) > 10u128 * (period as u128);
        let ghost pre = *old(self);
        let ghost rows0 = self.rows();
        let ghost custody = pre.spec_config().pallet_account;
        proof {
            lemma_escrow_sum_bound(rows0, i as int, asset);
            lemma_orphan_sum_nonneg(pre.spec_orphaned(), asset);
        }
        let pot = amount.saturating_add(amount);
        let board_copy = self.matches[i].1.board.clone();
        self.events.push(Event::MatchWon(id, winner, board_copy));
        let ghost orphaned0 = self.spec_orphaned();
        if caller == challenger || caller == opponent || caller == self.config.pallet_account
            || !abandoned {
            match self.ledger.transfer(asset, self.config.pallet_account, winner, pot) {
                Ok(()) => {},
                Err(_) => {
                    self.events.push(Event::MatchAwardError(id, winner));
                    self.orphaned.push((asset, pot));
                    proof {
                        lemma_orphan_sum_push(orphaned0, (asset, pot), asset);
                    }
                },
            }
        } else {
            let (incentive, remainder) = incentive_split(amount, self.config.incentive_share);
            match self.ledger.transfer(asset, self.config.pallet_account, caller, incentive) {
                Ok(()) => {
                    proof {
                        assert(pre.spec_balance(asset, custody) as int == escrow_sum(rows0, asset)
                            + orphan_sum(pre.spec_orphaned(), asset));
                        assert(row_escrow(rows0[i as int], asset) == 2 * amount);
                        assert(self.spec_balance(asset, custody) == (pre.spec_balance(
                            asset,
                            custody,
                        ) - incentive) as u64);
                        assert(self.spec_balance(asset, winner) == pre.spec_balance(
                            asset,
                            winner,
                        ));
                        assert(self.ledger_view().spec_asset_exists(asset));
                    }
                    let r2 = self.ledger.transfer(
                        asset,
                        self.config.pallet_account,
                        winner,
                        remainder,
                    );
                    proof {
                        assert(r2 is Ok <==> pre.spec_balance(asset, winner) + remainder
                            <= u64::MAX);
                    }
                    match r2 {
                        Ok(()) => {},
                        Err(_) => {
                            self.events.push(Event::MatchClearanceError(id, winner, caller));
                            self.orphaned.push((asset, remainder));
                            proof {
                                lemma_orphan_sum_push(orphaned0, (asset, remainder), asset);
                            }
                        },
                    }
                },
                Err(_) => {
                    self.events.push(Event::MatchClearanceError(id, winner, caller));
                    self.orphaned.push((asset, pot));
                    proof {
                        lemma_orphan_sum_push(orphaned0, (asset, pot), asset);
                    }
                },
            }
        }
        self.elo.update_pair(winner, Score::Win, loser, Score::Loss, self.config.k);
        let _removed = self.matches.remove(i);
        proof {
            let rows1 = self.rows();
            assert(rows1 == rows0.remove(i as int));
            assert forall|j: int| 0 <= j < rows1.len() implies rows1[j] == (if j < i {
                rows0[j]
            } else {
                rows0[j + 1]
            }) by {
                if j < i {
                    assert(rows1[j] == rows0.subrange(0, i as int)[j]);
                } else {
                    assert(rows1[j] == rows0.subrange(i as int + 1, rows0.len() as int)[j - i]);
                }
            }
            assert forall|p_: int, q_: int| 0 <= p_ < q_ < rows1.len() implies rows1[p_].1.nonce
                != rows1[q_].1.nonce by {}
            assert forall|j: int| 0 <= j < rows1.len() implies row_ok(
                #[trigger] rows1[j],
                self.spec_next_nonce(),
                custody,
            ) by {}
            assert forall|j: int| 0 <= j < rows1.len() implies self.ledger_view(
            ).spec_asset_exists((#[trigger] rows1[j]).1.bet_asset_id) by {
                if j < i {
                    assert(pre.ledger_view().spec_asset_exists(rows0[j].1.bet_asset_id));
                } else {
                    assert(pre.ledger_view().spec_asset_exists(rows0[j + 1].1.bet_asset_id));
                }
            }
            assert forall|j: int| 0 <= j < rows1.len() implies !(#[trigger] row_matches(
                rows1[j],
                id,
            )) by {
                if j < i {
                    assert(rows0[j].0 != rows0[i as int].0);
                } else {
                    assert(rows0[j + 1].0 != rows0[i as int].0);
                }
            }
            assert forall|a: u32| #[trigger] self.spec_balance(a, custody) as int == escrow_sum(
                self.rows(),
                a,
            ) + orphan_sum(self.spec_orphaned(), a) by {
                lemma_escrow_sum_remove(rows0, i as int, a);
                lemma_orphan_sum_nonneg(pre.spec_orphaned(), a);
                assert(pre.spec_balance(a, custody) as int == escrow_sum(rows0, a) + orphan_sum(
                    pre.spec_orphaned(),
                    a,
                ));
                if self.spec_orphaned() != orphaned0 {
                    lemma_orphan_sum_push(orphaned0, self.spec_orphaned().last(), a);
                }
            }
            assert(self.events_seq().subrange(0, pre.events_seq().len() as int)
                =~= pre.events_seq());
        }
        Ok(())
    }
}


impl Pallet {
    /// The log of payouts that failed during settlement, oldest first: the
    /// stake asset and the amount awaiting out-of-band reconciliation.
    pub fn orphaned_funds(&self) -> (r: &Vec<(u32, u64)>)
        ensures
            r@ == self.spec_orphaned(),
    {
        &self.orphaned
    }
}

/// The rating the genesis list leaves an account at: the last listed entry
/// for the account wins, and an unlisted account keeps `fallback`.
pub open spec fn genesis_rating(entries: Seq<(u64, u16)>, account: u64, fallback: u16) -> u16
    decreases entries.len(),
{
    if entries.len() == 0 {
        fallback
    } else if entries.last().0 == account {
        entries.last().1
    } else {
        genesis_rating(entries.drop_last(), account, fallback)
    }
}

/// Genesis ratings: accounts that start from a rating other than the
/// default.
pub struct GenesisConfig {
    pub elo: Vec<(u64, u16)>,
}

impl Default for GenesisConfig {
    /// An empty genesis: every account starts at the default rating.
    fn default() -> (r: GenesisConfig)
        ensures
            r.elo@.len() == 0,
    {
        GenesisConfig { elo: Vec::new() }
    }
}

impl GenesisConfig {
    /// Applies the genesis ratings in order: a later entry for the same
    /// account overwrites an earlier one, and unlisted accounts keep their
    /// rating.
    pub fn build(&self, p: &mut Pallet)
        requires
            old(p).wf(),
        ensures
            final(p).wf(),
            forall|acc: u64| #[trigger]
                final(p).spec_player_elo(acc) == genesis_rating(
                    self.elo@,
                    acc,
                    old(p).spec_player_elo(acc),
                ),
            final(p).spec_config() == old(p).spec_config(),
            final(p).ledger_view() == old(p).ledger_view(),
            final(p).rows() == old(p).rows(),
            final(p).spec_next_nonce() == old(p).spec_next_nonce(),
            final(p).events_seq() == old(p).events_seq(),
            final(p).spec_orphaned() == old(p).spec_orphaned(),
    {
        let ghost elo0 = p.elo_table();
        let mut i: usize = 0;
        while i < self.elo.len()
            invariant
                i <= self.elo@.len(),
                p.elo_table().wf(),
                forall|acc: u64| #[trigger]
                    p.elo_table().spec_rating(acc) == genesis_rating(
                        self.elo@.take(i as int),
                        acc,
                        elo0.spec_rating(acc),
                    ),
                p.spec_config() == old(p).spec_config(),
                p.ledger_view() == old(p).ledger_view(),
                p.rows() == old(p).rows(),
                p.spec_next_nonce() == old(p).spec_next_nonce(),
                p.events_seq() == old(p).events_seq(),
                p.spec_orphaned() == old(p).spec_orphaned(),
                elo0 == old(p).elo_table(),
            decreases self.elo@.len() - i,
        {
            let ghost prefix = self.elo@.take(i as int);
            let (account, rating) = self.elo[i];
            p.elo.set(account, rating);
            i = i + 1;
            proof {
                let taken = self.elo@.take(i as int);
                assert(taken.drop_last() =~= prefix);
                assert(taken.last() == self.elo@[i - 1]);
            }
        }
        proof {
            assert(self.elo@.take(self.elo@.len() as int) =~= self.elo@);
            assert forall|a: u32| #[trigger] p.spec_balance(
                a,
                p.spec_config().pallet_account,
            ) as int == escrow_sum(p.rows(), a) + orphan_sum(p.spec_orphaned(), a) by {
                assert(old(p).spec_balance(a, old(p).spec_config().pallet_account) as int
                    == escrow_sum(old(p).rows(), a) + orphan_sum(old(p).spec_orphaned(), a));
                assert(p.spec_balance(a, p.spec_config().pallet_account) == old(p).spec_balance(
                    a,
                    old(p).spec_config().pallet_account,
                ));
            }
            assert forall|j: int| 0 <= j < p.rows().len() implies p.ledger_view(
            ).spec_asset_exists((#[trigger] p.rows()[j]).1.bet_asset_id) by {
                assert(old(p).ledger_view().spec_asset_exists(old(p).rows()[j].1.bet_asset_id));
            }
        }
    }
}

/// The outcome `force_board_state` decides before mutating anything: the
/// match must exist and be ongoing, and the new text must decode.
pub open spec fn spec_force_board_outcome(p: Pallet, id: MatchId, board: Seq<char>) -> Result<
    (),
    Error,
> {
    if !p.spec_has_match(id) {
        Err(Error::NonExistentMatch)
    } else {
        match p.spec_match(id).state {
            MatchState::OnGoing(turn) => {
                if !codec::fen_ok(board) {
                    Err(Error::InvalidBoardEncoding)
                } else {
                    Ok(())
                }
            },
            MatchState::AwaitingOpponent => Err(Error::MatchNotOnGoing),
            MatchState::Won => Err(Error::MatchNotOnGoing),
            MatchState::Drawn => Err(Error::MatchNotOnGoing),
        }
    }
}

impl Pallet {
    /// Replaces an ongoing match's position and keeps the stored turn in
    /// step with the new position's side to move. A harness hook: it lets a
    /// test reach a given position without playing out the moves.
    pub fn force_board_state(&mut self, id: MatchId, board: String) -> (r: Result<(), Error>)
        requires
            old(self).wf(),
        ensures
            final(self).wf(),
            r == spec_force_board_outcome(*old(self), id, board@),
            r is Err ==> *final(self) == *old(self),
            forall|a: u32| #[trigger]
                final(self).spec_asset_exists(a) == old(self).spec_asset_exists(a),
            forall|a: u32| #[trigger]
                final(self).spec_min_balance(a) == old(self).spec_min_balance(a),
            final(self).spec_config() == old(self).spec_config(),
            r is Ok ==> {
                let i = row_index_of(old(self).rows(), id);
                let m0 = old(self).spec_match(id);
                let m1 = final(self).rows()[i].1;
                &&& final(self).rows().len() == old(self).rows().len()
                &&& forall|j: int|
                    0 <= j < old(self).rows().len() && j != i ==> final(self).rows()[j] == old(
                        self,
                    ).rows()[j]
                &&& final(self).rows()[i].0 == id
                &&& m1.board@ == board@
                &&& m1.state == MatchState::OnGoing(
                    if codec::white_to_move(board@) {
                        NextMove::Whites
                    } else {
                        NextMove::Blacks
                    },
                )
                &&& m1.challenger == m0.challenger
                &&& m1.opponent == m0.opponent
                &&& m1.nonce == m0.nonce
                &&& m1.style == m0.style
                &&& m1.start == m0.start
                &&& m1.last_move == m0.last_move
                &&& m1.bet_asset_id == m0.bet_asset_id
                &&& m1.bet_amount == m0.bet_amount
                &&& forall|a: u32, acc: u64| #[trigger]
                    final(self).spec_balance(a, acc) == old(self).spec_balance(a, acc)
                &&& final(self).events_seq() == old(self).events_seq()
                &&& final(self).spec_next_nonce() == old(self).spec_next_nonce()
                &&& final(self).elo_table() == old(self).elo_table()
                &&& final(self).spec_orphaned() == old(self).spec_orphaned()
            },
    {
        proof {
            lemma_ids_unique(
                self.rows(),
                self.spec_next_nonce(),
                self.spec_config().pallet_account,
            );
        }
        let i = match self.find_row(id) {
            Some(i) => i,
            None => {
                return Err(Error::NonExistentMatch);
            },
        };
        proof {
            lemma_row_at(self.rows(), id, i as int);
        }
        match self.matches[i].1.state {
            MatchState::OnGoing(_) => {},
            MatchState::AwaitingOpponent => {
                return Err(Error::MatchNotOnGoing);
            },
            MatchState::Won => {
                return Err(Error::MatchNotOnGoing);
            },
            MatchState::Drawn => {
                return Err(Error::MatchNotOnGoing);
            },
        }
        let white = match codec::position_white_to_move(board.as_str()) {
            Some(w) => w,
            None => {
                return Err(Error::InvalidBoardEncoding);
            },
        };
        let ghost pre = *old(self);
        let ghost rows0 = self.rows();
        let ghost custody = pre.spec_config().pallet_account;
        self.matches[i].1.board = board;
        self.matches[i].1.state = MatchState::OnGoing(
            if white {
                NextMove::Whites
            } else {
                NextMove::Blacks
            },
        );
        proof {
            let rows1 = self.rows();
            let row = rows1[i as int];
            assert(rows1 == rows0.update(i as int, row));
            assert forall|p_: int, q_: int| 0 <= p_ < q_ < rows1.len() implies rows1[p_].1.nonce
                != rows1[q_].1.nonce by {
                assert(rows1[p_].1.nonce == rows0[p_].1.nonce);
                assert(rows1[q_].1.nonce == rows0[q_].1.nonce);
            }
            assert forall|j: int| 0 <= j < rows1.len() implies row_ok(
                #[trigger] rows1[j],
                self.spec_next_nonce(),
                custody,
            ) by {
                assert(row_ok(rows0[j], pre.spec_next_nonce(), custody));
            }
            assert forall|j: int| 0 <= j < rows1.len() implies self.ledger_view(
            ).spec_asset_exists((#[trigger] rows1[j]).1.bet_asset_id) by {
                assert(pre.ledger_view().spec_asset_exists(rows0[j].1.bet_asset_id));
                assert(rows1[j].1.bet_asset_id == rows0[j].1.bet_asset_id);
            }
            assert forall|a: u32| #[trigger] self.spec_balance(a, custody) as int == escrow_sum(
                self.rows(),
                a,
            ) + orphan_sum(self.spec_orphaned(), a) by {
                lemma_escrow_sum_update(rows0, i as int, row, a);
                assert(pre.spec_balance(a, custody) as int == escrow_sum(rows0, a) + orphan_sum(
                    pre.spec_orphaned(),
                    a,
                ));
            }
        }
        Ok(())
    }
}

} // verus!
