//! A minimal fungible-asset ledger: registered assets with a minimum
//! balance, and per-(asset, account) holdings.
//!
//! The module escrows stakes by transferring them into a custody account on
//! this ledger and pays them out by transferring them back. Every operation
//! either applies completely or fails without touching any balance.

use vstd::prelude::*;

use crate::types::LedgerError;

verus! {

/// A registered asset: its identifier and its minimum balance unit.
#[derive(Clone, Copy, Debug, PartialEq, Eq, Structural)]
pub struct AssetInfo {
    pub id: u32,
    pub min_balance: u64,
}

/// One account's holding of one asset.
#[derive(Clone, Copy, Debug, PartialEq, Eq, Structural)]
pub struct BalanceEntry {
    pub asset: u32,
    pub account: u64,
    pub amount: u64,
}

/// Whether an entry carries the holding of `account` in `asset`.
pub open spec fn entry_matches(e: BalanceEntry, asset: u32, account: u64) -> bool {
    e.asset == asset && e.account == account
}

/// Whether a registration is the asset's.
pub open spec fn asset_matches(a: AssetInfo, id: u32) -> bool {
    a.id == id
}

/// No two entries carry the same (asset, account) pair.
pub open spec fn balance_keys_unique(s: Seq<BalanceEntry>) -> bool {
    forall|i: int, j: int|
        0 <= i < j < s.len() ==> !(s[i].asset == s[j].asset && s[i].account == s[j].account)
}

/// No two registered assets share an identifier.
pub open spec fn asset_ids_unique(s: Seq<AssetInfo>) -> bool {
    forall|i: int, j: int| 0 <= i < j < s.len() ==> s[i].id != s[j].id
}

/// Whether the sequence holds an entry for the pair.
pub open spec fn has_balance_entry(s: Seq<BalanceEntry>, asset: u32, account: u64) -> bool {
    exists|i: int| 0 <= i < s.len() && #[trigger] entry_matches(s[i], asset, account)
}

/// The holding of `account` in `asset`: the matching entry's amount, or zero
/// when there is none.
pub open spec fn bal_of(s: Seq<BalanceEntry>, asset: u32, account: u64) -> u64 {
    if has_balance_entry(s, asset, account) {
        s[choose|i: int| 0 <= i < s.len() && #[trigger] entry_matches(s[i], asset, account)].amount
    } else {
        0
    }
}

/// Whether the sequence registers the asset.
pub open spec fn has_asset(s: Seq<AssetInfo>, id: u32) -> bool {
    exists|i: int| 0 <= i < s.len() && #[trigger] asset_matches(s[i], id)
}

/// The asset's registered minimum balance, or zero when it is unregistered.
pub open spec fn min_bal_of(s: Seq<AssetInfo>, id: u32) -> u64 {
    if has_asset(s, id) {
        s[choose|i: int| 0 <= i < s.len() && #[trigger] asset_matches(s[i], id)].min_balance
    } else {
        0
    }
}

/// With unique keys, the entry at a matching index is the holding.
pub proof fn lemma_bal_at(s: Seq<BalanceEntry>, asset: u32, account: u64, i: int)
    requires
        balance_keys_unique(s),
        0 <= i < s.len(),
        entry_matches(s[i], asset, account),
    ensures
        bal_of(s, asset, account) == s[i].amount,
{
    assert(has_balance_entry(s, asset, account));
    let j = choose|j: int| 0 <= j < s.len() && #[trigger] entry_matches(s[j], asset, account);
    if i < j {
        assert(!(s[i].asset == s[j].asset && s[i].account == s[j].account));
    } else if j < i {
        assert(!(s[j].asset == s[i].asset && s[j].account == s[i].account));
    }
}

/// Without a matching entry the holding is zero.
pub proof fn lemma_bal_none(s: Seq<BalanceEntry>, asset: u32, account: u64)
    requires
        forall|i: int| 0 <= i < s.len() ==> !(#[trigger] entry_matches(s[i], asset, account)),
    ensures
        bal_of(s, asset, account) == 0,
{
}

/// With unique identifiers, the registration at a matching index is the
/// asset's.
pub proof fn lemma_asset_at(s: Seq<AssetInfo>, id: u32, i: int)
    requires
        asset_ids_unique(s),
        0 <= i < s.len(),
        asset_matches(s[i], id),
    ensures
        min_bal_of(s, id) == s[i].min_balance,
        has_asset(s, id),
{
    assert(has_asset(s, id));
    let j = choose|j: int| 0 <= j < s.len() && #[trigger] asset_matches(s[j], id);
    if i < j {
        assert(s[i].id != s[j].id);
    } else if j < i {
        assert(s[j].id != s[i].id);
    }
}

/// A ledger: the registered assets and all non-zero holdings.
#[derive(Clone, Debug)]
pub struct Ledger {
    assets: Vec<AssetInfo>,
    balances: Vec<BalanceEntry>,
}

/// The balance the pair holds after a transfer is applied to `pre`.
pub open spec fn spec_balance_after_transfer(
    pre: Ledger,
    asset: u32,
    from: u64,
    to: u64,
    amount: u64,
    a2: u32,
    acc2: u64,
) -> u64 {
    if from != to && a2 == asset && acc2 == from {
        (pre.spec_balance(asset, from) - amount) as u64
    } else if from != to && a2 == asset && acc2 == to {
        (pre.spec_balance(asset, to) + amount) as u64
    } else {
        pre.spec_balance(a2, acc2)
    }
}

/// The outcome a transfer decides before mutating anything: the asset must
/// exist, the payer must hold the amount, and the payee's balance must not
/// overflow.
pub open spec fn spec_transfer_outcome(
    pre: Ledger,
    asset: u32,
    from: u64,
    to: u64,
    amount: u64,
) -> Result<(), LedgerError> {
    if !pre.spec_asset_exists(asset) {
        Err(LedgerError::UnknownAsset)
    } else if pre.spec_balance(asset, from) < amount {
        Err(LedgerError::InsufficientBalance)
    } else if from != to && pre.spec_balance(asset, to) + amount > u64::MAX {
        Err(LedgerError::Overflow)
    } else {
        Ok(())
    }
}

impl Ledger {
    /// The registered assets.
    pub closed spec fn assets_seq(&self) -> Seq<AssetInfo> {
        self.assets@
    }

    /// The holdings.
    pub closed spec fn balances_seq(&self) -> Seq<BalanceEntry> {
        self.balances@
    }

    /// Asset identifiers and holding keys are unique.
    pub open spec fn wf(&self) -> bool {
        asset_ids_unique(self.assets_seq()) && balance_keys_unique(self.balances_seq())
    }

    /// Whether the asset is registered.
    pub open spec fn spec_asset_exists(&self, id: u32) -> bool {
        has_asset(self.assets_seq(), id)
    }

    /// The registered minimum balance of the asset, or zero if unregistered.
    pub open spec fn spec_min_balance(&self, id: u32) -> u64 {
        min_bal_of(self.assets_seq(), id)
    }

    /// The holding of `account` in `asset`.
    pub open spec fn spec_balance(&self, asset: u32, account: u64) -> u64 {
        bal_of(self.balances_seq(), asset, account)
    }

    /// An empty ledger: no assets, no holdings.
    pub fn new() -> (r: Ledger)
        ensures
            r.wf(),
            forall|a: u32| !r.spec_asset_exists(a),
            forall|a: u32, acc: u64| #[trigger] r.spec_balance(a, acc) == 0,
    {
        Ledger { assets: Vec::new(), balances: Vec::new() }
    }

    /// The index of the asset's registration, if any.
    fn find_asset(&self, id: u32) -> (r: Option<usize>)
        ensures
            match r {
                Some(i) => i < self.assets_seq().len() && asset_matches(
                    self.assets_seq()[i as int],
                    id,
                ),
                None => forall|i: int|
                    0 <= i < self.assets_seq().len() ==> !(#[trigger] asset_matches(
                        self.assets_seq()[i],
                        id,
                    )),
            },
    {
        let mut i: usize = 0;
        while i < self.assets.len()
            invariant
                i <= self.assets_seq().len(),
                forall|j: int| 0 <= j < i ==> !(#[trigger] asset_matches(self.assets_seq()[j], id)),
            decreases self.assets_seq().len() - i,
        {
            if self.assets[i].id == id {
                return Some(i);
            }
            i = i + 1;
        }
        None
    }

    /// The index of the pair's holding entry, if any.
    fn find_balance(&self, asset: u32, account: u64) -> (r: Option<usize>)
        ensures
            match r {
                Some(i) => i < self.balances_seq().len() && entry_matches(
                    self.balances_seq()[i as int],
                    asset,
                    account,
                ),
                None => forall|i: int|
                    0 <= i < self.balances_seq().len() ==> !(#[trigger] entry_matches(
                        self.balances_seq()[i],
                        asset,
                        account,
                    )),
            },
    {
        let mut i: usize = 0;
        while i < self.balances.len()
            invariant
                i <= self.balances_seq().len(),
                forall|j: int|
                    0 <= j < i ==> !(#[trigger] entry_matches(
                        self.balances_seq()[j],
                        asset,
                        account,
                    )),
            decreases self.balances_seq().len() - i,
        {
            let e = self.balances[i];
            if e.asset == asset && e.account == account {
                return Some(i);
            }
            i = i + 1;
        }
        None
    }

    /// Whether the asset is registered.
    pub fn asset_exists(&self, id: u32) -> (r: bool)
        ensures
            r == self.spec_asset_exists(id),
    {
        self.find_asset(id).is_some()
    }

    /// The minimum balance of the asset; zero if it is not registered.
    pub fn min_balance(&self, id: u32) -> (r: u64)
        requires
            self.wf(),
        ensures
            r == self.spec_min_balance(id),
    {
        match self.find_asset(id) {
            Some(i) => {
                proof {
                    lemma_asset_at(self.assets_seq(), id, i as int);
                }
                self.assets[i].min_balance
            },
            None => 0,
        }
    }

    /// The holding of `account` in `asset`.
    pub fn balance(&self, asset: u32, account: u64) -> (r: u64)
        requires
            self.wf(),
        ensures
            r == self.spec_balance(asset, account),
    {
        match self.find_balance(asset, account) {
            Some(i) => {
                proof {
                    lemma_bal_at(self.balances_seq(), asset, account, i as int);
                }
                self.balances[i].amount
            },
            None => {
                proof {
                    lemma_bal_none(self.balances_seq(), asset, account);
                }
                0
            },
        }
    }

    /// Registers an asset with its minimum balance. Fails if the identifier
    /// is already taken.
    pub fn register_asset(&mut self, id: u32, min_balance: u64) -> (r: Result<(), LedgerError>)
        requires
            old(self).wf(),
        ensures
            final(self).wf(),
            r is Ok <==> !old(self).spec_asset_exists(id),
            r is Err ==> *final(self) == *old(self) && r == Err::<(), LedgerError>(
                LedgerError::AssetAlreadyExists,
            ),
            final(self).balances_seq() == old(self).balances_seq(),
            r is Ok ==> final(self).spec_asset_exists(id) && final(self).spec_min_balance(id)
                == min_balance,
            forall|a: u32|
                a != id ==> #[trigger] final(self).spec_asset_exists(a) == old(
                    self,
                ).spec_asset_exists(a),
            forall|a: u32|
                a != id ==> #[trigger] final(self).spec_min_balance(a) == old(
                    self,
                ).spec_min_balance(a),
    {
        if self.find_asset(id).is_some() {
            return Err(LedgerError::AssetAlreadyExists);
        }
        let ghost pre = self.assets_seq();
        self.assets.push(AssetInfo { id, min_balance });
        proof {
            lemma_asset_push(pre, self.assets_seq(), id);
        }
        Ok(())
    }

    /// Credits an account with freshly issued units of a registered asset.
    pub fn mint(&mut self, asset: u32, account: u64, amount: u64) -> (r: Result<(), LedgerError>)
        requires
            old(self).wf(),
        ensures
            final(self).wf(),
            final(self).assets_seq() == old(self).assets_seq(),
            r is Ok <==> old(self).spec_asset_exists(asset) && old(self).spec_balance(
                asset,
                account,
            ) + amount <= u64::MAX,
            r is Err ==> *final(self) == *old(self),
            !old(self).spec_asset_exists(asset) ==> r == Err::<(), LedgerError>(
                LedgerError::UnknownAsset,
            ),
            old(self).spec_asset_exists(asset) && old(self).spec_balance(asset, account) + amount
                > u64::MAX ==> r == Err::<(), LedgerError>(LedgerError::Overflow),
            r is Ok ==> final(self).spec_balance(asset, account) == old(self).spec_balance(
                asset,
                account,
            ) + amount,
            r is Ok ==> forall|a2: u32, acc2: u64|
                !(a2 == asset && acc2 == account) ==> #[trigger] final(self).spec_balance(a2, acc2)
                    == old(self).spec_balance(a2, acc2),
    {
        if !self.asset_exists(asset) {
            return Err(LedgerError::UnknownAsset);
        }
        let pre_balance = self.balance(asset, account);
        if amount > u64::MAX - pre_balance {
            return Err(LedgerError::Overflow);
        }
        let ghost pre = self.balances_seq();
        match self.find_balance(asset, account) {
            Some(i) => {
                self.balances[i] = BalanceEntry { asset, account, amount: pre_balance + amount };
                proof {
                    lemma_update_balance(pre, self.balances_seq(), i as int, asset, account);
                }
            },
            None => {
                self.balances.push(BalanceEntry { asset, account, amount: pre_balance + amount });
                proof {
                    lemma_bal_none(pre, asset, account);
                    lemma_push_balance(pre, self.balances_seq(), asset, account);
                }
            },
        }
        Ok(())
    }

    /// Moves `amount` of `asset` from `from` to `to`. All checks precede any
    /// mutation: a failed transfer leaves every balance as it was.
    pub fn transfer(&mut self, asset: u32, from: u64, to: u64, amount: u64) -> (r: Result<
        (),
        LedgerError,
    >)
        requires
            old(self).wf(),
        ensures
            final(self).wf(),
            final(self).assets_seq() == old(self).assets_seq(),
            r == spec_transfer_outcome(*old(self), asset, from, to, amount),
            r is Err ==> *final(self) == *old(self),
            r is Ok ==> forall|a2: u32, acc2: u64| #[trigger]
                final(self).spec_balance(a2, acc2) == spec_balance_after_transfer(
                    *old(self),
                    asset,
                    from,
                    to,
                    amount,
                    a2,
                    acc2,
                ),
    {
        if !self.asset_exists(asset) {
            return Err(LedgerError::UnknownAsset);
        }
        let from_balance = self.balance(asset, from);
        if from_balance < amount {
            return Err(LedgerError::InsufficientBalance);
        }
        if from == to {
            return Ok(());
        }
        let to_balance = self.balance(asset, to);
        if amount > u64::MAX - to_balance {
            return Err(LedgerError::Overflow);
        }
        let ghost pre = self.balances_seq();
        match self.find_balance(asset, from) {
            Some(i) => {
                self.balances[i] = BalanceEntry {
                    asset,
                    account: from,
                    amount: from_balance - amount,
                };
                proof {
                    lemma_update_balance(pre, self.balances_seq(), i as int, asset, from);
                }
            },
            None => {
                proof {
                    lemma_bal_none(pre, asset, from);
                }
            },
        }
        let ghost mid = self.balances_seq();
        match self.find_balance(asset, to) {
            Some(i) => {
                self.balances[i] = BalanceEntry { asset, account: to, amount: to_balance + amount };
                proof {
                    lemma_update_balance(mid, self.balances_seq(), i as int, asset, to);
                }
            },
            None => {
                self.balances.push(BalanceEntry { asset, account: to, amount: to_balance + amount });
                proof {
                    lemma_push_balance(mid, self.balances_seq(), asset, to);
                }
            },
        }
        proof {
            assert(bal_of(mid, asset, from) == from_balance - amount) by {
                if has_balance_entry(pre, asset, from) {
                    let i = choose|i: int|
                        0 <= i < pre.len() && #[trigger] entry_matches(pre[i], asset, from);
                    lemma_bal_at(pre, asset, from, i);
                    lemma_bal_at(mid, asset, from, i);
                } else {
                    lemma_bal_none(pre, asset, from);
                    lemma_bal_none(mid, asset, from);
                }
            }
            assert(bal_of(mid, asset, to) == bal_of(pre, asset, to));
        }
        Ok(())
    }
}

/// Registering a fresh identifier changes no other asset's registration.
proof fn lemma_asset_push(pre: Seq<AssetInfo>, post: Seq<AssetInfo>, id: u32)
    requires
        asset_ids_unique(pre),
        forall|i: int| 0 <= i < pre.len() ==> !(#[trigger] asset_matches(pre[i], id)),
        post == pre.push(AssetInfo { id, min_balance: post[pre.len() as int].min_balance }),
    ensures
        asset_ids_unique(post),
        has_asset(post, id),
        min_bal_of(post, id) == post[pre.len() as int].min_balance,
        forall|a2: u32| a2 != id ==> #[trigger] has_asset(post, a2) == has_asset(pre, a2),
        forall|a2: u32| a2 != id ==> #[trigger] min_bal_of(post, a2) == min_bal_of(pre, a2),
{
    let n = pre.len() as int;
    assert(asset_ids_unique(post)) by {
        assert forall|p: int, q: int| 0 <= p < q < post.len() implies post[p].id != post[q].id by {
            if q < n {
                assert(post[p] == pre[p] && post[q] == pre[q]);
            } else {
                assert(post[p] == pre[p]);
                assert(!asset_matches(pre[p], id));
            }
        }
    }
    assert(asset_matches(post[n], id));
    lemma_asset_at(post, id, n);
    assert forall|a2: u32| a2 != id implies #[trigger] has_asset(post, a2) == has_asset(pre, a2)
        && min_bal_of(post, a2) == min_bal_of(pre, a2) by {
        if has_asset(pre, a2) {
            let j = choose|j: int| 0 <= j < pre.len() && #[trigger] asset_matches(pre[j], a2);
            assert(asset_matches(post[j], a2));
            lemma_asset_at(pre, a2, j);
            lemma_asset_at(post, a2, j);
        } else {
            assert forall|j: int| 0 <= j < post.len() implies !(#[trigger] asset_matches(
                post[j],
                a2,
            )) by {
                if j < n {
                    assert(!asset_matches(pre[j], a2));
                }
            }
            assert(!has_asset(post, a2));
        }
    }
}

/// Updating the entry at a matching index changes only that pair's holding.
proof fn lemma_update_balance(
    pre: Seq<BalanceEntry>,
    post: Seq<BalanceEntry>,
    i: int,
    asset: u32,
    account: u64,
)
    requires
        balance_keys_unique(pre),
        0 <= i < pre.len(),
        entry_matches(pre[i], asset, account),
        post == pre.update(i, BalanceEntry { asset, account, amount: post[i].amount }),
    ensures
        balance_keys_unique(post),
        bal_of(post, asset, account) == post[i].amount,
        forall|a2: u32, acc2: u64|
            !(a2 == asset && acc2 == account) ==> #[trigger] bal_of(post, a2, acc2) == bal_of(
                pre,
                a2,
                acc2,
            ),
{
    assert(balance_keys_unique(post)) by {
        assert forall|p: int, q: int| 0 <= p < q < post.len() implies !(post[p].asset
            == post[q].asset && post[p].account == post[q].account) by {
            assert(post[p].asset == pre[p].asset && post[p].account == pre[p].account);
            assert(post[q].asset == pre[q].asset && post[q].account == pre[q].account);
        }
    }
    lemma_bal_at(post, asset, account, i);
    assert forall|a2: u32, acc2: u64| !(a2 == asset && acc2 == account) implies #[trigger] bal_of(
        post,
        a2,
        acc2,
    ) == bal_of(pre, a2, acc2) by {
        if has_balance_entry(pre, a2, acc2) {
            let j = choose|j: int| 0 <= j < pre.len() && #[trigger] entry_matches(pre[j], a2, acc2);
            assert(j != i);
            assert(entry_matches(post[j], a2, acc2));
            lemma_bal_at(pre, a2, acc2, j);
            lemma_bal_at(post, a2, acc2, j);
        } else {
            assert forall|j: int| 0 <= j < post.len() implies !(#[trigger] entry_matches(
                post[j],
                a2,
                acc2,
            )) by {
                if j != i {
                    assert(!entry_matches(pre[j], a2, acc2));
                    assert(post[j] == pre[j]);
                }
            }
            lemma_bal_none(pre, a2, acc2);
            lemma_bal_none(post, a2, acc2);
        }
    }
}

/// Pushing an entry for a pair that had none changes only that pair's
/// holding.
proof fn lemma_push_balance(
    pre: Seq<BalanceEntry>,
    post: Seq<BalanceEntry>,
    asset: u32,
    account: u64,
)
    requires
        balance_keys_unique(pre),
        forall|i: int| 0 <= i < pre.len() ==> !(#[trigger] entry_matches(pre[i], asset, account)),
        post == pre.push(BalanceEntry { asset, account, amount: post[pre.len() as int].amount }),
    ensures
        balance_keys_unique(post),
        bal_of(post, asset, account) == post[pre.len() as int].amount,
        forall|a2: u32, acc2: u64|
            !(a2 == asset && acc2 == account) ==> #[trigger] bal_of(post, a2, acc2) == bal_of(
                pre,
                a2,
                acc2,
            ),
{
    let n = pre.len() as int;
    assert(balance_keys_unique(post)) by {
        assert forall|p: int, q: int| 0 <= p < q < post.len() implies !(post[p].asset
            == post[q].asset && post[p].account == post[q].account) by {
            if q < n {
                assert(post[p] == pre[p] && post[q] == pre[q]);
            } else {
                assert(post[p] == pre[p]);
                assert(!entry_matches(pre[p], asset, account));
            }
        }
    }
    assert(entry_matches(post[n], asset, account));
    lemma_bal_at(post, asset, account, n);
    assert forall|a2: u32, acc2: u64| !(a2 == asset && acc2 == account) implies #[trigger] bal_of(
        post,
        a2,
        acc2,
    ) == bal_of(pre, a2, acc2) by {
        if has_balance_entry(pre, a2, acc2) {
            let j = choose|j: int| 0 <= j < pre.len() && #[trigger] entry_matches(pre[j], a2, acc2);
            assert(entry_matches(post[j], a2, acc2));
            lemma_bal_at(pre, a2, acc2, j);
            lemma_bal_at(post, a2, acc2, j);
        } else {
            assert forall|j: int| 0 <= j < post.len() implies !(#[trigger] entry_matches(
                post[j],
                a2,
                acc2,
            )) by {
                if j < n {
                    assert(!entry_matches(pre[j], a2, acc2));
                }
            }
            lemma_bal_none(pre, a2, acc2);
            lemma_bal_none(post, a2, acc2);
        }
    }
}

} // verus!
