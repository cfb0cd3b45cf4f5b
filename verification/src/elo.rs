//! Elo ratings in integer fixed-point arithmetic.
//!
//! The logistic expected-score curve `1 / (1 + 10^(-d/400))` is tabulated in
//! percent over rating-difference buckets of fifty points, clamped at four
//! hundred points; the update `r + K * (score - expected)` is computed in
//! hundredths and rounded to the nearest integer, clamped to the rating
//! width. The bucket table is this module's definition of the expected
//! score — a deliberate fixed-point approximation of the logistic curve,
//! adopted in place of floating-point evaluation, which differs from the
//! exact curve by at most a few percent within a bucket. Every account
//! starts at the default rating and is rated only once a match it played
//! settles decisively or as a draw.

use vstd::prelude::*;

verus! {

/// A player's result in a settled match.
#[derive(Clone, Copy, Debug, PartialEq, Eq, Structural)]
pub enum Score {
    Win,
    Draw,
    Loss,
}

/// A score in percent of a win.
pub open spec fn spec_score_percent(s: Score) -> int {
    match s {
        Score::Win => 100,
        Score::Draw => 50,
        Score::Loss => 0,
    }
}

/// The tabulated logistic curve on a non-negative, clamped rating
/// difference, in percent.
pub open spec fn spec_expected_nonneg(d: int) -> int {
    if d < 25 {
        50
    } else if d < 75 {
        57
    } else if d < 125 {
        64
    } else if d < 175 {
        70
    } else if d < 225 {
        76
    } else if d < 275 {
        81
    } else if d < 325 {
        85
    } else if d < 375 {
        88
    } else {
        91
    }
}

/// Expected score of the first player against the second, in percent.
pub open spec fn spec_expected_percent(r1: int, r2: int) -> int {
    let d = if r1 - r2 > 400 {
        400int
    } else if r1 - r2 < -400 {
        -400int
    } else {
        r1 - r2
    };
    if d >= 0 {
        spec_expected_nonneg(d)
    } else {
        100 - spec_expected_nonneg(-d)
    }
}

/// The rating after one update: `r + K * (score - expected) / 100`, rounded
/// to the nearest integer and clamped to the rating width.
pub open spec fn spec_new_rating(r: u16, k: u16, score: Score, expected: int) -> u16 {
    let scaled = r * 100 + k * (spec_score_percent(score) - expected);
    if scaled < 0 {
        0
    } else if (scaled + 50) / 100 > u16::MAX {
        u16::MAX
    } else {
        ((scaled + 50) / 100) as u16
    }
}

/// The tabulated curve on a clamped non-negative difference.
fn expected_nonneg(d: u16) -> (r: u8)
    requires
        d <= 400,
    ensures
        r as int == spec_expected_nonneg(d as int),
{
    if d < 25 {
        50
    } else if d < 75 {
        57
    } else if d < 125 {
        64
    } else if d < 175 {
        70
    } else if d < 225 {
        76
    } else if d < 275 {
        81
    } else if d < 325 {
        85
    } else if d < 375 {
        88
    } else {
        91
    }
}

/// Expected score of the first player against the second, in percent.
pub fn expected_percent(r1: u16, r2: u16) -> (r: u8)
    ensures
        r as int == spec_expected_percent(r1 as int, r2 as int),
        r <= 100,
{
    if r1 >= r2 {
        let d = r1 - r2;
        let clamped = if d > 400 {
            400
        } else {
            d
        };
        expected_nonneg(clamped)
    } else {
        let d = r2 - r1;
        let clamped = if d > 400 {
            400
        } else {
            d
        };
        100 - expected_nonneg(clamped)
    }
}

/// One rating update in hundredths, rounded to nearest and clamped.
pub fn new_rating(r: u16, k: u16, score: Score, expected: u8) -> (nr: u16)
    requires
        expected <= 100,
    ensures
        nr == spec_new_rating(r, k, score, expected as int),
{
    let score_percent: i64 = match score {
        Score::Win => 100,
        Score::Draw => 50,
        Score::Loss => 0,
    };
    proof {
        assert((k as int) * (spec_score_percent(score) - expected) <= 100 * (k as int)
            && (k as int) * (spec_score_percent(score) - expected) >= -100 * (k as int))
            by (nonlinear_arith)
            requires
                expected <= 100,
                0 <= spec_score_percent(score) <= 100,
        ;
    }
    let delta: i64 = (k as i64) * (score_percent - (expected as i64));
    let scaled: i64 = (r as i64) * 100 + delta;
    if scaled < 0 {
        0
    } else {
        let rounded: u64 = ((scaled as u64) + 50) / 100;
        if rounded > 65535 {
            65535
        } else {
            rounded as u16
        }
    }
}

/// One entry of the rating table.
#[derive(Clone, Copy, Debug, PartialEq, Eq, Structural)]
pub struct EloEntry {
    pub account: u64,
    pub rating: u16,
}

/// Whether an entry carries this account's rating.
pub open spec fn elo_matches(e: EloEntry, account: u64) -> bool {
    e.account == account
}

/// No two entries rate the same account.
pub open spec fn elo_keys_unique(s: Seq<EloEntry>) -> bool {
    forall|i: int, j: int| 0 <= i < j < s.len() ==> s[i].account != s[j].account
}

/// Whether the table holds an entry for the account.
pub open spec fn has_elo(s: Seq<EloEntry>, account: u64) -> bool {
    exists|i: int| 0 <= i < s.len() && #[trigger] elo_matches(s[i], account)
}

/// The account's rating: its entry's value, or the default of 1600.
pub open spec fn elo_of(s: Seq<EloEntry>, account: u64) -> u16 {
    if has_elo(s, account) {
        s[choose|i: int| 0 <= i < s.len() && #[trigger] elo_matches(s[i], account)].rating
    } else {
        1600
    }
}

/// With unique accounts, the entry at a matching index is the rating.
pub proof fn lemma_elo_at(s: Seq<EloEntry>, account: u64, i: int)
    requires
        elo_keys_unique(s),
        0 <= i < s.len(),
        elo_matches(s[i], account),
    ensures
        elo_of(s, account) == s[i].rating,
{
    assert(has_elo(s, account));
    let j = choose|j: int| 0 <= j < s.len() && #[trigger] elo_matches(s[j], account);
    if i < j {
        assert(s[i].account != s[j].account);
    } else if j < i {
        assert(s[j].account != s[i].account);
    }
}

/// The per-account rating table.
#[derive(Clone, Debug)]
pub struct EloTable {
    entries: Vec<EloEntry>,
}

impl EloTable {
    /// The stored entries.
    pub closed spec fn entries_seq(&self) -> Seq<EloEntry> {
        self.entries@
    }

    /// Accounts are rated at most once.
    pub open spec fn wf(&self) -> bool {
        elo_keys_unique(self.entries_seq())
    }

    /// The account's rating.
    pub open spec fn spec_rating(&self, account: u64) -> u16 {
        elo_of(self.entries_seq(), account)
    }

    /// An empty table: every account is at the default rating.
    pub fn new() -> (r: EloTable)
        ensures
            r.wf(),
            forall|acc: u64| #[trigger] r.spec_rating(acc) == 1600,
    {
        EloTable { entries: Vec::new() }
    }

    /// The index of the account's entry, if any.
    fn find(&self, account: u64) -> (r: Option<usize>)
        ensures
            match r {
                Some(i) => i < self.entries_seq().len() && elo_matches(
                    self.entries_seq()[i as int],
                    account,
                ),
                None => forall|i: int|
                    0 <= i < self.entries_seq().len() ==> !(#[trigger] elo_matches(
                        self.entries_seq()[i],
                        account,
                    )),
            },
    {
        let mut i: usize = 0;
        while i < self.entries.len()
            invariant
                i <= self.entries_seq().len(),
                forall|j: int|
                    0 <= j < i ==> !(#[trigger] elo_matches(self.entries_seq()[j], account)),
            decreases self.entries_seq().len() - i,
        {
            if self.entries[i].account == account {
                return Some(i);
            }
            i = i + 1;
        }
        None
    }

    /// The account's rating.
    pub fn get(&self, account: u64) -> (r: u16)
        requires
            self.wf(),
        ensures
            r == self.spec_rating(account),
    {
        match self.find(account) {
            Some(i) => {
                proof {
                    lemma_elo_at(self.entries_seq(), account, i as int);
                }
                self.entries[i].rating
            },
            None => 1600,
        }
    }

    /// Updates the two players of a settled match in one step, with
    /// K-factor `k`, leaving every other account's rating unchanged.
    pub fn update_pair(&mut self, player1: u64, score_1: Score, player2: u64, score_2: Score, k: u16)
        requires
            old(self).wf(),
            player1 != player2,
        ensures
            final(self).wf(),
            final(self).spec_rating(player1) == spec_new_rating(
                old(self).spec_rating(player1),
                k,
                score_1,
                spec_expected_percent(
                    old(self).spec_rating(player1) as int,
                    old(self).spec_rating(player2) as int,
                ),
            ),
            final(self).spec_rating(player2) == spec_new_rating(
                old(self).spec_rating(player2),
                k,
                score_2,
                spec_expected_percent(
                    old(self).spec_rating(player2) as int,
                    old(self).spec_rating(player1) as int,
                ),
            ),
            forall|acc: u64|
                acc != player1 && acc != player2 ==> #[trigger] final(self).spec_rating(acc)
                    == old(self).spec_rating(acc),
    {
        let rating1 = self.get(player1);
        let rating2 = self.get(player2);
        let expected1 = expected_percent(rating1, rating2);
        let expected2 = expected_percent(rating2, rating1);
        let new1 = new_rating(rating1, k, score_1, expected1);
        let new2 = new_rating(rating2, k, score_2, expected2);
        self.set(player1, new1);
        self.set(player2, new2);
    }

    /// Sets the account's rating, leaving every other account's unchanged.
    pub fn set(&mut self, account: u64, rating: u16)
        requires
            old(self).wf(),
        ensures
            final(self).wf(),
            final(self).spec_rating(account) == rating,
            forall|acc: u64|
                acc != account ==> #[trigger] final(self).spec_rating(acc) == old(
                    self,
                ).spec_rating(acc),
    {
        let ghost pre = self.entries_seq();
        match self.find(account) {
            Some(i) => {
                self.entries[i] = EloEntry { account, rating };
                proof {
                    lemma_elo_update(pre, self.entries_seq(), i as int, account);
                }
            },
            None => {
                self.entries.push(EloEntry { account, rating });
                proof {
                    lemma_elo_push(pre, self.entries_seq(), account);
                }
            },
        }
    }
}

/// Updating the entry at a matching index changes only that account.
proof fn lemma_elo_update(pre: Seq<EloEntry>, post: Seq<EloEntry>, i: int, account: u64)
    requires
        elo_keys_unique(pre),
        0 <= i < pre.len(),
        elo_matches(pre[i], account),
        post == pre.update(i, EloEntry { account, rating: post[i].rating }),
    ensures
        elo_keys_unique(post),
        elo_of(post, account) == post[i].rating,
        forall|acc: u64|
            acc != account ==> #[trigger] elo_of(post, acc) == elo_of(pre, acc),
{
    assert(elo_keys_unique(post)) by {
        assert forall|p: int, q: int| 0 <= p < q < post.len() implies post[p].account
            != post[q].account by {
            assert(post[p].account == pre[p].account);
            assert(post[q].account == pre[q].account);
        }
    }
    lemma_elo_at(post, account, i);
    assert forall|acc: u64| acc != account implies #[trigger] elo_of(post, acc) == elo_of(
        pre,
        acc,
    ) by {
        if has_elo(pre, acc) {
            let j = choose|j: int| 0 <= j < pre.len() && #[trigger] elo_matches(pre[j], acc);
            assert(j != i);
            assert(elo_matches(post[j], acc));
            lemma_elo_at(pre, acc, j);
            lemma_elo_at(post, acc, j);
        } else {
            assert forall|j: int| 0 <= j < post.len() implies !(#[trigger] elo_matches(
                post[j],
                acc,
            )) by {
                if j != i {
                    assert(!elo_matches(pre[j], acc));
                    assert(post[j] == pre[j]);
                }
            }
        }
    }
}

/// Pushing an entry for an unrated account changes only that account.
proof fn lemma_elo_push(pre: Seq<EloEntry>, post: Seq<EloEntry>, account: u64)
    requires
        elo_keys_unique(pre),
        forall|i: int| 0 <= i < pre.len() ==> !(#[trigger] elo_matches(pre[i], account)),
        post == pre.push(EloEntry { account, rating: post[pre.len() as int].rating }),
    ensures
        elo_keys_unique(post),
        elo_of(post, account) == post[pre.len() as int].rating,
        forall|acc: u64|
            acc != account ==> #[trigger] elo_of(post, acc) == elo_of(pre, acc),
{
    let n = pre.len() as int;
    assert(elo_keys_unique(post)) by {
        assert forall|p: int, q: int| 0 <= p < q < post.len() implies post[p].account
            != post[q].account by {
            if q < n {
                assert(post[p] == pre[p] && post[q] == pre[q]);
            } else {
                assert(post[p] == pre[p]);
                assert(!elo_matches(pre[p], account));
            }
        }
    }
    assert(elo_matches(post[n], account));
    lemma_elo_at(post, account, n);
    assert forall|acc: u64| acc != account implies #[trigger] elo_of(post, acc) == elo_of(
        pre,
        acc,
    ) by {
        if has_elo(pre, acc) {
            let j = choose|j: int| 0 <= j < pre.len() && #[trigger] elo_matches(pre[j], acc);
            assert(elo_matches(post[j], acc));
            lemma_elo_at(pre, acc, j);
            lemma_elo_at(post, acc, j);
        } else {
            assert forall|j: int| 0 <= j < post.len() implies !(#[trigger] elo_matches(
                post[j],
                acc,
            )) by {
                if j < n {
                    assert(!elo_matches(pre[j], acc));
                }
            }
        }
    }
}

} // verus!
