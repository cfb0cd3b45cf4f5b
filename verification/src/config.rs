//! Module configuration: the custody account, the per-style time budgets,
//! the Elo K-factor and the janitor incentive share.

use vstd::prelude::*;

use crate::types::MatchStyle;

verus! {

/// Configuration constants of the module. All time budgets are expressed in
/// the host's monotonic time unit (block height).
#[derive(Clone, Copy, Debug)]
pub struct Config {
    /// The module's custody account, holding every escrowed stake. It is a
    /// sovereign account of the module and can never be a player.
    pub pallet_account: u64,
    /// Elo K-factor.
    pub k: u16,
    /// Per-move time budget of a `Bullet` match.
    pub bullet_period: u64,
    /// Per-move time budget of a `Blitz` match.
    pub blitz_period: u64,
    /// Per-move time budget of a `Rapid` match.
    pub rapid_period: u64,
    /// Per-move time budget of a `Daily` match.
    pub daily_period: u64,
    /// Percentage of the prize pool paid to a third party that clears a
    /// truly abandoned match.
    pub incentive_share: u8,
}

impl Config {
    /// A percentage cannot exceed one hundred.
    pub open spec fn wf(&self) -> bool {
        self.incentive_share <= 100
    }

    /// The per-move time budget of a style.
    pub open spec fn spec_period(&self, style: MatchStyle) -> u64 {
        match style {
            MatchStyle::Bullet => self.bullet_period,
            MatchStyle::Blitz => self.blitz_period,
            MatchStyle::Rapid => self.rapid_period,
            MatchStyle::Daily => self.daily_period,
        }
    }

    /// Looks up the per-move time budget of a style.
    pub fn period(&self, style: MatchStyle) -> (r: u64)
        ensures
            r == self.spec_period(style),
    {
        match style {
            MatchStyle::Bullet => self.bullet_period,
            MatchStyle::Blitz => self.blitz_period,
            MatchStyle::Rapid => self.rapid_period,
            MatchStyle::Daily => self.daily_period,
        }
    }
}

} // verus!
