//! Escrowed, adjudicated chess matches between two accounts.
//!
//! A match is created by a challenger who stakes a bet, joined by the
//! designated opponent who stakes the same amount, and then played move by
//! move until the board reaches a terminal status or a clock budget lapses.
//! The stakes are held in a custody account of a small verified asset ledger
//! and paid out on settlement: winner-take-all on a win, refunds on a draw,
//! and an incentive fee for a third party who clears a long-abandoned match.
//!
//! Move legality, board serialization and game status come from the
//! `cozy_chess` engine, called through a narrow trusted interface in
//! [`codec`]; everything around it — the match registry, the lifecycle state
//! machine, the escrow bookkeeping and the Elo rating update — is verified.

pub mod codec;
pub mod config;
pub mod elo;
pub mod laws;
pub mod ledger;
pub mod pallet;
pub mod types;
