use pallet_chess::config::Config;
use pallet_chess::pallet::Pallet;
use pallet_chess::types::{match_id, Error, LedgerError, MatchStyle};

const ASSET_ID: u32 = 200;
const ASSET_MIN_BALANCE: u64 = 1_000;
const ALICE: u64 = 1;
const BOB: u64 = 2;
const CHARLIE: u64 = 3;
const CUSTODY: u64 = 999;

fn setup_pallet() -> Pallet {
    let config = Config {
        pallet_account: CUSTODY,
        k: 32,
        bullet_period: 10,
        blitz_period: 50,
        rapid_period: 150,
        daily_period: 14400,
        incentive_share: 10,
    };
    let mut p = Pallet::new(config);
    p.register_asset(ASSET_ID, ASSET_MIN_BALANCE).unwrap();
    for account in [ALICE, BOB, CHARLIE] {
        p.endow(ASSET_ID, account, ASSET_MIN_BALANCE * 100).unwrap();
    }
    p
}

#[test]
fn operations_on_unknown_matches_fail() {
    let mut p = setup_pallet();
    let ghost_id = match_id(ALICE, BOB, 7);

    assert_eq!(p.abort_match(ALICE, ghost_id), Err(Error::NonExistentMatch));
    assert_eq!(p.join_match(BOB, ghost_id, 0), Err(Error::NonExistentMatch));
    assert_eq!(
        p.make_move(ALICE, ghost_id, "e2e4", 0),
        Err(Error::NonExistentMatch)
    );
    assert_eq!(
        p.clear_abandoned_match(ALICE, ghost_id, 0),
        Err(Error::NonExistentMatch)
    );
}

#[test]
fn deleted_matches_stay_deleted() {
    let mut p = setup_pallet();
    let bet_amount = ASSET_MIN_BALANCE * 5;

    assert!(p
        .create_match(ALICE, BOB, MatchStyle::Bullet, ASSET_ID, bet_amount)
        .is_ok());
    let id = p.chess_match_id_from_nonce(0).unwrap();
    assert!(p.abort_match(ALICE, id).is_ok());

    // every later operation referencing the identifier fails with not-found
    assert_eq!(p.abort_match(ALICE, id), Err(Error::NonExistentMatch));
    assert_eq!(p.join_match(BOB, id, 0), Err(Error::NonExistentMatch));
    assert_eq!(p.make_move(ALICE, id, "e2e4", 0), Err(Error::NonExistentMatch));
    assert_eq!(
        p.clear_abandoned_match(CHARLIE, id, 1000),
        Err(Error::NonExistentMatch)
    );

    // a new match never reuses the deleted identifier
    assert!(p
        .create_match(ALICE, BOB, MatchStyle::Bullet, ASSET_ID, bet_amount)
        .is_ok());
    let new_id = p.chess_match_id_from_nonce(1).unwrap();
    assert_ne!(new_id, id);
    assert_eq!(p.chess_matches(id), None);
}

#[test]
fn lifecycle_preconditions_are_enforced() {
    let mut p = setup_pallet();
    let bet_amount = ASSET_MIN_BALANCE * 5;

    assert!(p
        .create_match(ALICE, BOB, MatchStyle::Bullet, ASSET_ID, bet_amount)
        .is_ok());
    let id = p.chess_match_id_from_nonce(0).unwrap();

    // only the designated opponent may join
    assert_eq!(p.join_match(CHARLIE, id, 0), Err(Error::NotMatchOpponent));
    // no move and no clearance before the opponent joined
    assert_eq!(p.make_move(ALICE, id, "e2e4", 0), Err(Error::StillAwaitingOpponent));
    assert_eq!(p.clear_abandoned_match(ALICE, id, 1000), Err(Error::MatchNotOnGoing));

    assert!(p.join_match(BOB, id, 0).is_ok());

    // joining twice re-escrows nothing: the match no longer awaits
    assert_eq!(p.join_match(BOB, id, 1), Err(Error::NotAwaitingOpponent));
    // once ongoing, aborting fails with the state error whoever calls
    assert_eq!(p.abort_match(ALICE, id), Err(Error::NotAwaitingOpponent));
    assert_eq!(p.abort_match(BOB, id), Err(Error::NotAwaitingOpponent));
    assert_eq!(p.abort_match(CHARLIE, id), Err(Error::NotAwaitingOpponent));
}

#[test]
fn stakes_beyond_the_balance_are_rejected() {
    let mut p = setup_pallet();

    // the challenger cannot escrow more than they hold
    assert_eq!(
        p.create_match(ALICE, BOB, MatchStyle::Bullet, ASSET_ID, ASSET_MIN_BALANCE * 101),
        Err(Error::Transfer(LedgerError::InsufficientBalance))
    );
    // nothing was created
    assert_eq!(p.chess_match_id_from_nonce(0), None);
    assert_eq!(p.next_nonce(), 0);
    assert_eq!(p.balance(ASSET_ID, ALICE), ASSET_MIN_BALANCE * 100);
}

#[test]
fn forced_board_must_decode() {
    let mut p = setup_pallet();
    let bet_amount = ASSET_MIN_BALANCE * 5;

    assert!(p
        .create_match(ALICE, BOB, MatchStyle::Bullet, ASSET_ID, bet_amount)
        .is_ok());
    let id = p.chess_match_id_from_nonce(0).unwrap();

    assert_eq!(
        p.force_board_state(id, "not a position".to_string()),
        Err(Error::MatchNotOnGoing)
    );
    assert!(p.join_match(BOB, id, 0).is_ok());
    assert_eq!(
        p.force_board_state(id, "not a position".to_string()),
        Err(Error::InvalidBoardEncoding)
    );
    // a decodable position is accepted and the turn follows the position
    assert_eq!(
        p.force_board_state(id, "8/8/8/8/8/5K2/Q7/7k w - - 1 68".to_string()),
        Ok(())
    );
    let m = p.chess_matches(id).unwrap();
    assert_eq!(m.board, "8/8/8/8/8/5K2/Q7/7k w - - 1 68");
}

#[test]
fn no_payout_is_ever_orphaned_in_normal_play() {
    let mut p = setup_pallet();
    let bet_amount = ASSET_MIN_BALANCE * 5;

    assert!(p
        .create_match(ALICE, BOB, MatchStyle::Bullet, ASSET_ID, bet_amount)
        .is_ok());
    let id = p.chess_match_id_from_nonce(0).unwrap();
    assert!(p.join_match(BOB, id, 0).is_ok());
    assert_eq!(p.make_move(ALICE, id, "e2e4", 1), Ok(()));
    assert_eq!(p.clear_abandoned_match(ALICE, id, 12), Ok(()));

    assert!(p.orphaned_funds().is_empty());
    // escrow conservation with an empty orphan log: custody is exactly the
    // escrow total, which is zero once no match is live
    assert_eq!(p.balance(ASSET_ID, CUSTODY), 0);
}

#[test]
fn ledger_setup_errors_are_reported() {
    let mut p = setup_pallet();

    // an identifier can be registered only once
    assert_eq!(
        p.register_asset(ASSET_ID, ASSET_MIN_BALANCE),
        Err(LedgerError::AssetAlreadyExists)
    );
    // endowing an unknown asset fails
    assert_eq!(p.endow(ASSET_ID + 1, ALICE, 1), Err(LedgerError::UnknownAsset));
    // a holding cannot outgrow its fixed width
    assert_eq!(p.endow(ASSET_ID, ALICE, u64::MAX), Err(LedgerError::Overflow));
    // creating a match in an unknown asset fails before any transfer
    assert_eq!(
        p.create_match(ALICE, BOB, MatchStyle::Bullet, ASSET_ID + 1, ASSET_MIN_BALANCE * 5),
        Err(Error::BetDoesNotExist)
    );
}

#[test]
fn failed_payout_is_reported_and_orphaned() {
    let mut p = setup_pallet();
    let bet_amount = ASSET_MIN_BALANCE * 5;

    // fill bob's balance to the width limit so the prize cannot reach him
    let headroom = u64::MAX - ASSET_MIN_BALANCE * 100;
    p.endow(ASSET_ID, BOB, headroom).unwrap();

    assert!(p
        .create_match(ALICE, BOB, MatchStyle::Bullet, ASSET_ID, bet_amount)
        .is_ok());
    let id = p.chess_match_id_from_nonce(0).unwrap();
    assert!(p.join_match(BOB, id, 0).is_ok());

    // bob wins by the fastest mate: 1.f3 e5 2.g4 Qh4#
    assert_eq!(p.make_move(ALICE, id, "f2f3", 1), Ok(()));
    assert_eq!(p.make_move(BOB, id, "e7e5", 1), Ok(()));
    assert_eq!(p.make_move(ALICE, id, "g2g4", 1), Ok(()));
    assert_eq!(p.make_move(BOB, id, "d8h4", 1), Ok(()));

    // the award transfer overflowed bob's balance: the match is still
    // deleted, the failure is reported, and the pot stays in custody
    assert_eq!(p.chess_matches(id), None);
    let events = p.events();
    assert!(events.contains(&pallet_chess::types::Event::MatchAwardError(id, BOB)));
    assert_eq!(p.orphaned_funds().as_slice(), &[(ASSET_ID, 2 * bet_amount)]);
    assert_eq!(p.balance(ASSET_ID, CUSTODY), 2 * bet_amount);
    assert_eq!(p.balance(ASSET_ID, BOB), u64::MAX - bet_amount);
}
