use pallet_chess::config::Config;
use pallet_chess::pallet::{GenesisConfig, Pallet};
use pallet_chess::types::{Error, MatchState, MatchStyle};

const ASSET_ID: u32 = 200;
const ASSET_MIN_BALANCE: u64 = 1_000;
const ALICE: u64 = 1;
const BOB: u64 = 2;
const CHARLIE: u64 = 3;
const DAVE: u64 = 4;
const CUSTODY: u64 = 999;

fn setup_pallet() -> Pallet {
    let config = Config {
        pallet_account: CUSTODY,
        k: 32,
        bullet_period: 10,
        blitz_period: 50,
        rapid_period: 150,
        daily_period: 14400,
        incentive_share: 10,
    };
    let mut p = Pallet::new(config);
    p.register_asset(ASSET_ID, ASSET_MIN_BALANCE).unwrap();
    for account in [ALICE, BOB, CHARLIE, DAVE] {
        p.endow(ASSET_ID, account, ASSET_MIN_BALANCE * 100).unwrap();
    }
    let genesis = GenesisConfig {
        elo: vec![(ALICE, 2000), (BOB, 2400), (CHARLIE, 1000), (DAVE, 1000)],
    };
    genesis.build(&mut p);
    p
}

#[test]
fn create_match_works() {
    let mut p = setup_pallet();

    let bet_asset_id = ASSET_ID;
    let bet_amount_low = ASSET_MIN_BALANCE * 4; // incentive share is 10%

    // assert BetTooLow error
    assert_eq!(
        p.create_match(ALICE, BOB, MatchStyle::Bullet, bet_asset_id, bet_amount_low),
        Err(Error::BetTooLow)
    );

    let bet_amount = ASSET_MIN_BALANCE * 5; // incentive share is 10%
    let bet_asset_id_noop = ASSET_ID + 1;

    // assert BetDoesNotExist error
    assert_eq!(
        p.create_match(ALICE, BOB, MatchStyle::Bullet, bet_asset_id_noop, bet_amount),
        Err(Error::BetDoesNotExist)
    );

    // assert InvalidOpponent error
    assert_eq!(
        p.create_match(ALICE, ALICE, MatchStyle::Bullet, bet_asset_id, bet_amount),
        Err(Error::InvalidOpponent)
    );

    // assert successful create_match
    let initial_balance_a = p.balance(bet_asset_id, ALICE);

    assert!(p
        .create_match(ALICE, BOB, MatchStyle::Bullet, bet_asset_id, bet_amount)
        .is_ok());

    let match_id = p.chess_match_id_from_nonce(0).unwrap();
    let chess_match = p.chess_matches(match_id).unwrap();

    assert_eq!(chess_match.challenger, ALICE);
    assert_eq!(chess_match.opponent, BOB);
    assert_eq!(
        chess_match.board,
        "rnbqkbnr/pppppppp/8/8/8/8/PPPPPPPP/RNBQKBNR w KQkq - 0 1"
    );
    assert_eq!(chess_match.state, MatchState::AwaitingOpponent);
    assert_eq!(chess_match.nonce, 0);

    let final_balance_a = p.balance(bet_asset_id, ALICE);
    assert_eq!(final_balance_a, initial_balance_a - bet_amount);
}

#[test]
fn abort_match_works() {
    let mut p = setup_pallet();

    let bet_asset_id = ASSET_ID;

    let initial_balance_a = p.balance(bet_asset_id, ALICE);
    let bet_amount = ASSET_MIN_BALANCE * 5; // incentive share is 10%

    assert!(p
        .create_match(ALICE, BOB, MatchStyle::Bullet, bet_asset_id, bet_amount)
        .is_ok());

    let match_id = p.chess_match_id_from_nonce(0).unwrap();

    assert_eq!(p.abort_match(BOB, match_id), Err(Error::NotMatchChallenger));

    assert!(p.abort_match(ALICE, match_id).is_ok());

    assert_eq!(p.chess_matches(match_id), None);
    assert_eq!(p.chess_match_id_from_nonce(0), None);

    let final_balance_a = p.balance(bet_asset_id, ALICE);
    assert_eq!(final_balance_a, initial_balance_a);
}

#[test]
fn join_match_works() {
    let mut p = setup_pallet();

    let bet_asset_id = ASSET_ID;

    let initial_balance_a = p.balance(bet_asset_id, ALICE);
    let initial_balance_b = p.balance(bet_asset_id, BOB);

    let bet_amount = ASSET_MIN_BALANCE * 5; // incentive share is 10%

    assert!(p
        .create_match(ALICE, BOB, MatchStyle::Bullet, bet_asset_id, bet_amount)
        .is_ok());

    let match_id = p.chess_match_id_from_nonce(0).unwrap();

    assert!(p.join_match(BOB, match_id, 0).is_ok());

    let chess_match = p.chess_matches(match_id).unwrap();
    assert!(matches!(chess_match.state, MatchState::OnGoing(_)));

    let final_balance_a = p.balance(bet_asset_id, ALICE);
    let final_balance_b = p.balance(bet_asset_id, BOB);
    assert_eq!(final_balance_a, initial_balance_a - bet_amount);
    assert_eq!(final_balance_b, initial_balance_b - bet_amount);
}

#[test]
fn get_player_matches_works() {
    let mut p = setup_pallet();

    let bet_asset_id = ASSET_ID;
    let bet_amount = ASSET_MIN_BALANCE * 5; // incentive share is 10%

    assert!(p
        .create_match(ALICE, BOB, MatchStyle::Bullet, bet_asset_id, bet_amount)
        .is_ok());

    let match_id = p.chess_match_id_from_nonce(0).unwrap();
    let mut alice_matches = p.player_matches(ALICE);
    let mut bob_matches = p.player_matches(BOB);

    assert_eq!(alice_matches[0], match_id);
    assert_eq!(bob_matches[0], match_id);

    assert!(p.join_match(BOB, match_id, 0).is_ok());
    assert!(p
        .create_match(ALICE, CHARLIE, MatchStyle::Bullet, bet_asset_id, bet_amount)
        .is_ok());
    let new_match_id = p.chess_match_id_from_nonce(1).unwrap();

    alice_matches = p.player_matches(ALICE);
    bob_matches = p.player_matches(BOB);

    assert_eq!(alice_matches[0], match_id);
    assert_eq!(alice_matches[1], new_match_id);
    assert_eq!(bob_matches[0], match_id);

    // advance past the point where the pending move's time budget lapses
    let now = 0 + 10 + 1;

    assert!(p.clear_abandoned_match(ALICE, match_id, now).is_ok());

    alice_matches = p.player_matches(ALICE);
    bob_matches = p.player_matches(BOB);
    assert_eq!(alice_matches[0], new_match_id);
    assert_eq!(bob_matches.len(), 0);
}
