use pallet_chess::config::Config;
use pallet_chess::pallet::{GenesisConfig, Pallet};
use pallet_chess::types::{Error, Event, MatchState, MatchStyle, NextMove};

const ASSET_ID: u32 = 200;
const ASSET_MIN_BALANCE: u64 = 1_000;
const ALICE: u64 = 1;
const BOB: u64 = 2;
const CHARLIE: u64 = 3;
const CUSTODY: u64 = 999;

fn setup_pallet() -> Pallet {
    let config = Config {
        pallet_account: CUSTODY,
        k: 32,
        bullet_period: 10,
        blitz_period: 50,
        rapid_period: 150,
        daily_period: 14400,
        incentive_share: 10,
    };
    let mut p = Pallet::new(config);
    p.register_asset(ASSET_ID, ASSET_MIN_BALANCE).unwrap();
    for account in [ALICE, BOB, CHARLIE] {
        p.endow(ASSET_ID, account, ASSET_MIN_BALANCE * 100).unwrap();
    }
    let genesis = GenesisConfig {
        elo: vec![(ALICE, 2000), (BOB, 2400), (CHARLIE, 1000)],
    };
    genesis.build(&mut p);
    p
}

#[test]
fn join_escrows_both_stakes() {
    let mut p = setup_pallet();
    let bet_amount = ASSET_MIN_BALANCE * 5;

    assert!(p
        .create_match(ALICE, BOB, MatchStyle::Bullet, ASSET_ID, bet_amount)
        .is_ok());
    let match_id = p.chess_match_id_from_nonce(0).unwrap();
    assert!(p.join_match(BOB, match_id, 0).is_ok());

    let chess_match = p.chess_matches(match_id).unwrap();
    assert_eq!(chess_match.state, MatchState::OnGoing(NextMove::Whites));
    assert_eq!(p.balance(ASSET_ID, ALICE), ASSET_MIN_BALANCE * 95);
    assert_eq!(p.balance(ASSET_ID, BOB), ASSET_MIN_BALANCE * 95);
    assert_eq!(p.balance(ASSET_ID, CUSTODY), 2 * bet_amount);
}

#[test]
fn fools_mate_variation_pays_black() {
    let mut p = setup_pallet();
    let bet_amount = ASSET_MIN_BALANCE * 5;

    assert!(p
        .create_match(ALICE, BOB, MatchStyle::Daily, ASSET_ID, bet_amount)
        .is_ok());
    let match_id = p.chess_match_id_from_nonce(0).unwrap();
    assert!(p.join_match(BOB, match_id, 0).is_ok());

    // 1.e4 e5 2.Nf3 Nc6 3.d4 exd4 4.Nxd4 Bc5 5.c3 Qf6 6.Nxc6 Qxf2#
    let moves = [
        "e2e4", "e7e5", "g1f3", "b8c6", "d2d4", "e5d4", "f3d4", "f8c5", "c2c3", "d8f6", "d4c6",
        "f6f2",
    ];
    for (k, mv) in moves.iter().enumerate() {
        let mover = if k % 2 == 0 { ALICE } else { BOB };
        let now = (k + 1) as u64;
        assert_eq!(p.make_move(mover, match_id, mv, now), Ok(()));
    }

    // black (the opponent) delivered mate: match settled and deleted
    assert_eq!(p.chess_matches(match_id), None);
    assert_eq!(p.chess_match_id_from_nonce(0), None);

    let last = p.events().last().unwrap().clone();
    match last {
        Event::MatchWon(id, winner, board) => {
            assert_eq!(id, match_id);
            assert_eq!(winner, BOB);
            assert_eq!(
                board,
                "r1b1k1nr/pppp1ppp/2N5/2b5/4P3/2P5/PP3qPP/RNBQKB1R w KQkq - 0 7"
            );
        }
        other => panic!("expected a win event, got {:?}", other),
    }

    // winner takes both stakes
    assert_eq!(p.balance(ASSET_ID, BOB), ASSET_MIN_BALANCE * 105);
    assert_eq!(p.balance(ASSET_ID, ALICE), ASSET_MIN_BALANCE * 95);
    assert_eq!(p.balance(ASSET_ID, CUSTODY), 0);
}

#[test]
fn turn_alternation_is_enforced() {
    let mut p = setup_pallet();
    let bet_amount = ASSET_MIN_BALANCE * 5;

    assert!(p
        .create_match(ALICE, BOB, MatchStyle::Daily, ASSET_ID, bet_amount)
        .is_ok());
    let match_id = p.chess_match_id_from_nonce(0).unwrap();
    assert!(p.join_match(BOB, match_id, 0).is_ok());

    // black may not open the game
    assert_eq!(p.make_move(BOB, match_id, "e7e5", 1), Err(Error::NotYourTurn));
    assert_eq!(p.make_move(ALICE, match_id, "e2e4", 1), Ok(()));
    // white may not move twice in a row
    assert_eq!(p.make_move(ALICE, match_id, "d2d4", 2), Err(Error::NotYourTurn));
    assert_eq!(p.make_move(BOB, match_id, "e7e5", 2), Ok(()));
    // and the turn passes back
    assert_eq!(p.make_move(BOB, match_id, "d7d6", 3), Err(Error::NotYourTurn));
    assert_eq!(p.make_move(ALICE, match_id, "g1f3", 3), Ok(()));

    let chess_match = p.chess_matches(match_id).unwrap();
    assert_eq!(chess_match.state, MatchState::OnGoing(NextMove::Blacks));
    assert_eq!(chess_match.last_move, 3);
}

#[test]
fn claim_victory_works() {
    let mut p = setup_pallet();
    let bet_amount = ASSET_MIN_BALANCE * 5;

    let initial_balance_a = p.balance(ASSET_ID, ALICE);
    let initial_balance_b = p.balance(ASSET_ID, BOB);

    assert!(p
        .create_match(ALICE, BOB, MatchStyle::Bullet, ASSET_ID, bet_amount)
        .is_ok());
    let match_id = p.chess_match_id_from_nonce(0).unwrap();
    assert!(p.join_match(BOB, match_id, 0).is_ok());
    assert_eq!(p.make_move(ALICE, match_id, "e2e4", 0), Ok(()));

    // too early: the per-move budget has not lapsed
    assert_eq!(
        p.clear_abandoned_match(ALICE, match_id, 10),
        Err(Error::MoveNotExpired)
    );

    // advance past the opponent's time budget; alice claims victory
    let now = 0 + 10 + 1;
    assert_eq!(p.clear_abandoned_match(ALICE, match_id, now), Ok(()));

    let last = p.events().last().unwrap().clone();
    match last {
        Event::MatchWon(id, winner, board) => {
            assert_eq!(id, match_id);
            assert_eq!(winner, ALICE);
            assert_eq!(
                board,
                "rnbqkbnr/pppppppp/8/8/4P3/8/PPPP1PPP/RNBQKBNR b KQkq e3 0 1"
            );
        }
        other => panic!("expected a win event, got {:?}", other),
    }

    assert_eq!(p.chess_matches(match_id), None);
    assert_eq!(p.chess_match_id_from_nonce(0), None);

    assert_eq!(p.balance(ASSET_ID, ALICE), initial_balance_a + bet_amount);
    assert_eq!(p.balance(ASSET_ID, BOB), initial_balance_b - bet_amount);
}

#[test]
fn third_party_claim_before_abandonment_is_free() {
    let mut p = setup_pallet();
    let bet_amount = ASSET_MIN_BALANCE * 5;

    assert!(p
        .create_match(ALICE, BOB, MatchStyle::Bullet, ASSET_ID, bet_amount)
        .is_ok());
    let match_id = p.chess_match_id_from_nonce(0).unwrap();
    assert!(p.join_match(BOB, match_id, 0).is_ok());
    assert_eq!(p.make_move(ALICE, match_id, "e2e4", 1), Ok(()));

    // the per-move budget lapsed, but the 10x abandonment threshold did not:
    // a third party may clear, yet takes no fee
    let now = 1 + 10 + 1;
    assert_eq!(p.clear_abandoned_match(CHARLIE, match_id, now), Ok(()));

    assert_eq!(p.chess_matches(match_id), None);
    assert_eq!(p.balance(ASSET_ID, ALICE), ASSET_MIN_BALANCE * 105);
    assert_eq!(p.balance(ASSET_ID, BOB), ASSET_MIN_BALANCE * 95);
    assert_eq!(p.balance(ASSET_ID, CHARLIE), ASSET_MIN_BALANCE * 100);
    assert_eq!(p.balance(ASSET_ID, CUSTODY), 0);
}

#[test]
fn janitor_incentive_works() {
    let mut p = setup_pallet();
    let bet_amount = ASSET_MIN_BALANCE * 5; // incentive share is 10%

    let initial_balance_a = p.balance(ASSET_ID, ALICE);
    let initial_balance_b = p.balance(ASSET_ID, BOB);
    let initial_balance_c = p.balance(ASSET_ID, CHARLIE);

    assert!(p
        .create_match(ALICE, BOB, MatchStyle::Bullet, ASSET_ID, bet_amount)
        .is_ok());
    let match_id = p.chess_match_id_from_nonce(0).unwrap();
    assert!(p.join_match(BOB, match_id, 0).is_ok());
    assert_eq!(p.make_move(ALICE, match_id, "e2e4", 1), Ok(()));

    let share = p.config().incentive_share;
    let (janitor_incentive, actual_prize) = p
        .chess_matches(match_id)
        .unwrap()
        .janitor_incentive(share);
    assert_eq!(janitor_incentive, ASSET_MIN_BALANCE);
    assert_eq!(actual_prize, 2 * bet_amount - ASSET_MIN_BALANCE);

    // advance past the abandonment threshold; charlie cleans up for a fee
    let now = 1 + 10 * 10 + 1;
    assert_eq!(p.clear_abandoned_match(CHARLIE, match_id, now), Ok(()));

    assert_eq!(p.chess_matches(match_id), None);
    assert_eq!(p.chess_match_id_from_nonce(0), None);

    assert_eq!(
        p.balance(ASSET_ID, ALICE),
        initial_balance_a - bet_amount + actual_prize
    );
    assert_eq!(p.balance(ASSET_ID, BOB), initial_balance_b - bet_amount);
    assert_eq!(
        p.balance(ASSET_ID, CHARLIE),
        initial_balance_c + janitor_incentive
    );
    assert_eq!(p.balance(ASSET_ID, CUSTODY), 0);
}

#[test]
fn invalid_move_encoding_rejected() {
    let mut p = setup_pallet();
    let bet_amount = ASSET_MIN_BALANCE * 5;

    assert!(p
        .create_match(ALICE, BOB, MatchStyle::Bullet, ASSET_ID, bet_amount)
        .is_ok());
    let match_id = p.chess_match_id_from_nonce(0).unwrap();
    assert!(p.join_match(BOB, match_id, 0).is_ok());

    // any length other than four characters is rejected up front
    assert_eq!(p.make_move(ALICE, match_id, "", 1), Err(Error::InvalidMoveEncoding));
    assert_eq!(p.make_move(ALICE, match_id, "e2e", 1), Err(Error::InvalidMoveEncoding));
    assert_eq!(
        p.make_move(ALICE, match_id, "e2e4q", 1),
        Err(Error::InvalidMoveEncoding)
    );
    // four characters that do not decode to a move
    assert_eq!(p.make_move(ALICE, match_id, "zzzz", 1), Err(Error::InvalidMoveEncoding));
    // a decodable but illegal move
    assert_eq!(p.make_move(ALICE, match_id, "e2e5", 1), Err(Error::IllegalMove));
    // the match is untouched
    let chess_match = p.chess_matches(match_id).unwrap();
    assert_eq!(chess_match.state, MatchState::OnGoing(NextMove::Whites));
    assert_eq!(
        chess_match.board,
        "rnbqkbnr/pppppppp/8/8/8/8/PPPPPPPP/RNBQKBNR w KQkq - 0 1"
    );
}

#[test]
fn stalemate_refunds_both_stakes() {
    let mut p = setup_pallet();
    let bet_amount = ASSET_MIN_BALANCE * 5;

    assert!(p
        .create_match(ALICE, BOB, MatchStyle::Bullet, ASSET_ID, bet_amount)
        .is_ok());
    let match_id = p.chess_match_id_from_nonce(0).unwrap();
    assert!(p.join_match(BOB, match_id, 0).is_ok());

    // jump to a position where white forces stalemate in one move
    assert_eq!(
        p.force_board_state(match_id, "8/8/8/8/8/5K2/Q7/7k w - - 1 68".to_string()),
        Ok(())
    );
    assert_eq!(p.make_move(ALICE, match_id, "a2f2", 1), Ok(()));

    assert_eq!(p.chess_matches(match_id), None);
    assert_eq!(p.balance(ASSET_ID, ALICE), ASSET_MIN_BALANCE * 100);
    assert_eq!(p.balance(ASSET_ID, BOB), ASSET_MIN_BALANCE * 100);
    assert_eq!(p.balance(ASSET_ID, CUSTODY), 0);

    // a draw moves both ratings by the half score
    assert_eq!(p.player_elo(ALICE), 2013);
    assert_eq!(p.player_elo(BOB), 2387);

    let last = p.events().last().unwrap().clone();
    assert!(matches!(last, Event::MatchDrawn(id, _) if id == match_id));
}

#[test]
fn escrow_is_tracked_per_asset() {
    let mut p = setup_pallet();
    let other_asset = 300;
    p.register_asset(other_asset, 10).unwrap();
    p.endow(other_asset, ALICE, 10_000).unwrap();
    p.endow(other_asset, BOB, 10_000).unwrap();

    let bet_amount = ASSET_MIN_BALANCE * 5;
    assert!(p
        .create_match(ALICE, BOB, MatchStyle::Bullet, ASSET_ID, bet_amount)
        .is_ok());
    let first = p.chess_match_id_from_nonce(0).unwrap();
    assert!(p.join_match(BOB, first, 0).is_ok());

    assert!(p.create_match(BOB, ALICE, MatchStyle::Daily, other_asset, 500).is_ok());
    let second = p.chess_match_id_from_nonce(1).unwrap();

    // custody holds both stakes of the first match and one of the second,
    // each in its own asset
    assert_eq!(p.balance(ASSET_ID, CUSTODY), 2 * bet_amount);
    assert_eq!(p.balance(other_asset, CUSTODY), 500);

    assert!(p.abort_match(BOB, second).is_ok());
    assert_eq!(p.balance(other_asset, CUSTODY), 0);
    assert_eq!(p.balance(ASSET_ID, CUSTODY), 2 * bet_amount);
}

#[test]
fn time_budget_follows_the_style() {
    let mut p = setup_pallet();
    let bet_amount = ASSET_MIN_BALANCE * 5;

    assert!(p
        .create_match(ALICE, BOB, MatchStyle::Blitz, ASSET_ID, bet_amount)
        .is_ok());
    let id = p.chess_match_id_from_nonce(0).unwrap();
    assert!(p.join_match(BOB, id, 0).is_ok());
    assert_eq!(p.make_move(ALICE, id, "e2e4", 0), Ok(()));

    // eleven units exceed a bullet budget but not a blitz budget
    assert_eq!(p.clear_abandoned_match(ALICE, id, 11), Err(Error::MoveNotExpired));
    assert_eq!(p.clear_abandoned_match(ALICE, id, 50), Err(Error::MoveNotExpired));
    assert_eq!(p.clear_abandoned_match(ALICE, id, 51), Ok(()));
    assert_eq!(p.chess_matches(id), None);
}
