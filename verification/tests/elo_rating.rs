use pallet_chess::config::Config;
use pallet_chess::pallet::{GenesisConfig, Pallet};
use pallet_chess::types::{DefaultElo, MatchStyle};

const ASSET_ID: u32 = 200;
const ASSET_MIN_BALANCE: u64 = 1_000;
const ALICE: u64 = 1;
const BOB: u64 = 2;
const CUSTODY: u64 = 999;

fn setup_pallet() -> Pallet {
    let config = Config {
        pallet_account: CUSTODY,
        k: 32,
        bullet_period: 10,
        blitz_period: 50,
        rapid_period: 150,
        daily_period: 14400,
        incentive_share: 10,
    };
    let mut p = Pallet::new(config);
    p.register_asset(ASSET_ID, ASSET_MIN_BALANCE).unwrap();
    for account in [ALICE, BOB] {
        p.endow(ASSET_ID, account, ASSET_MIN_BALANCE * 100).unwrap();
    }
    let genesis = GenesisConfig {
        elo: vec![(ALICE, 2000), (BOB, 2400)],
    };
    genesis.build(&mut p);
    p
}

// the fastest possible loss for white: 1.f3 e5 2.g4 Qh4#
fn play_fools_mate(p: &mut Pallet, white: u64, black: u64) {
    let bet_amount = ASSET_MIN_BALANCE * 5;
    let nonce = p.next_nonce();
    assert!(p
        .create_match(white, black, MatchStyle::Bullet, ASSET_ID, bet_amount)
        .is_ok());
    let match_id = p.chess_match_id_from_nonce(nonce).unwrap();
    assert!(p.join_match(black, match_id, 0).is_ok());
    assert_eq!(p.make_move(white, match_id, "f2f3", 1), Ok(()));
    assert_eq!(p.make_move(black, match_id, "e7e5", 1), Ok(()));
    assert_eq!(p.make_move(white, match_id, "g2g4", 1), Ok(()));
    assert_eq!(p.make_move(black, match_id, "d8h4", 1), Ok(()));
    assert_eq!(p.chess_matches(match_id), None);
}

#[test]
fn elo_updates_when_the_stronger_player_wins() {
    let mut p = setup_pallet();

    assert_eq!(p.player_elo(ALICE), 2000);
    assert_eq!(p.player_elo(BOB), 2400);

    // alice plays white and gets mated: the stronger player wins as black
    play_fools_mate(&mut p, ALICE, BOB);

    assert_eq!(p.player_elo(ALICE), 1997);
    assert_eq!(p.player_elo(BOB), 2403);
}

#[test]
fn elo_updates_when_the_stronger_player_loses() {
    let mut p = setup_pallet();

    assert_eq!(p.player_elo(ALICE), 2000);
    assert_eq!(p.player_elo(BOB), 2400);

    // bob plays white and gets mated: the weaker player wins as black
    play_fools_mate(&mut p, BOB, ALICE);

    assert_eq!(p.player_elo(ALICE), 2029);
    assert_eq!(p.player_elo(BOB), 2371);
}

#[test]
fn unrated_accounts_start_at_the_default() {
    let p = setup_pallet();
    assert_eq!(DefaultElo::get(), 1600);
    assert_eq!(p.player_elo(777), 1600);
}

#[test]
fn genesis_ratings_apply_in_order() {
    let config = Config {
        pallet_account: CUSTODY,
        k: 32,
        bullet_period: 10,
        blitz_period: 50,
        rapid_period: 150,
        daily_period: 14400,
        incentive_share: 10,
    };
    let mut p = Pallet::new(config);
    // a later entry for the same account overwrites an earlier one
    let genesis = GenesisConfig {
        elo: vec![(ALICE, 2000), (BOB, 2400), (ALICE, 1500)],
    };
    genesis.build(&mut p);
    assert_eq!(p.player_elo(ALICE), 1500);
    assert_eq!(p.player_elo(BOB), 2400);
    assert_eq!(p.player_elo(CUSTODY), 1600);
}
