use pallet_chess::codec;
use pallet_chess::codec::BoardStatus;

const START: &str = "rnbqkbnr/pppppppp/8/8/8/8/PPPPPPPP/RNBQKBNR w KQkq - 0 1";

#[test]
fn initial_position_round_trips() {
    let fen = codec::initial_position();
    assert_eq!(fen, START);
    assert!(codec::position_is_valid(&fen));

    // decoding the encoding yields the canonical start, per the engine
    let board = cozy_chess::Board::from_fen(&fen, false).unwrap();
    assert_eq!(board, cozy_chess::Board::default());
    assert_eq!(codec::position_status(&fen), Some(BoardStatus::Ongoing));
    assert_eq!(codec::position_white_to_move(&fen), Some(true));
}

#[test]
fn applying_a_move_agrees_with_the_engine() {
    let fen = codec::initial_position();
    let (next, status) = codec::apply_move_checked(&fen, "e2e4").unwrap();

    assert_ne!(next, fen);
    assert!(codec::position_is_valid(&next));
    assert_eq!(status, BoardStatus::Ongoing);
    assert_eq!(codec::position_white_to_move(&next), Some(false));

    // the engine's independent evaluation agrees with the re-decoded text
    let mut board = cozy_chess::Board::from_fen(&fen, false).unwrap();
    board.play("e2e4".parse().unwrap());
    assert_eq!(format!("{}", board), next);
    assert_eq!(board.status(), cozy_chess::GameStatus::Ongoing);
    assert_eq!(codec::position_status(&next), Some(BoardStatus::Ongoing));
}

#[test]
fn invalid_encodings_are_rejected() {
    assert!(!codec::position_is_valid("this is no position"));
    assert!(!codec::position_is_valid(""));
    assert!(codec::move_is_valid("e2e4"));
    assert!(!codec::move_is_valid("zzzz"));
    assert!(!codec::move_is_valid(""));

    assert_eq!(
        codec::apply_move_checked("garbage", "e2e4"),
        Err(pallet_chess::types::Error::InvalidBoardEncoding)
    );
    assert_eq!(
        codec::apply_move_checked(START, "zzzz"),
        Err(pallet_chess::types::Error::InvalidMoveEncoding)
    );
    assert_eq!(
        codec::apply_move_checked(START, "e2e5"),
        Err(pallet_chess::types::Error::IllegalMove)
    );
    assert_eq!(codec::position_status("garbage"), None);
    assert_eq!(codec::position_white_to_move("garbage"), None);
}

#[test]
fn shredder_castling_rights_are_rejected() {
    // castling rights on a file other than the rook home files are a
    // Shredder-FEN extension; the codec holds every position to the
    // standard parser, whose output the board's display round-trips
    let shredder_only = "1k6/8/8/8/8/4P3/8/4K1R1 w G - 0 1";
    assert!(!codec::position_is_valid(shredder_only));
    assert_eq!(codec::position_status(shredder_only), None);
    assert_eq!(
        codec::apply_move_checked(shredder_only, "e3e4"),
        Err(pallet_chess::types::Error::InvalidBoardEncoding)
    );

    // standard castling rights on the home files stay accepted and survive
    // a legal move that keeps them
    let standard = "1k6/8/8/8/8/4P3/8/R3K3 w Q - 0 1";
    assert!(codec::position_is_valid(standard));
    let (next, _) = codec::apply_move_checked(standard, "e3e4").unwrap();
    assert_eq!(next, "1k6/8/8/8/4P3/8/8/R3K3 b Q - 0 1");
    assert!(codec::position_is_valid(&next));
}

#[test]
fn terminal_positions_report_their_status() {
    // checkmate: the side to move has lost
    let mated = "rnb1kbnr/pppp1ppp/8/4p3/6Pq/5P2/PPPPP2P/RNBQKBNR w KQkq - 1 3";
    assert_eq!(codec::position_status(mated), Some(BoardStatus::Won));

    // stalemate: the side to move has no moves and is not in check
    let stalemate = "7k/5Q2/6K1/8/8/8/8/8 b - - 0 1";
    assert_eq!(codec::position_status(stalemate), Some(BoardStatus::Drawn));

    // the engine agrees on both
    let mated_board = cozy_chess::Board::from_fen(mated, false).unwrap();
    assert_eq!(mated_board.status(), cozy_chess::GameStatus::Won);
    let stale_board = cozy_chess::Board::from_fen(stalemate, false).unwrap();
    assert_eq!(stale_board.status(), cozy_chess::GameStatus::Drawn);
}
