//! Board codec: the narrow trusted interface to the `cozy_chess` engine.
//!
//! A position travels through the module as its FEN text. What the engine
//! computes from that text — whether it parses, whether a move is legal, the
//! position after a move, the game status, the side to move — is named by
//! uninterpreted spec functions, and a small set of trusted wrappers states
//! how each engine call relates to those names. Everything else in this
//! module is verified against them.

use vstd::prelude::*;

use crate::types::Error;

verus! {

/// Status of a position: still playable, drawn, or won by the side that
/// just moved (the side to move has been mated).
#[derive(Clone, Copy, Debug, PartialEq, Eq, Structural)]
pub enum BoardStatus {
    Ongoing,
    Drawn,
    Won,
}

/// The FEN text of the canonical starting position.
pub open spec fn init_fen() -> Seq<char> {
    "rnbqkbnr/pppppppp/8/8/8/8/PPPPPPPP/RNBQKBNR w KQkq - 0 1"@
}

/// Whether `cozy_chess::Board::from_fen`, with the Shredder-FEN flag off,
/// accepts this text as a position. The standard parser is used throughout:
/// it keeps castling rights on the rook home files, which the board's
/// `Display` round-trips, unlike Shredder-FEN rights on arbitrary files.
pub uninterp spec fn fen_ok(fen: Seq<char>) -> bool;

/// Whether `cozy_chess::Move::from_str` accepts this text as a move.
pub uninterp spec fn move_ok(mv: Seq<char>) -> bool;

/// Whether `cozy_chess::Board::is_legal` accepts the move in the
/// standard-parsed position.
pub uninterp spec fn move_legal(fen: Seq<char>, mv: Seq<char>) -> bool;

/// The FEN text of the standard-parsed position after playing the move, as
/// `cozy_chess::Board::play_unchecked` computes it.
pub uninterp spec fn fen_after(fen: Seq<char>, mv: Seq<char>) -> Seq<char>;

/// The status `cozy_chess::Board::status` reports for the standard-parsed
/// position.
pub uninterp spec fn status_of(fen: Seq<char>) -> BoardStatus;

/// Whether `cozy_chess::Board::side_to_move` reports white to move in the
/// standard-parsed position.
pub uninterp spec fn white_to_move(fen: Seq<char>) -> bool;

/// Relies on `cozy_chess::Board::default` and its `Display`: the default
/// board is the canonical starting position, it prints as the canonical FEN,
/// the standard-FEN parser accepts that FEN, and white moves first.
#[verifier::external_body]
pub(crate) fn engine_initial_fen() -> (r: String)
    ensures
        r@ == init_fen(),
        fen_ok(r@),
        white_to_move(r@),
{
    format!("{}", cozy_chess::Board::default())
}

/// Relies on `cozy_chess::Board::from_fen` with the Shredder-FEN flag off:
/// it returns `Ok` exactly on text the standard parser accepts as a
/// position, and never panics.
#[verifier::external_body]
pub(crate) fn engine_fen_ok(fen: &str) -> (r: bool)
    ensures
        r == fen_ok(fen@),
{
    cozy_chess::Board::from_fen(fen, false).is_ok()
}

/// Relies on `cozy_chess::Move::from_str`: it returns `Ok` exactly on text
/// it accepts as a move, and never panics.
#[verifier::external_body]
pub(crate) fn engine_move_ok(mv: &str) -> (r: bool)
    ensures
        r == move_ok(mv@),
{
    mv.parse::<cozy_chess::Move>().is_ok()
}

/// Relies on `cozy_chess::Board::is_legal`: a total legality test on a
/// parsed position and a parsed move.
#[verifier::external_body]
pub(crate) fn engine_move_legal(fen: &str, mv: &str) -> (r: bool)
    requires
        fen_ok(fen@),
        move_ok(mv@),
    ensures
        r == move_legal(fen@, mv@),
{
    let board = cozy_chess::Board::from_fen(fen, false).unwrap();
    let chess_move: cozy_chess::Move = mv.parse().unwrap();
    board.is_legal(chess_move)
}

/// Relies on `cozy_chess::Board::play_unchecked` and the board's `Display`:
/// playing a legal move passes the turn to the other side and yields a
/// position whose FEN text the standard parser accepts again — a
/// standard-FEN position keeps its castling rights on the rook home files,
/// legal play only clears rights (king move, rook move, rook capture), and
/// the engine caps the clock fields at the parser's bounds.
#[verifier::external_body]
pub(crate) fn engine_apply_move(fen: &str, mv: &str) -> (r: String)
    requires
        fen_ok(fen@),
        move_ok(mv@),
        move_legal(fen@, mv@),
    ensures
        r@ == fen_after(fen@, mv@),
        fen_ok(r@),
        white_to_move(r@) == !white_to_move(fen@),
{
    let mut board = cozy_chess::Board::from_fen(fen, false).unwrap();
    let chess_move: cozy_chess::Move = mv.parse().unwrap();
    board.play_unchecked(chess_move);
    format!("{}", board)
}

/// Relies on `cozy_chess::Board::status`: a total status computation on a
/// parsed position, with one arm per engine status.
#[verifier::external_body]
pub(crate) fn engine_status(fen: &str) -> (r: BoardStatus)
    requires
        fen_ok(fen@),
    ensures
        r == status_of(fen@),
{
    let board = cozy_chess::Board::from_fen(fen, false).unwrap();
    match board.status() {
        cozy_chess::GameStatus::Ongoing => BoardStatus::Ongoing,
        cozy_chess::GameStatus::Drawn => BoardStatus::Drawn,
        cozy_chess::GameStatus::Won => BoardStatus::Won,
    }
}

/// Relies on `cozy_chess::Board::side_to_move`: a total query on a parsed
/// position.
#[verifier::external_body]
pub(crate) fn engine_white_to_move(fen: &str) -> (r: bool)
    requires
        fen_ok(fen@),
    ensures
        r == white_to_move(fen@),
{
    let board = cozy_chess::Board::from_fen(fen, false).unwrap();
    board.side_to_move() == cozy_chess::Color::White
}

/// The canonical starting position, as accepted by the engine.
pub fn initial_position() -> (r: String)
    ensures
        r@ == init_fen(),
        fen_ok(r@),
        white_to_move(r@),
{
    engine_initial_fen()
}

/// Whether this text decodes to a position.
pub fn position_is_valid(fen: &str) -> (r: bool)
    ensures
        r == fen_ok(fen@),
{
    engine_fen_ok(fen)
}

/// Whether this text decodes to a move.
pub fn move_is_valid(mv: &str) -> (r: bool)
    ensures
        r == move_ok(mv@),
{
    engine_move_ok(mv)
}

/// The status of a position, or `None` if the text does not decode.
pub fn position_status(fen: &str) -> (r: Option<BoardStatus>)
    ensures
        fen_ok(fen@) ==> r == Some(status_of(fen@)),
        !fen_ok(fen@) ==> r is None,
{
    if engine_fen_ok(fen) {
        Some(engine_status(fen))
    } else {
        None
    }
}

/// Whether white is to move in a position, or `None` if the text does not
/// decode.
pub fn position_white_to_move(fen: &str) -> (r: Option<bool>)
    ensures
        fen_ok(fen@) ==> r == Some(white_to_move(fen@)),
        !fen_ok(fen@) ==> r is None,
{
    if engine_fen_ok(fen) {
        Some(engine_white_to_move(fen))
    } else {
        None
    }
}

/// Decodes a position and a move, checks the move's legality, and applies
/// it, returning the resulting position and its status.
pub fn apply_move_checked(fen: &str, mv: &str) -> (r: Result<(String, BoardStatus), Error>)
    ensures
        !fen_ok(fen@) ==> r == Err::<(String, BoardStatus), Error>(Error::InvalidBoardEncoding),
        fen_ok(fen@) && !move_ok(mv@) ==> r == Err::<(String, BoardStatus), Error>(
            Error::InvalidMoveEncoding,
        ),
        fen_ok(fen@) && move_ok(mv@) && !move_legal(fen@, mv@) ==> r == Err::<
            (String, BoardStatus),
            Error,
        >(Error::IllegalMove),
        fen_ok(fen@) && move_ok(mv@) && move_legal(fen@, mv@) ==> (r matches Ok(p) && {
            &&& p.0@ == fen_after(fen@, mv@)
            &&& fen_ok(p.0@)
            &&& white_to_move(p.0@) == !white_to_move(fen@)
            &&& p.1 == status_of(fen_after(fen@, mv@))
        }),
{
    if !engine_fen_ok(fen) {
        return Err(Error::InvalidBoardEncoding);
    }
    if !engine_move_ok(mv) {
        return Err(Error::InvalidMoveEncoding);
    }
    if !engine_move_legal(fen, mv) {
        return Err(Error::IllegalMove);
    }
    let next = engine_apply_move(fen, mv);
    let status = engine_status(next.as_str());
    Ok((next, status))
}

} // verus!
