use armada_chess::chess_board::{ChessBoard, SelectionMode};
use armada_chess::chess_piece::{ChessPiece, PieceKind, PieceTeam};

fn piece(kind: PieceKind, team: PieceTeam) -> Option<ChessPiece> {
    Some(ChessPiece::new(kind, team))
}

fn put(board: &mut ChessBoard, at: [isize; 2], value: Option<ChessPiece>) {
    *board.get_piece_mut(at).expect("square is stored") = value;
}

#[test]
fn new_board_layout() {
    let board = ChessBoard::new();
    assert_eq!(board.get_piece([0, 4]), Some(piece(PieceKind::King, PieceTeam::White)));
    assert_eq!(board.get_piece([0, 3]), Some(piece(PieceKind::Queen, PieceTeam::White)));
    assert_eq!(board.get_piece([0, 0]), Some(piece(PieceKind::Rook, PieceTeam::White)));
    assert_eq!(board.get_piece([1, 5]), Some(piece(PieceKind::Pawn, PieceTeam::White)));
    assert_eq!(board.get_piece([3, 2]), Some(None));
    assert_eq!(board.get_piece([6, 5]), Some(piece(PieceKind::Pawn, PieceTeam::Black)));
    assert_eq!(board.get_piece([7, 4]), Some(piece(PieceKind::King, PieceTeam::Black)));
    assert_eq!(board.get_piece([7, 6]), Some(piece(PieceKind::Knight, PieceTeam::Black)));
    assert_eq!(board.turn, PieceTeam::White);
    assert_eq!(board.king_positions, [[7, 4], [0, 4]]);
    assert_eq!(board.opportunity_location, None);
    assert_eq!(board.selection_mode, SelectionMode::MovePiece);
    assert_eq!(board.first_rank(), 0);
    assert_eq!(board.last_rank(), 7);
    assert!(!board.king_is_in_check());
    assert_eq!(ChessBoard::default(), board);
}

#[test]
fn wall_ranks_beyond_storage() {
    let board = ChessBoard::new();
    assert_eq!(board.get_piece([-1, 0]), Some(piece(PieceKind::Queen, PieceTeam::White)));
    assert_eq!(board.get_piece([-900, 7]), Some(piece(PieceKind::Queen, PieceTeam::White)));
    assert_eq!(board.get_piece([8, 2]), Some(piece(PieceKind::Queen, PieceTeam::Black)));
    assert_eq!(board.get_piece([isize::MAX, 2]), Some(piece(PieceKind::Queen, PieceTeam::Black)));
    assert_eq!(board.get_piece([isize::MIN, 2]), Some(piece(PieceKind::Queen, PieceTeam::White)));
    assert_eq!(board.get_piece([3, 8]), None);
    assert_eq!(board.get_piece([3, -1]), None);
    assert_eq!(board.index_of_rank(isize::MAX), isize::MAX);
    assert_eq!(board.index_of_rank(-3), -3);
}

#[test]
fn expansion_keeps_stored_ranks() {
    let mut board = ChessBoard::new();
    let before: Vec<_> = (0..8).map(|r| board.get_rank(r)).collect();
    board.expand_to_rank(-3);
    assert_eq!(board.first_rank(), -3);
    assert_eq!(board.last_rank(), 7);
    assert_eq!(board.ranks_behind_white, 3);
    assert_eq!(board.ranks.len(), 11);
    board.expand_to_rank(12);
    assert_eq!(board.last_rank(), 12);
    for r in 0..8 {
        assert_eq!(board.get_rank(r), before[r as usize]);
    }
    // ranks stored anew are empty; beyond them the wall is still read
    assert_eq!(board.get_piece([-3, 1]), Some(None));
    assert_eq!(board.get_piece([11, 1]), Some(None));
    assert_eq!(board.get_rank(-1), [None; 8]);
    assert_eq!(board.get_piece([-4, 1]), Some(piece(PieceKind::Queen, PieceTeam::White)));
    assert_eq!(board.get_piece([13, 1]), Some(piece(PieceKind::Queen, PieceTeam::Black)));
    board.expand_to_rank(2);
    assert_eq!(board.first_rank(), -3);
    assert_eq!(board.last_rank(), 12);
}

#[test]
fn expanding_access_stores_the_rank() {
    let mut board = ChessBoard::new();
    assert!(board.get_piece_expanding([-5, 9]).is_none());
    assert_eq!(board.first_rank(), -5);
    assert_eq!(board.get_piece([-5, 3]), Some(None));
    let cell = board.get_piece_expanding([20, 2]).expect("file on board");
    assert_eq!(*cell, None);
    *cell = piece(PieceKind::Bishop, PieceTeam::White);
    assert_eq!(board.last_rank(), 20);
    assert_eq!(board.get_piece([20, 2]), Some(piece(PieceKind::Bishop, PieceTeam::White)));
    assert_eq!(board.get_piece([19, 2]), Some(None));
    assert_eq!(board.get_piece([21, 2]), Some(piece(PieceKind::Queen, PieceTeam::Black)));
    assert_eq!(board.get_piece([0, 4]), Some(piece(PieceKind::King, PieceTeam::White)));
    let row = board.get_rank_expanding(-7);
    row[0] = None;
    assert_eq!(board.get_piece([-7, 0]), Some(None));
    assert_eq!(board.first_rank(), -7);
}

#[test]
fn rank_and_square_access() {
    let mut board = ChessBoard::new();
    assert!(board.get_rank_mut(8).is_none());
    assert!(board.get_piece_mut([3, 8]).is_none());
    board.get_rank_mut(3).expect("stored")[5] = piece(PieceKind::Knight, PieceTeam::Black);
    assert_eq!(board.get_piece([3, 5]), Some(piece(PieceKind::Knight, PieceTeam::Black)));
    assert_eq!(board.get_king_position(), [0, 4]);
    *board.get_king_position_mut() = [2, 2];
    assert_eq!(board.king_positions, [[7, 4], [2, 2]]);
    assert_eq!(board.invert_rank(0), 7);
    assert_eq!(board.invert_rank(9), -2);
    assert_eq!(board.invert_file(2), 5);
}

#[test]
fn double_step_arms_opportunity() {
    let mut board = ChessBoard::new();
    assert_eq!(board.move_piece([1, 4], [3, 4]), Some(true));
    assert_eq!(board.opportunity_location, Some([3, 4]));
    assert_eq!(board.turn, PieceTeam::Black);
    assert_eq!(board.get_piece([1, 4]), Some(None));
    let moved = board.get_piece([3, 4]).unwrap().unwrap();
    assert_eq!(moved.kind, PieceKind::Pawn);
    assert_eq!(moved.moves, 1);
    assert_eq!(board.move_piece([6, 3], [4, 3]), Some(true));
    assert_eq!(board.opportunity_location, Some([4, 3]));
    // a pawn that has moved may not step twice
    assert_eq!(board.move_piece([3, 4], [5, 4]), None);
}

#[test]
fn opportunity_capture_needs_armed_square() {
    let mut board = ChessBoard::new();
    assert_eq!(board.move_piece([1, 4], [3, 4]), Some(true));
    assert_eq!(board.move_piece([6, 0], [5, 0]), Some(true));
    assert_eq!(board.move_piece([3, 4], [4, 4]), Some(true));
    assert_eq!(board.move_piece([6, 3], [4, 3]), Some(true));
    assert_eq!(board.opportunity_location, Some([4, 3]));
    // sideways onto the pawn that just stepped twice: it is taken, the capturer lands behind it
    assert_eq!(board.move_piece([4, 4], [4, 3]), Some(true));
    assert_eq!(board.get_piece([4, 3]), Some(None));
    assert_eq!(board.get_piece([4, 4]), Some(None));
    assert_eq!(board.get_piece([5, 3]).unwrap().unwrap().team, PieceTeam::White);
    assert_eq!(board.opportunity_location, None);
}

#[test]
fn opportunity_capture_rejected_when_stale() {
    let mut board = ChessBoard::new();
    assert_eq!(board.move_piece([1, 4], [3, 4]), Some(true));
    assert_eq!(board.move_piece([6, 0], [5, 0]), Some(true));
    assert_eq!(board.move_piece([3, 4], [4, 4]), Some(true));
    assert_eq!(board.move_piece([6, 3], [4, 3]), Some(true));
    assert_eq!(board.move_piece([1, 0], [2, 0]), Some(true));
    assert_eq!(board.move_piece([5, 0], [4, 0]), Some(true));
    assert_eq!(board.opportunity_location, None);
    let snapshot = board.clone();
    assert_eq!(board.check_move([4, 4], [4, 3]), None);
    assert_eq!(board.move_piece([4, 4], [4, 3]), None);
    assert_eq!(board, snapshot);
}

fn clear_kingside(board: &mut ChessBoard) {
    assert_eq!(board.move_piece([1, 4], [2, 4]), Some(true));
    assert_eq!(board.move_piece([6, 0], [5, 0]), Some(true));
    assert_eq!(board.move_piece([0, 6], [2, 7]), Some(true));
    assert_eq!(board.move_piece([5, 0], [4, 0]), Some(true));
    assert_eq!(board.move_piece([0, 5], [1, 4]), Some(true));
    assert_eq!(board.move_piece([4, 0], [3, 0]), Some(true));
}

#[test]
fn castling_with_unmoved_king_and_rook() {
    let mut board = ChessBoard::new();
    clear_kingside(&mut board);
    assert_eq!(board.move_piece([0, 4], [0, 7]), Some(true));
    let king = board.get_piece([0, 6]).unwrap().unwrap();
    assert_eq!((king.kind, king.team, king.moves), (PieceKind::King, PieceTeam::White, 1));
    let rook = board.get_piece([0, 5]).unwrap().unwrap();
    assert_eq!((rook.kind, rook.team, rook.moves), (PieceKind::Rook, PieceTeam::White, 1));
    assert_eq!(board.get_piece([0, 4]), Some(None));
    assert_eq!(board.get_piece([0, 7]), Some(None));
    assert_eq!(board.king_positions[1], [0, 6]);
    assert_eq!(board.turn, PieceTeam::Black);
}

#[test]
fn castling_refused_after_king_moved() {
    let mut board = ChessBoard::new();
    clear_kingside(&mut board);
    assert_eq!(board.move_piece([0, 4], [0, 5]), Some(true));
    assert_eq!(board.move_piece([6, 1], [5, 1]), Some(true));
    assert_eq!(board.move_piece([0, 5], [0, 4]), Some(true));
    assert_eq!(board.move_piece([5, 1], [4, 1]), Some(true));
    let snapshot = board.clone();
    assert_eq!(board.move_piece([0, 4], [0, 7]), None);
    assert_eq!(board, snapshot);
}

#[test]
fn castling_refused_through_occupied_square() {
    let mut board = ChessBoard::new();
    assert_eq!(board.check_move([0, 4], [0, 7]), None);
    assert_eq!(board.move_piece([0, 4], [0, 7]), None);
}

#[test]
fn promotion_awaits_choice() {
    let mut board = ChessBoard::new();
    put(&mut board, [6, 0], Some(ChessPiece::new(PieceKind::Pawn, PieceTeam::White).moved()));
    put(&mut board, [7, 0], None);
    assert_eq!(board.move_piece([6, 0], [7, 0]), Some(false));
    assert_eq!(board.selection_mode, SelectionMode::PromotePiece([7, 0]));
    assert_eq!(board.turn, PieceTeam::White);
    // no ordinary move while the choice is pending
    let snapshot = board.clone();
    assert_eq!(board.move_piece([1, 1], [2, 1]), None);
    assert_eq!(board.select_promotion(4), None);
    assert_eq!(board, snapshot);
    assert_eq!(board.select_promotion(0), Some(()));
    let promoted = board.get_piece([7, 0]).unwrap().unwrap();
    assert_eq!((promoted.kind, promoted.team), (PieceKind::Queen, PieceTeam::White));
    assert_eq!(board.turn, PieceTeam::Black);
    assert_eq!(board.selection_mode, SelectionMode::MovePiece);
    assert_eq!(board.select_promotion(0), None);
}

#[test]
fn promotion_to_knight() {
    let mut board = ChessBoard::new();
    put(&mut board, [6, 1], Some(ChessPiece::new(PieceKind::Pawn, PieceTeam::White).moved()));
    put(&mut board, [7, 1], None);
    assert_eq!(board.move_piece([6, 1], [7, 1]), Some(false));
    assert_eq!(board.select_promotion(3), Some(()));
    assert_eq!(board.get_piece([7, 1]).unwrap().unwrap().kind, PieceKind::Knight);
}

#[test]
fn pinned_piece_cannot_move() {
    let mut board = ChessBoard::new();
    put(&mut board, [1, 4], None);
    put(&mut board, [2, 4], piece(PieceKind::Knight, PieceTeam::White));
    put(&mut board, [5, 4], piece(PieceKind::Rook, PieceTeam::Black));
    assert!(!board.king_is_in_check());
    assert!(board.check_move([2, 4], [4, 5]).is_some());
    assert!(board.king_is_in_check_with_move([2, 4], [4, 5], board.check_move([2, 4], [4, 5])));
    let snapshot = board.clone();
    assert_eq!(board.move_piece([2, 4], [4, 5]), None);
    assert_eq!(board, snapshot);
}

#[test]
fn check_detected_and_must_be_answered() {
    let mut board = ChessBoard::new();
    put(&mut board, [1, 4], None);
    put(&mut board, [5, 4], piece(PieceKind::Rook, PieceTeam::Black));
    assert!(board.king_is_in_check());
    // a move that leaves the king attacked is refused
    assert_eq!(board.move_piece([1, 0], [2, 0]), None);
    // blocking the file is accepted
    assert_eq!(board.move_piece([0, 5], [1, 4]), Some(true));
}

#[test]
fn illegal_moves_leave_board_unchanged() {
    let mut board = ChessBoard::new();
    let snapshot = board.clone();
    // empty origin, enemy piece, blocked ray, wrong geometry, off the files, overflow
    assert_eq!(board.move_piece([3, 3], [4, 3]), None);
    assert_eq!(board.move_piece([6, 3], [5, 3]), None);
    assert_eq!(board.move_piece([0, 0], [3, 0]), None);
    assert_eq!(board.move_piece([1, 3], [3, 4]), None);
    assert_eq!(board.move_piece([1, 7], [2, 8]), None);
    assert_eq!(board.move_piece([0, 3], [isize::MIN, 3]), None);
    assert_eq!(board, snapshot);
}

#[test]
fn knight_jumps_over_pieces() {
    let mut board = ChessBoard::new();
    assert_eq!(board.check_move([0, 1], [2, 2]).map(|m| m.offset), Some([2, 1]));
    assert_eq!(board.move_piece([0, 1], [2, 2]), Some(true));
    assert_eq!(board.get_piece([2, 2]).unwrap().unwrap().kind, PieceKind::Knight);
}

#[test]
fn capture_into_the_wall_expands_storage() {
    let mut board = ChessBoard::new();
    put(&mut board, [1, 0], None);
    put(&mut board, [6, 0], None);
    put(&mut board, [7, 0], None);
    // the white rook runs up the open file and takes a wall queen beyond the stored ranks
    assert_eq!(board.move_piece([0, 0], [8, 0]), Some(true));
    assert_eq!(board.last_rank(), 8);
    assert_eq!(board.get_piece([8, 0]).unwrap().unwrap().kind, PieceKind::Rook);
    // the rank stored anew is empty but for the rook; the wall lies beyond it
    assert_eq!(board.get_piece([8, 1]), Some(None));
    assert_eq!(board.get_piece([9, 0]), Some(piece(PieceKind::Queen, PieceTeam::Black)));
    assert_eq!(board.first_rank(), 0);
}

#[test]
fn king_position_tracks_king_moves() {
    let mut board = ChessBoard::new();
    assert_eq!(board.move_piece([1, 4], [2, 4]), Some(true));
    assert_eq!(board.move_piece([6, 4], [5, 4]), Some(true));
    assert_eq!(board.move_piece([0, 4], [1, 4]), Some(true));
    assert_eq!(board.king_positions, [[7, 4], [1, 4]]);
    assert_eq!(board.move_piece([7, 4], [6, 4]), Some(true));
    assert_eq!(board.king_positions, [[6, 4], [1, 4]]);
}

#[test]
fn castling_only_checks_the_landing_square() {
    let mut board = ChessBoard::new();
    clear_kingside(&mut board);
    // a black rook now attacks the square the king crosses, but not the one it lands on
    put(&mut board, [1, 5], None);
    put(&mut board, [5, 5], piece(PieceKind::Rook, PieceTeam::Black));
    assert!(!board.king_is_in_check());
    assert_eq!(board.move_piece([0, 4], [0, 7]), Some(true));
    assert_eq!(board.king_positions[1], [0, 6]);
}

#[test]
fn castling_refused_in_check() {
    let mut board = ChessBoard::new();
    clear_kingside(&mut board);
    put(&mut board, [2, 4], None);
    put(&mut board, [5, 4], piece(PieceKind::Rook, PieceTeam::Black));
    put(&mut board, [1, 4], None);
    assert!(board.king_is_in_check());
    assert_eq!(board.move_piece([0, 4], [0, 7]), None);
}

#[test]
fn black_pawn_promotes_on_rank_zero() {
    let mut board = ChessBoard::new();
    assert_eq!(board.move_piece([1, 0], [2, 0]), Some(true));
    put(&mut board, [1, 7], Some(ChessPiece::new(PieceKind::Pawn, PieceTeam::Black).moved()));
    put(&mut board, [0, 6], None);
    // the black pawn takes the white knight's square diagonally, on its promotion rank
    put(&mut board, [0, 6], piece(PieceKind::Knight, PieceTeam::White));
    assert_eq!(board.move_piece([1, 7], [0, 6]), Some(false));
    assert_eq!(board.selection_mode, SelectionMode::PromotePiece([0, 6]));
    assert_eq!(board.select_promotion(1), Some(()));
    let promoted = board.get_piece([0, 6]).unwrap().unwrap();
    assert_eq!((promoted.kind, promoted.team), (PieceKind::Rook, PieceTeam::Black));
    assert_eq!(board.turn, PieceTeam::White);
}

#[test]
fn wall_pieces_do_not_move() {
    let mut board = ChessBoard::new();
    put(&mut board, [0, 6], None);
    // a white wall queen right below the stored ranks, with an empty square in front of it
    assert_eq!(board.get_piece([-1, 6]), Some(piece(PieceKind::Queen, PieceTeam::White)));
    assert_eq!(board.check_move([-1, 6], [0, 6]), None);
    let snapshot = board.clone();
    assert_eq!(board.move_piece([-1, 6], [0, 6]), None);
    assert_eq!(board, snapshot);
    // once its rank is stored (empty), nothing is left there to move
    board.expand_to_rank(-1);
    assert_eq!(board.move_piece([-1, 6], [0, 6]), None);
    assert_eq!(board.get_piece([-1, 6]), Some(None));
}

#[test]
fn promotion_keeps_storage() {
    let mut board = ChessBoard::new();
    put(&mut board, [6, 2], Some(ChessPiece::new(PieceKind::Pawn, PieceTeam::White).moved()));
    put(&mut board, [7, 2], None);
    assert_eq!(board.move_piece([6, 2], [7, 2]), Some(false));
    let (len, behind) = (board.ranks.len(), board.ranks_behind_white);
    assert_eq!(board.select_promotion(2), Some(()));
    assert_eq!((board.ranks.len(), board.ranks_behind_white), (len, behind));
    assert_eq!(board.get_piece([7, 2]).unwrap().unwrap().kind, PieceKind::Bishop);
}
