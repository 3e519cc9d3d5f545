use armada_chess::chess_piece::moves::{all_moves, invert_moves, move_catalog, MoveSet};
use armada_chess::chess_piece::{ChessPiece, PieceKind, PieceMove, PieceTeam};

#[test]
fn catalog_lookup_is_stable() {
    let a = ChessPiece::new(PieceKind::Pawn, PieceTeam::White);
    let b = ChessPiece { moves: 0, ..a };
    assert_eq!(a.move_set(), b.move_set());
    assert_eq!(a.moves(), b.moves());
    assert_eq!(a.move_set(), MoveSet::PawnWhiteNew);
    assert_eq!(a.moved().move_set(), MoveSet::PawnWhite);
    assert_eq!(a.moved().moved().moves(), a.moved().moves());
    assert!(a.is_moveset_from_same_reference(MoveSet::PawnWhiteNew));
    assert!(!a.is_moveset_from_same_reference(MoveSet::PawnBlackNew));
    let q = ChessPiece::new(PieceKind::Queen, PieceTeam::Black);
    assert_eq!(q.move_set(), ChessPiece::new(PieceKind::Queen, PieceTeam::White).move_set());
}

#[test]
fn catalog_sizes() {
    let sizes: Vec<usize> = all_moves().into_iter().map(|s| move_catalog(s).len()).collect();
    assert_eq!(sizes, vec![5, 6, 5, 6, 4, 8, 4, 8, 10]);
}

#[test]
fn white_pawns_mirror_black() {
    let black = move_catalog(MoveSet::PawnBlackNew);
    let white = move_catalog(MoveSet::PawnWhiteNew);
    assert_eq!(invert_moves(black.clone()), white);
    assert_eq!(white[1].offset, [2, 0]);
    assert!(white[1].provokes_opportunity);
    assert_eq!(white[4].forced_motion_offset, Some([1, -1]));
    assert_eq!(black[4].forced_motion_offset, Some([-1, -1]));
}

#[test]
fn offset_validity() {
    let rook = move_catalog(MoveSet::Rook)[0];
    assert!(rook.is_offset_valid([5, 0]));
    assert!(!rook.is_offset_valid([-5, 0]));
    assert!(!rook.is_offset_valid([5, 1]));
    assert!(!rook.is_offset_valid([0, 0]));
    let bishop = move_catalog(MoveSet::Bishop)[0];
    assert!(bishop.is_offset_valid([3, 3]));
    assert!(!bishop.is_offset_valid([3, 2]));
    let wide = PieceMove { offset: [2, -3], repeating: true, ..PieceMove::default() };
    assert!(wide.is_offset_valid([6, -9]));
    assert!(!wide.is_offset_valid([6, -6]));
    assert!(!wide.is_offset_valid([5, -9]));
    assert!(!wide.is_offset_valid([isize::MIN, -9]));
    let knight = move_catalog(MoveSet::Knight)[0];
    assert!(knight.is_offset_valid([1, 2]));
    assert!(!knight.is_offset_valid([2, 4]));
}

#[test]
fn landing_and_carried_squares() {
    let castle = move_catalog(MoveSet::King)[9];
    assert_eq!(castle.apply_additional_motion_offset_to_move([0, 4], [0, 7]), Some([0, 6]));
    assert_eq!(castle.apply_captured_piece_offset_to_origin([0, 4]), Some([0, 5]));
    assert_eq!(castle.forced_motion_offset(), Some([0, 2]));
    assert_eq!(castle.captured_piece_offset(), Some([0, 1]));
    assert_eq!(castle.apply_additional_motion_offset_to_move([isize::MAX, isize::MAX], [0, 0]), None);
    let step = move_catalog(MoveSet::King)[0];
    assert_eq!(step.apply_additional_motion_offset_to_move([0, 4], [1, 4]), Some([1, 4]));
    assert_eq!(step.apply_captured_piece_offset_to_origin([0, 4]), None);
    assert_eq!(step.offset(), [1, 0]);
}

#[test]
fn pieces_and_teams() {
    let p = ChessPiece::new(PieceKind::Pawn, PieceTeam::Black);
    assert_eq!(p.upgrade_rank(), Some(0));
    assert_eq!(ChessPiece::new(PieceKind::Pawn, PieceTeam::White).upgrade_rank(), Some(7));
    assert_eq!(ChessPiece::new(PieceKind::Rook, PieceTeam::White).upgrade_rank(), None);
    assert_eq!(
        p.upgrade_kinds(),
        Some(vec![PieceKind::Queen, PieceKind::Rook, PieceKind::Bishop, PieceKind::Knight])
    );
    assert_eq!(ChessPiece::new(PieceKind::King, PieceTeam::White).upgrade_kinds(), None);
    assert_eq!(PieceTeam::White.opposite(), PieceTeam::Black);
    assert_eq!(PieceTeam::Black.pawn_upgrade_rank(), 0);
    let mut counted = ChessPiece { moves: 254, ..p };
    counted.increment_moves();
    assert_eq!(counted.moves, 255);
    counted.increment_moves();
    assert_eq!(counted.moves, 255);
    assert_eq!(counted.moved().moves, 255);
}
