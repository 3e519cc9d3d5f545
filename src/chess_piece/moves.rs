use vstd::prelude::*;

use super::{ChessPiece, PieceKind, PieceMove, PieceTeam};

verus! {

/// Names each move catalog. A piece's catalog is chosen by its kind, its side and whether it
/// has moved; check detection compares catalogs by this name.
#[derive(Clone, Copy, Debug, PartialEq, Eq, Structural)]
pub enum MoveSet {
    PawnBlack,
    PawnBlackNew,
    PawnWhite,
    PawnWhiteNew,
    Bishop,
    Knight,
    Rook,
    Queen,
    King,
}

/// Every catalog, in the order in which check detection walks them.
pub open spec fn all_move_sets() -> Seq<MoveSet> {
    seq![
        MoveSet::PawnBlack,
        MoveSet::PawnBlackNew,
        MoveSet::PawnWhite,
        MoveSet::PawnWhiteNew,
        MoveSet::Bishop,
        MoveSet::Knight,
        MoveSet::Rook,
        MoveSet::Queen,
        MoveSet::King,
    ]
}

/// The names of every catalog, in the order of `all_move_sets`.
pub fn all_moves() -> (r: Vec<MoveSet>)
    ensures
        r@ == all_move_sets(),
{
    let r = vec![
        MoveSet::PawnBlack,
        MoveSet::PawnBlackNew,
        MoveSet::PawnWhite,
        MoveSet::PawnWhiteNew,
        MoveSet::Bishop,
        MoveSet::Knight,
        MoveSet::Rook,
        MoveSet::Queen,
        MoveSet::King,
    ];
    assert(r@ =~= all_move_sets());
    r
}

/// A repeating ray.
pub open spec fn spec_ray(rank: int, file: int) -> PieceMove {
    PieceMove { repeating: true, ..PieceMove::spec_step(rank, file) }
}

/// A step that only moves onto an empty square.
pub open spec fn spec_advance(rank: int) -> PieceMove {
    PieceMove { can_capture: false, ..PieceMove::spec_step(rank, 0) }
}

/// A step that only captures.
pub open spec fn spec_strike(rank: int, file: int) -> PieceMove {
    PieceMove { can_move: false, ..PieceMove::spec_step(rank, file) }
}

/// The sideways capture of a pawn that has just advanced two squares beside this one; the
/// capturing pawn lands diagonally behind it.
pub open spec fn spec_opportunity_strike(file: int) -> PieceMove {
    PieceMove {
        forced_motion_offset: Some([-1i8, file as i8]),
        can_move: false,
        requires_opportunity: true,
        ..PieceMove::spec_step(0, file)
    }
}

/// Castling toward the side of `file`: the king walks to an unmoved rook of its own side, lands
/// two squares over, and the rook lands on the square the king crossed.
pub open spec fn spec_castle(file: int) -> PieceMove {
    PieceMove {
        forced_motion_offset: Some([0i8, (2 * file) as i8]),
        captured_piece_offset: Some([0i8, file as i8]),
        repeating: true,
        can_capture_ally: true,
        forced_capture_kind: Some(PieceKind::Rook),
        allowed_in_check: false,
        pieces_must_be_new: true,
        ..PieceMove::spec_step(0, file)
    }
}

/// The same move for the other side: every rank component is negated.
pub open spec fn spec_inverted(m: PieceMove) -> PieceMove {
    PieceMove {
        offset: [(-m.offset[0]) as i8, m.offset[1]],
        forced_motion_offset: match m.forced_motion_offset {
            Some(o) => Some([(-o[0]) as i8, o[1]]),
            None => None,
        },
        ..m
    }
}

pub open spec fn spec_pawn_black() -> Seq<PieceMove> {
    seq![
        spec_advance(-1),
        spec_strike(-1, -1),
        spec_strike(-1, 1),
        spec_opportunity_strike(-1),
        spec_opportunity_strike(1),
    ]
}

pub open spec fn spec_pawn_black_new() -> Seq<PieceMove> {
    seq![
        spec_advance(-1),
        PieceMove { provokes_opportunity: true, ..spec_advance(-2) },
        spec_strike(-1, -1),
        spec_strike(-1, 1),
        spec_opportunity_strike(-1),
        spec_opportunity_strike(1),
    ]
}

/// The catalog that each name stands for.
pub open spec fn catalog(set: MoveSet) -> Seq<PieceMove> {
    match set {
        MoveSet::PawnBlack => spec_pawn_black(),
        MoveSet::PawnBlackNew => spec_pawn_black_new(),
        MoveSet::PawnWhite => spec_pawn_black().map_values(|m: PieceMove| spec_inverted(m)),
        MoveSet::PawnWhiteNew => spec_pawn_black_new().map_values(|m: PieceMove| spec_inverted(m)),
        MoveSet::Bishop => seq![spec_ray(1, 1), spec_ray(1, -1), spec_ray(-1, 1), spec_ray(-1, -1)],
        MoveSet::Knight => seq![
            PieceMove::spec_step(1, 2),
            PieceMove::spec_step(2, 1),
            PieceMove::spec_step(1, -2),
            PieceMove::spec_step(2, -1),
            PieceMove::spec_step(-1, 2),
            PieceMove::spec_step(-2, 1),
            PieceMove::spec_step(-1, -2),
            PieceMove::spec_step(-2, -1),
        ],
        MoveSet::Rook => seq![spec_ray(1, 0), spec_ray(0, 1), spec_ray(-1, 0), spec_ray(0, -1)],
        MoveSet::Queen => seq![
            spec_ray(1, 0),
            spec_ray(1, 1),
            spec_ray(0, 1),
            spec_ray(-1, 1),
            spec_ray(-1, 0),
            spec_ray(-1, -1),
            spec_ray(0, -1),
            spec_ray(1, -1),
        ],
        MoveSet::King => seq![
            PieceMove::spec_step(1, 0),
            PieceMove::spec_step(1, 1),
            PieceMove::spec_step(0, 1),
            PieceMove::spec_step(-1, 1),
            PieceMove::spec_step(-1, 0),
            PieceMove::spec_step(-1, -1),
            PieceMove::spec_step(0, -1),
            PieceMove::spec_step(1, -1),
            spec_castle(-1),
            spec_castle(1),
        ],
    }
}

impl ChessPiece {
    /// The catalog that this piece moves by: pawns have one per side and per whether they have
    /// moved, every other kind one for both sides.
    pub open spec fn spec_move_set(self) -> MoveSet {
        match self.kind {
            PieceKind::Pawn => match self.team {
                PieceTeam::Black => if self.moves == 0 {
                    MoveSet::PawnBlackNew
                } else {
                    MoveSet::PawnBlack
                },
                PieceTeam::White => if self.moves == 0 {
                    MoveSet::PawnWhiteNew
                } else {
                    MoveSet::PawnWhite
                },
            },
            PieceKind::Bishop => MoveSet::Bishop,
            PieceKind::Knight => MoveSet::Knight,
            PieceKind::Rook => MoveSet::Rook,
            PieceKind::Queen => MoveSet::Queen,
            PieceKind::King => MoveSet::King,
        }
    }

    /// The name of this piece's catalog.
    pub fn move_set(self) -> (r: MoveSet)
        ensures
            r == self.spec_move_set(),
    {
        match self.kind {
            PieceKind::Pawn => match self.team {
                PieceTeam::Black => if self.moves == 0 {
                    MoveSet::PawnBlackNew
                } else {
                    MoveSet::PawnBlack
                },
                PieceTeam::White => if self.moves == 0 {
                    MoveSet::PawnWhiteNew
                } else {
                    MoveSet::PawnWhite
                },
            },
            PieceKind::Bishop => MoveSet::Bishop,
            PieceKind::Knight => MoveSet::Knight,
            PieceKind::Rook => MoveSet::Rook,
            PieceKind::Queen => MoveSet::Queen,
            PieceKind::King => MoveSet::King,
        }
    }

    /// The moves to try for this piece, in order.
    pub fn moves(self) -> (r: Vec<PieceMove>)
        ensures
            r@ == catalog(self.spec_move_set()),
    {
        move_catalog(self.move_set())
    }

    /// Whether `moves` names the catalog that this piece moves by.
    pub fn is_moveset_from_same_reference(&self, moves: MoveSet) -> (r: bool)
        ensures
            r == (self.spec_move_set() == moves),
    {
        self.move_set() == moves
    }
}

/// Looking up a piece's catalog depends on its kind, its side and whether it has moved, and on
/// nothing else: two such pieces get the same catalog under the same name.
pub proof fn lemma_moves_stable(a: ChessPiece, b: ChessPiece)
    requires
        a.kind == b.kind,
        a.team == b.team,
        (a.moves == 0) == (b.moves == 0),
    ensures
        a.spec_move_set() == b.spec_move_set(),
        catalog(a.spec_move_set()) == catalog(b.spec_move_set()),
{
}

/// White's pawn catalogs are black's with every rank component negated; every other catalog
/// is shared by both sides.
pub proof fn lemma_teams_mirror(kind: PieceKind, moved: u8)
    ensures
        ({
            let black = ChessPiece { kind, team: PieceTeam::Black, moves: moved };
            let white = ChessPiece { kind, team: PieceTeam::White, moves: moved };
            catalog(white.spec_move_set()) == catalog(black.spec_move_set()).map_values(
                |m: PieceMove| spec_inverted(m),
            ) || (kind != PieceKind::Pawn && white.spec_move_set() == black.spec_move_set())
        }),
{
}

fn ray(rank: i8, file: i8) -> (r: PieceMove)
    ensures
        r == spec_ray(rank as int, file as int),
{
    PieceMove { repeating: true, ..PieceMove::step(rank, file) }
}

fn advance(rank: i8) -> (r: PieceMove)
    ensures
        r == spec_advance(rank as int),
{
    PieceMove { can_capture: false, ..PieceMove::step(rank, 0) }
}

fn strike(rank: i8, file: i8) -> (r: PieceMove)
    ensures
        r == spec_strike(rank as int, file as int),
{
    PieceMove { can_move: false, ..PieceMove::step(rank, file) }
}

fn opportunity_strike(file: i8) -> (r: PieceMove)
    ensures
        r == spec_opportunity_strike(file as int),
{
    PieceMove {
        forced_motion_offset: Some([-1, file]),
        can_move: false,
        requires_opportunity: true,
        ..PieceMove::step(0, file)
    }
}

fn castle(file: i8) -> (r: PieceMove)
    requires
        file == 1 || file == -1,
    ensures
        r == spec_castle(file as int),
{
    PieceMove {
        forced_motion_offset: Some([0, 2 * file]),
        captured_piece_offset: Some([0, file]),
        repeating: true,
        can_capture_ally: true,
        forced_capture_kind: Some(PieceKind::Rook),
        allowed_in_check: false,
        pieces_must_be_new: true,
        ..PieceMove::step(0, file)
    }
}

fn pawn_black() -> (r: Vec<PieceMove>)
    ensures
        r@ == spec_pawn_black(),
{
    let r = vec![
        advance(-1),
        strike(-1, -1),
        strike(-1, 1),
        opportunity_strike(-1),
        opportunity_strike(1),
    ];
    assert(r@ =~= spec_pawn_black());
    r
}

fn pawn_black_new() -> (r: Vec<PieceMove>)
    ensures
        r@ == spec_pawn_black_new(),
{
    let r = vec![
        advance(-1),
        PieceMove { provokes_opportunity: true, ..advance(-2) },
        strike(-1, -1),
        strike(-1, 1),
        opportunity_strike(-1),
        opportunity_strike(1),
    ];
    assert(r@ =~= spec_pawn_black_new());
    r
}

/// The same moves for the other side: every rank component, and that of every forced landing,
/// is negated.
pub fn invert_moves(moves: Vec<PieceMove>) -> (r: Vec<PieceMove>)
    requires
        forall|i: int|
            0 <= i < moves@.len() ==> moves@[i].offset[0] != i8::MIN && (
            moves@[i].forced_motion_offset matches Some(o) ==> o[0] != i8::MIN),
    ensures
        r@ == moves@.map_values(|m: PieceMove| spec_inverted(m)),
{
    let mut r: Vec<PieceMove> = Vec::new();
    let mut i: usize = 0;
    while i < moves.len()
        invariant
            i <= moves@.len(),
            forall|j: int|
                0 <= j < moves@.len() ==> moves@[j].offset[0] != i8::MIN && (
                moves@[j].forced_motion_offset matches Some(o) ==> o[0] != i8::MIN),
            r@ == moves@.subrange(0, i as int).map_values(|m: PieceMove| spec_inverted(m)),
        decreases moves.len() - i,
    {
        let m = moves[i];
        let forced = match m.forced_motion_offset {
            Some(o) => Some([-o[0], o[1]]),
            None => None,
        };
        let inverted = PieceMove { offset: [-m.offset[0], m.offset[1]], forced_motion_offset: forced, ..m };
        assert(inverted == spec_inverted(m));
        r.push(inverted);
        i += 1;
        assert(r@ =~= moves@.subrange(0, i as int).map_values(|m: PieceMove| spec_inverted(m)));
    }
    assert(moves@.subrange(0, moves@.len() as int) =~= moves@);
    r
}

/// The moves of the named catalog, in order.
pub fn move_catalog(set: MoveSet) -> (r: Vec<PieceMove>)
    ensures
        r@ == catalog(set),
{
    match set {
        MoveSet::PawnBlack => pawn_black(),
        MoveSet::PawnBlackNew => pawn_black_new(),
        MoveSet::PawnWhite => invert_moves(pawn_black()),
        MoveSet::PawnWhiteNew => invert_moves(pawn_black_new()),
        MoveSet::Bishop => {
            let r = vec![ray(1, 1), ray(1, -1), ray(-1, 1), ray(-1, -1)];
            assert(r@ =~= catalog(set));
            r
        },
        MoveSet::Knight => {
            let r = vec![
                PieceMove::step(1, 2),
                PieceMove::step(2, 1),
                PieceMove::step(1, -2),
                PieceMove::step(2, -1),
                PieceMove::step(-1, 2),
                PieceMove::step(-2, 1),
                PieceMove::step(-1, -2),
                PieceMove::step(-2, -1),
            ];
            assert(r@ =~= catalog(set));
            r
        },
        MoveSet::Rook => {
            let r = vec![ray(1, 0), ray(0, 1), ray(-1, 0), ray(0, -1)];
            assert(r@ =~= catalog(set));
            r
        },
        MoveSet::Queen => {
            let r = vec![
                ray(1, 0),
                ray(1, 1),
                ray(0, 1),
                ray(-1, 1),
                ray(-1, 0),
                ray(-1, -1),
                ray(0, -1),
                ray(1, -1),
            ];
            assert(r@ =~= catalog(set));
            r
        },
        MoveSet::King => {
            let r = vec![
                PieceMove::step(1, 0),
                PieceMove::step(1, 1),
                PieceMove::step(0, 1),
                PieceMove::step(-1, 1),
                PieceMove::step(-1, 0),
                PieceMove::step(-1, -1),
                PieceMove::step(0, -1),
                PieceMove::step(1, -1),
                castle(-1),
                castle(1),
            ];
            assert(r@ =~= catalog(set));
            r
        },
    }
}

} // verus!
