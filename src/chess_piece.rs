use vstd::prelude::*;

use crate::chess_board::NUM_TRADITIONAL_RANKS;

pub mod moves;

verus! {

/// The two sides.
#[derive(Clone, Copy, Debug, PartialEq, Eq, Structural)]
pub enum PieceTeam {
    Black,
    White,
}

/// The six kinds of pieces.
#[derive(Clone, Copy, Debug, PartialEq, Eq, Structural)]
pub enum PieceKind {
    Pawn,
    Bishop,
    Knight,
    Rook,
    Queen,
    King,
}

/// A board occupant: its kind, its side, and how many moves it has made (saturating).
#[derive(Clone, Copy, Debug, PartialEq, Eq, Structural)]
pub struct ChessPiece {
    pub kind: PieceKind,
    pub team: PieceTeam,
    pub moves: u8,
}

impl PieceTeam {
    pub open spec fn spec_opposite(self) -> PieceTeam {
        match self {
            PieceTeam::Black => PieceTeam::White,
            PieceTeam::White => PieceTeam::Black,
        }
    }

    pub open spec fn spec_pawn_upgrade_rank(self) -> int {
        match self {
            PieceTeam::Black => 0,
            PieceTeam::White => NUM_TRADITIONAL_RANKS - 1,
        }
    }

    /// The rank on which a pawn of this side is promoted.
    pub fn pawn_upgrade_rank(self) -> (r: isize)
        ensures
            r == self.spec_pawn_upgrade_rank(),
    {
        match self {
            PieceTeam::Black => 0,
            PieceTeam::White => (NUM_TRADITIONAL_RANKS - 1) as isize,
        }
    }

    /// The other side.
    pub fn opposite(self) -> (r: Self)
        ensures
            r == self.spec_opposite(),
            r != self,
    {
        match self {
            PieceTeam::Black => PieceTeam::White,
            PieceTeam::White => PieceTeam::Black,
        }
    }
}

impl ChessPiece {
    /// A piece that has not moved yet.
    pub fn new(kind: PieceKind, team: PieceTeam) -> (r: Self)
        ensures
            r == (ChessPiece { kind, team, moves: 0 }),
    {
        ChessPiece { kind, team, moves: 0 }
    }

    pub open spec fn spec_moved(self) -> ChessPiece {
        ChessPiece { moves: if self.moves < u8::MAX { (self.moves + 1) as u8 } else { u8::MAX }, ..self }
    }

    /// The same piece after one more move; the counter stops at its maximum.
    pub fn moved(self) -> (r: Self)
        ensures
            r == self.spec_moved(),
    {
        ChessPiece { moves: self.moves.saturating_add(1), ..self }
    }

    /// The rank on which this piece is promoted, if it can be.
    pub open spec fn spec_upgrade_rank(self) -> Option<int> {
        match self.kind {
            PieceKind::Pawn => Some(self.team.spec_pawn_upgrade_rank()),
            _ => None,
        }
    }

    /// The kinds this piece may be promoted to, best first, if it can be promoted.
    pub open spec fn spec_upgrade_kinds(self) -> Option<Seq<PieceKind>> {
        match self.kind {
            PieceKind::Pawn => Some(
                seq![PieceKind::Queen, PieceKind::Rook, PieceKind::Bishop, PieceKind::Knight],
            ),
            _ => None,
        }
    }

    /// The rank on which this piece is promoted: a pawn's side's last rank; `None` for other
    /// kinds.
    pub fn upgrade_rank(self) -> (r: Option<isize>)
        ensures
            r matches Some(x) ==> self.spec_upgrade_rank() == Some(x as int),
            r is None <==> self.spec_upgrade_rank() is None,
    {
        match self.kind {
            PieceKind::Pawn => Some(self.team.pawn_upgrade_rank()),
            _ => None,
        }
    }

    /// The kinds this piece may be promoted to: queen, rook, bishop, knight for a pawn; `None`
    /// for other kinds.
    pub fn upgrade_kinds(self) -> (r: Option<Vec<PieceKind>>)
        ensures
            r matches Some(v) ==> self.spec_upgrade_kinds() == Some(v@),
            r is None <==> self.spec_upgrade_kinds() is None,
    {
        match self.kind {
            PieceKind::Pawn => {
                let v = vec![PieceKind::Queen, PieceKind::Rook, PieceKind::Bishop, PieceKind::Knight];
                assert(v@ =~= seq![PieceKind::Queen, PieceKind::Rook, PieceKind::Bishop, PieceKind::Knight]);
                Some(v)
            },
            _ => None,
        }
    }

    /// Counts one more move in place; the counter stops at its maximum.
    pub fn increment_moves(&mut self)
        ensures
            *final(self) == old(self).spec_moved(),
    {
        self.moves = self.moves.saturating_add(1);
    }
}


} // verus!

verus! {

/// One geometric move pattern of a piece, with the conditions and side effects that come with it.
///
/// `offset` is (rank, file). A repeating move may be taken any positive number of times along
/// its ray. `forced_motion_offset` is where the moving piece really lands, taken from its origin,
/// and the piece on the target square is removed. `captured_piece_offset` is where the piece on
/// the target square is carried to, taken from the mover's origin.
#[derive(Clone, Copy, Debug, PartialEq, Eq)]
pub struct PieceMove {
    pub offset: [i8; 2],
    pub forced_motion_offset: Option<[i8; 2]>,
    pub captured_piece_offset: Option<[i8; 2]>,
    pub repeating: bool,
    pub can_capture: bool,
    pub can_capture_ally: bool,
    pub can_move: bool,
    pub provokes_opportunity: bool,
    pub requires_opportunity: bool,
    pub allowed_in_check: bool,
    pub forced_capture_kind: Option<PieceKind>,
    pub pieces_must_be_new: bool,
}

/// Whether `offset` is one or more whole steps of `unit`.
pub open spec fn steps_of(dr: int, df: int, unit: [i8; 2]) -> bool {
    exists|k: int| k >= 1 && dr == #[trigger] scaled(k, unit[0] as int) && df == scaled(k, unit[1] as int)
}

/// `k` copies of `unit`.
pub open spec fn scaled(k: int, unit: int) -> int {
    k * unit
}

/// `from` moved by `offset`, if both coordinates stay representable.
pub open spec fn shifted(from: [isize; 2], offset: [i8; 2]) -> Option<[isize; 2]> {
    let r = from[0] + offset[0];
    let f = from[1] + offset[1];
    if isize::MIN <= r <= isize::MAX && isize::MIN <= f <= isize::MAX {
        Some([r as isize, f as isize])
    } else {
        None
    }
}

impl PieceMove {
    /// A plain single step that can move onto an empty square or capture an enemy.
    pub open spec fn spec_step(rank: int, file: int) -> PieceMove {
        PieceMove {
            offset: [rank as i8, file as i8],
            forced_motion_offset: None,
            captured_piece_offset: None,
            repeating: false,
            can_capture: true,
            can_capture_ally: false,
            can_move: true,
            provokes_opportunity: false,
            requires_opportunity: false,
            allowed_in_check: true,
            forced_capture_kind: None,
            pieces_must_be_new: false,
        }
    }

    /// A plain single step that can move onto an empty square or capture an enemy.
    pub fn step(rank: i8, file: i8) -> (r: PieceMove)
        ensures
            r == PieceMove::spec_step(rank as int, file as int),
    {
        PieceMove {
            offset: [rank, file],
            forced_motion_offset: None,
            captured_piece_offset: None,
            repeating: false,
            can_capture: true,
            can_capture_ally: false,
            can_move: true,
            provokes_opportunity: false,
            requires_opportunity: false,
            allowed_in_check: true,
            forced_capture_kind: None,
            pieces_must_be_new: false,
        }
    }

    /// Whether a displacement of (`dr`, `df`) is produced by this move.
    pub open spec fn matches_offset(self, dr: int, df: int) -> bool {
        if self.repeating {
            steps_of(dr, df, self.offset)
        } else {
            dr == self.offset[0] && df == self.offset[1]
        }
    }

    /// Where the moving piece lands when it is sent from `from` to `to`.
    pub open spec fn spec_landing(self, from: [isize; 2], to: [isize; 2]) -> Option<[isize; 2]> {
        match self.forced_motion_offset {
            Some(o) => shifted(from, o),
            None => Some(to),
        }
    }

    /// Where the piece on the target square is carried, if this move carries it.
    pub open spec fn spec_carried_to(self, from: [isize; 2]) -> Option<[isize; 2]> {
        match self.captured_piece_offset {
            Some(o) => shifted(from, o),
            None => None,
        }
    }

    /// The offset, widened.
    pub fn offset(self) -> (r: [isize; 2])
        ensures
            r[0] == self.offset[0],
            r[1] == self.offset[1],
    {
        [self.offset[0] as isize, self.offset[1] as isize]
    }

    /// The forced landing offset, widened.
    pub fn forced_motion_offset(self) -> (r: Option<[isize; 2]>)
        ensures
            r.is_some() == self.forced_motion_offset.is_some(),
            r matches Some(o) ==> o[0] == self.forced_motion_offset.unwrap()[0] && o[1]
                == self.forced_motion_offset.unwrap()[1],
    {
        match self.forced_motion_offset {
            Some(o) => Some([o[0] as isize, o[1] as isize]),
            None => None,
        }
    }

    /// The offset that the target square's piece is carried to, widened.
    pub fn captured_piece_offset(self) -> (r: Option<[isize; 2]>)
        ensures
            r.is_some() == self.captured_piece_offset.is_some(),
            r matches Some(o) ==> o[0] == self.captured_piece_offset.unwrap()[0] && o[1]
                == self.captured_piece_offset.unwrap()[1],
    {
        match self.captured_piece_offset {
            Some(o) => Some([o[0] as isize, o[1] as isize]),
            None => None,
        }
    }

    /// Whether a displacement of `offset` is produced by this move.
    pub fn is_offset_valid(self, offset: [isize; 2]) -> (r: bool)
        ensures
            r == self.matches_offset(offset[0] as int, offset[1] as int),
    {
        if self.repeating {
            let a = axis_steps(offset[0], self.offset[0]);
            let b = axis_steps(offset[1], self.offset[1]);
            match (a, b) {
                (Some(ka), Some(kb)) => {
                    if self.offset[0] == 0 || self.offset[1] == 0 {
                        proof {
                            if self.offset[0] == 0 && self.offset[1] == 0 {
                                assert(steps_of(offset[0] as int, offset[1] as int, self.offset)) by {
                                    assert(offset[0] == scaled(1, self.offset[0] as int));
                                    assert(offset[1] == scaled(1, self.offset[1] as int));
                                }
                            } else if self.offset[0] == 0 {
                                assert(offset[0] == scaled(kb as int, self.offset[0] as int)) by (nonlinear_arith)
                                    requires self.offset[0] == 0, offset[0] == 0;
                                assert(offset[1] == scaled(kb as int, self.offset[1] as int));
                            } else {
                                assert(offset[1] == scaled(ka as int, self.offset[1] as int)) by (nonlinear_arith)
                                    requires self.offset[1] == 0, offset[1] == 0;
                                assert(offset[0] == scaled(ka as int, self.offset[0] as int));
                            }
                        }
                        true
                    } else {
                        proof {
                            if steps_of(offset[0] as int, offset[1] as int, self.offset) {
                                let k = choose|k: int|
                                    k >= 1 && offset[0] == #[trigger] scaled(k, self.offset[0] as int) && offset[1] == scaled(k, self.offset[1] as int);
                                lemma_unique_factor(offset[0] as int, self.offset[0] as int, k, ka as int);
                                lemma_unique_factor(offset[1] as int, self.offset[1] as int, k, kb as int);
                            }
                        }
                        proof {
                            if ka == kb {
                                assert(offset[1] == scaled(ka as int, self.offset[1] as int));
                                assert(offset[0] == scaled(ka as int, self.offset[0] as int));
                            }
                        }
                        ka == kb
                    }
                },
                _ => {
                    proof {
                        if steps_of(offset[0] as int, offset[1] as int, self.offset) {
                            let k = choose|k: int|
                                k >= 1 && offset[0] == #[trigger] scaled(k, self.offset[0] as int) && offset[1] == scaled(k, self.offset[1] as int);
                            if self.offset[0] == 0 {
                                assert(offset[0] == 0) by (nonlinear_arith)
                                    requires offset[0] == k * self.offset[0], self.offset[0] == 0;
                            }
                            if self.offset[1] == 0 {
                                assert(offset[1] == 0) by (nonlinear_arith)
                                    requires offset[1] == k * self.offset[1], self.offset[1] == 0;
                            }
                            assert(false);
                        }
                    }
                    false
                },
            }
        } else {
            offset[0] == self.offset[0] as isize && offset[1] == self.offset[1] as isize
        }
    }

    /// Where the moving piece lands when sent from `from` to `to`; `None` on overflow.
    pub fn apply_additional_motion_offset_to_move(self, from: [isize; 2], to: [isize; 2]) -> (r:
        Option<[isize; 2]>)
        ensures
            r == self.spec_landing(from, to),
    {
        match self.forced_motion_offset {
            Some(o) => shift(from, o),
            None => Some(to),
        }
    }

    /// Where the target square's piece is carried; `None` when this move carries nothing or on
    /// overflow.
    pub fn apply_captured_piece_offset_to_origin(self, from: [isize; 2]) -> (r: Option<[isize; 2]>)
        ensures
            r == self.spec_carried_to(from),
    {
        match self.captured_piece_offset {
            Some(o) => shift(from, o),
            None => None,
        }
    }
}

impl Default for PieceMove {
    /// The zero step: moves or captures an enemy, nothing else.
    fn default() -> (r: Self)
        ensures
            r == PieceMove::spec_step(0, 0),
    {
        PieceMove::step(0, 0)
    }
}

/// `from` moved by `offset`, or `None` where a coordinate would overflow.
pub fn shift(from: [isize; 2], offset: [i8; 2]) -> (r: Option<[isize; 2]>)
    ensures
        r == shifted(from, offset),
{
    let r = from[0].checked_add(offset[0] as isize);
    let f = from[1].checked_add(offset[1] as isize);
    match (r, f) {
        (Some(r), Some(f)) => Some([r, f]),
        _ => None,
    }
}

pub(crate) proof fn lemma_unique_factor(o: int, unit: int, k: int, q: int)
    requires
        unit != 0,
        o == k * unit,
        o == q * unit,
    ensures
        k == q,
{
    assert((k - q) * unit == 0) by (nonlinear_arith)
        requires o == k * unit, o == q * unit;
    assert(k - q == 0) by (nonlinear_arith)
        requires (k - q) * unit == 0, unit != 0;
}

/// How many whole steps of `unit` make up `o`, on one axis. A zero unit gives zero steps for a
/// zero displacement and nothing otherwise.
fn axis_steps(o: isize, unit: i8) -> (r: Option<u64>)
    ensures
        unit == 0 ==> r == (if o == 0 { Some(0u64) } else { None::<u64> }),
        unit != 0 ==> (r.is_some() <==> exists|k: int| k >= 1 && o == #[trigger] scaled(k, unit as int)),
        unit != 0 ==> (r matches Some(k) ==> k >= 1 && o == k * unit),
{
    if unit == 0 {
        if o == 0 {
            Some(0)
        } else {
            None
        }
    } else if o == 0 || (o > 0) != (unit > 0) {
        proof {
            if exists|k: int| k >= 1 && o == #[trigger] scaled(k, unit as int) {
                let k = choose|k: int| k >= 1 && o == #[trigger] scaled(k, unit as int);
                if unit > 0 {
                    assert(k * unit > 0) by (nonlinear_arith)
                        requires k >= 1, unit > 0;
                } else {
                    assert(k * unit < 0) by (nonlinear_arith)
                        requires k >= 1, unit < 0;
                }
            }
        }
        None
    } else {
        let mag: u64 = if o < 0 {
            (-(o + 1)) as u64 + 1
        } else {
            o as u64
        };
        let umag: u64 = if unit < 0 {
            (-(unit as i16)) as u64
        } else {
            unit as u64
        };
        assert(mag >= 1 && umag >= 1);
        let q = mag / umag;
        let rem = mag % umag;
        assert(mag == q * umag + rem) by (nonlinear_arith)
            requires q == mag / umag, rem == mag % umag, umag >= 1;
        if rem == 0 {
            assert(q >= 1) by (nonlinear_arith)
                requires mag == q * umag + rem, rem == 0, mag >= 1, q >= 0;
            assert(o == scaled(q as int, unit as int)) by (nonlinear_arith)
                requires
                    mag == q * umag,
                    (o > 0 && unit > 0 && mag == o && umag == unit) || (o < 0 && unit < 0 && mag
                        == -o && umag == -unit);
            Some(q)
        } else {
            proof {
                if exists|k: int| k >= 1 && o == #[trigger] scaled(k, unit as int) {
                    let k = choose|k: int| k >= 1 && o == #[trigger] scaled(k, unit as int);
                    assert(mag == k * umag) by (nonlinear_arith)
                        requires
                            o == k * unit,
                            (o > 0 && unit > 0 && mag == o && umag == unit) || (o < 0 && unit < 0
                                && mag == -o && umag == -unit);
                    vstd::arithmetic::div_mod::lemma_mod_multiples_basic(k, umag as int);
                    assert(false);
                }
            }
            None
        }
    }
}

} // verus!
