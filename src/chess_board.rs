use vstd::prelude::*;

use std::collections::VecDeque;

use crate::chess_piece::{ChessPiece, PieceKind, PieceTeam};

verus! {

/// Number of files; every coordinate's file lies in `0..NUM_FILES`.
pub const NUM_FILES: usize = 8;

/// Number of ranks of a traditional board: white starts on ranks 0 and 1, black on 6 and 7.
pub const NUM_TRADITIONAL_RANKS: usize = 8;

/// One rank of the board, indexed by file.
pub type Rank = [Option<ChessPiece>; NUM_FILES];

/// Whether the engine takes ordinary moves or waits for the choice of a promotion.
#[derive(Clone, Copy, Debug, PartialEq, Eq)]
pub enum SelectionMode {
    MovePiece,
    PromotePiece([isize; 2]),
}

/// The whole game state. Coordinates are `[rank, file]`; ranks are unbounded both ways.
///
/// `ranks` stores a contiguous window of ranks, the first of which is logical rank
/// `-ranks_behind_white`. Every rank below the window reads as a row of white queens and every
/// rank above it as a row of black queens.
#[derive(Clone, Debug, PartialEq, Eq)]
pub struct ChessBoard {
    pub ranks: VecDeque<Rank>,
    pub ranks_behind_white: usize,
    pub turn: PieceTeam,
    pub king_positions: [[isize; 2]; 2],
    pub opportunity_location: Option<[isize; 2]>,
    pub selection_mode: SelectionMode,
}

/// A row of queens of `team`: what lies beyond the stored ranks on that side's end.
pub open spec fn wall_rank(team: PieceTeam) -> Rank {
    let q = Some(ChessPiece { kind: PieceKind::Queen, team, moves: 0 });
    [q, q, q, q, q, q, q, q]
}

/// Logical rank `rank` of a window `ranks` whose first entry is rank `-behind`: beyond the
/// window, the wall of the side whose end it is.
pub open spec fn rank_in(ranks: Seq<Rank>, behind: int, rank: int) -> Rank {
    if rank < -behind {
        wall_rank(PieceTeam::White)
    } else if rank >= ranks.len() - behind {
        wall_rank(PieceTeam::Black)
    } else {
        ranks[rank + behind]
    }
}

/// A rank with no piece on it.
pub open spec fn empty_rank() -> Rank {
    [None, None, None, None, None, None, None, None]
}

/// Whether `file` is a file of the board.
pub open spec fn file_in_range(file: int) -> bool {
    0 <= file < NUM_FILES
}

/// The pieces of the back rank, from file 0 to file 7.
pub open spec fn back_rank_kind(file: int) -> PieceKind {
    if file == 0 || file == 7 {
        PieceKind::Rook
    } else if file == 1 || file == 6 {
        PieceKind::Knight
    } else if file == 2 || file == 5 {
        PieceKind::Bishop
    } else if file == 3 {
        PieceKind::Queen
    } else {
        PieceKind::King
    }
}

/// What square (`rank`, `file`) holds when a game starts.
pub open spec fn initial_square(rank: int, file: int) -> Option<ChessPiece> {
    if rank < 0 {
        Some(ChessPiece { kind: PieceKind::Queen, team: PieceTeam::White, moves: 0 })
    } else if rank == 0 {
        Some(ChessPiece { kind: back_rank_kind(file), team: PieceTeam::White, moves: 0 })
    } else if rank == 1 {
        Some(ChessPiece { kind: PieceKind::Pawn, team: PieceTeam::White, moves: 0 })
    } else if rank <= 5 {
        None
    } else if rank == 6 {
        Some(ChessPiece { kind: PieceKind::Pawn, team: PieceTeam::Black, moves: 0 })
    } else if rank == 7 {
        Some(ChessPiece { kind: back_rank_kind(file), team: PieceTeam::Black, moves: 0 })
    } else {
        Some(ChessPiece { kind: PieceKind::Queen, team: PieceTeam::Black, moves: 0 })
    }
}

/// The index of `team` in `king_positions`.
pub open spec fn team_index(team: PieceTeam) -> int {
    match team {
        PieceTeam::Black => 0,
        PieceTeam::White => 1,
    }
}

impl ChessBoard {
    /// The lowest stored rank.
    pub open spec fn spec_first_rank(&self) -> int {
        -(self.ranks_behind_white as int)
    }

    /// The highest stored rank.
    pub open spec fn spec_last_rank(&self) -> int {
        self.ranks@.len() - self.ranks_behind_white - 1
    }

    /// The storage holds rank 0 and fits the index type, and a pending promotion names a
    /// square of the board.
    pub open spec fn wf(&self) -> bool {
        &&& self.ranks@.len() <= isize::MAX
        &&& self.ranks_behind_white < self.ranks@.len()
        &&& (self.selection_mode matches SelectionMode::PromotePiece(loc) ==> file_in_range(
            loc[1] as int,
        ))
    }

    /// The contents of logical rank `rank`, wall ranks included.
    pub open spec fn rank_view(&self, rank: int) -> Rank {
        rank_in(self.ranks@, self.ranks_behind_white as int, rank)
    }

    /// What square (`rank`, `file`) holds; meaningful for a file of the board.
    pub open spec fn square(&self, rank: int, file: int) -> Option<ChessPiece> {
        self.rank_view(rank)[file]
    }

    /// What `get_piece` reports for `c`: `None` off the files, else the square's contents.
    pub open spec fn spec_get_piece(&self, c: [isize; 2]) -> Option<Option<ChessPiece>> {
        if file_in_range(c[1] as int) {
            Some(self.square(c[0] as int, c[1] as int))
        } else {
            None
        }
    }

    /// The tracked position of the king of the side to move.
    pub open spec fn spec_king_position(&self) -> [isize; 2] {
        self.king_positions[team_index(self.turn)]
    }

    /// Whether the stored window, stretched to take in `rank`, still fits the index type.
    pub open spec fn can_hold(&self, rank: int) -> bool {
        let low = if rank < self.spec_first_rank() { rank } else { self.spec_first_rank() };
        let high = if rank > self.spec_last_rank() { rank } else { self.spec_last_rank() };
        high - low + 1 <= isize::MAX
    }

    /// Whether the tracked position of `team`'s king is a square holding a king of `team`.
    pub open spec fn tracks_king(&self, team: PieceTeam) -> bool {
        let k = self.king_positions[team_index(team)];
        &&& file_in_range(k[1] as int)
        &&& self.square(k[0] as int, k[1] as int) matches Some(p) && p.kind == PieceKind::King
            && p.team == team
    }

    /// What square (`r`, `f`) holds once the stored window is stretched to ranks `low` to
    /// `high`: the ranks newly stored are empty, every other square reads as before.
    pub open spec fn square_stretched(&self, low: int, high: int, r: int, f: int) -> Option<
        ChessPiece,
    > {
        if low <= r <= high && !(self.spec_first_rank() <= r <= self.spec_last_rank()) {
            None
        } else {
            self.square(r, f)
        }
    }
}

/// A row of queens of `team`.
fn queen_rank(team: PieceTeam) -> (r: Rank)
    ensures
        r == wall_rank(team),
{
    let q = Some(ChessPiece::new(PieceKind::Queen, team));
    let r = [q, q, q, q, q, q, q, q];
    assert(r =~= wall_rank(team));
    r
}

/// A row of eight pieces of `kind` for `team`.
fn uniform_rank(kind: PieceKind, team: PieceTeam) -> (r: Rank)
    ensures
        forall|f: int| 0 <= f < NUM_FILES ==> #[trigger] r[f] == Some(ChessPiece { kind, team, moves: 0 }),
{
    let p = Some(ChessPiece::new(kind, team));
    [p, p, p, p, p, p, p, p]
}

/// The back rank of `team`.
fn king_rank(team: PieceTeam) -> (r: Rank)
    ensures
        forall|f: int| 0 <= f < NUM_FILES ==> #[trigger] r[f] == Some(ChessPiece { kind: back_rank_kind(f), team, moves: 0 }),
{
    [
        Some(ChessPiece::new(PieceKind::Rook, team)),
        Some(ChessPiece::new(PieceKind::Knight, team)),
        Some(ChessPiece::new(PieceKind::Bishop, team)),
        Some(ChessPiece::new(PieceKind::Queen, team)),
        Some(ChessPiece::new(PieceKind::King, team)),
        Some(ChessPiece::new(PieceKind::Bishop, team)),
        Some(ChessPiece::new(PieceKind::Knight, team)),
        Some(ChessPiece::new(PieceKind::Rook, team)),
    ]
}

/// The same pieces with every piece's side switched.
pub fn invert_teams(pieces: Rank) -> (r: Rank)
    ensures
        forall|f: int|
            0 <= f < NUM_FILES ==> #[trigger] r[f] == match pieces[f] {
                Some(p) => Some(ChessPiece { team: p.team.spec_opposite(), ..p }),
                None => None,
            },
{
    let mut r = pieces;
    let mut i: usize = 0;
    while i < NUM_FILES
        invariant
            i <= NUM_FILES,
            forall|f: int|
                0 <= f < i ==> #[trigger] r[f] == match pieces[f] {
                    Some(p) => Some(ChessPiece { team: p.team.spec_opposite(), ..p }),
                    None => None,
                },
            forall|f: int| i <= f < NUM_FILES ==> #[trigger] r[f] == pieces[f],
        decreases NUM_FILES - i,
    {
        if let Some(p) = r[i] {
            r[i] = Some(ChessPiece { team: p.team.opposite(), ..p });
        }
        i += 1;
    }
    r
}

impl ChessBoard {
    /// A new game: white's back rank on rank 0 and pawns on rank 1, black's pawns on rank 6
    /// and back rank on rank 7, white to move.
    pub fn new() -> (r: Self)
        ensures
            r.wf(),
            r.spec_first_rank() == 0,
            r.spec_last_rank() == NUM_TRADITIONAL_RANKS - 1,
            forall|rank: int, file: int|
                file_in_range(file) ==> #[trigger] r.square(rank, file) == initial_square(rank, file),
            r.turn == PieceTeam::White,
            r.king_positions == [[7isize, 4isize], [0isize, 4isize]],
            r.tracks_king(PieceTeam::Black),
            r.tracks_king(PieceTeam::White),
            r.opportunity_location.is_none(),
            r.selection_mode == SelectionMode::MovePiece,
    {
        let mut ranks: VecDeque<Rank> = VecDeque::with_capacity(NUM_TRADITIONAL_RANKS);
        let black_king = king_rank(PieceTeam::Black);
        let black_pawn = uniform_rank(PieceKind::Pawn, PieceTeam::Black);
        ranks.push_back(invert_teams(black_king));
        ranks.push_back(invert_teams(black_pawn));
        let empty: Rank = [None, None, None, None, None, None, None, None];
        let mut i: usize = 0;
        while i < NUM_TRADITIONAL_RANKS - 4
            invariant
                i <= NUM_TRADITIONAL_RANKS - 4,
                ranks@.len() == 2 + i,
                forall|j: int| 2 <= j < ranks@.len() ==> #[trigger] ranks@[j] == empty,
                forall|f: int| 0 <= f < NUM_FILES ==> #[trigger] ranks@[0][f] == Some(ChessPiece { kind: back_rank_kind(f), team: PieceTeam::White, moves: 0 }),
                forall|f: int| 0 <= f < NUM_FILES ==> #[trigger] ranks@[1][f] == Some(ChessPiece { kind: PieceKind::Pawn, team: PieceTeam::White, moves: 0 }),
            decreases NUM_TRADITIONAL_RANKS - 4 - i,
        {
            ranks.push_back(empty);
            i += 1;
        }
        ranks.push_back(black_pawn);
        ranks.push_back(black_king);
        let r = ChessBoard {
            ranks,
            ranks_behind_white: 0,
            turn: PieceTeam::White,
            king_positions: [[7, 4], [0, 4]],
            opportunity_location: None,
            selection_mode: SelectionMode::MovePiece,
        };
        assert forall|rank: int, file: int| file_in_range(file) implies #[trigger] r.square(rank, file) == initial_square(rank, file) by {
            if 0 <= rank < 8 {
                assert(r.ranks@[rank][file] == initial_square(rank, file));
            }
        }
        assert(r.square(7, 4) == initial_square(7, 4));
        assert(r.square(0, 4) == initial_square(0, 4));
        r
    }
}

impl Default for ChessBoard {
    /// A new game.
    fn default() -> (r: Self)
        ensures
            r.wf(),
            r.spec_first_rank() == 0,
            r.spec_last_rank() == NUM_TRADITIONAL_RANKS - 1,
            r.tracks_king(PieceTeam::Black),
            r.tracks_king(PieceTeam::White),
            forall|rank: int, file: int|
                file_in_range(file) ==> #[trigger] r.square(rank, file) == initial_square(rank, file),
            r.turn == PieceTeam::White,
            r.king_positions == [[7isize, 4isize], [0isize, 4isize]],
            r.opportunity_location.is_none(),
            r.selection_mode == SelectionMode::MovePiece,
    {
        ChessBoard::new()
    }
}

} // verus!

verus! {

/// Relies on `VecDeque`'s `IndexMut`: `ranks[i]` is a mutable reference to the element at
/// position `i`, and writing through it changes that element alone.
#[verifier::external_body]
fn rank_slot(ranks: &mut VecDeque<Rank>, i: usize) -> (r: &mut Rank)
    requires
        i < old(ranks)@.len(),
    ensures
        *r == old(ranks)@[i as int],
        final(ranks)@ == old(ranks)@.update(i as int, *final(r)),
{
    &mut ranks[i]
}

impl ChessBoard {
    /// The storage index of logical rank `rank`, saturating at the bounds of `isize`.
    pub fn index_of_rank(&self, rank: isize) -> (r: isize)
        requires
            self.wf(),
        ensures
            r == (if rank + self.ranks_behind_white > isize::MAX {
                isize::MAX as int
            } else {
                rank + self.ranks_behind_white
            }),
    {
        match rank.checked_add(self.ranks_behind_white as isize) {
            Some(index) => index,
            None => isize::MAX,
        }
    }

    /// The lowest stored rank.
    pub fn first_rank(&self) -> (r: isize)
        requires
            self.wf(),
        ensures
            r == self.spec_first_rank(),
    {
        -(self.ranks_behind_white as isize)
    }

    /// The highest stored rank.
    pub fn last_rank(&self) -> (r: isize)
        requires
            self.wf(),
        ensures
            r == self.spec_last_rank(),
    {
        self.ranks.len() as isize + self.first_rank() - 1
    }

    /// The rank seen from the other side of a traditional board.
    pub fn invert_rank(&self, rank: isize) -> (r: isize)
        requires
            rank > isize::MIN + NUM_TRADITIONAL_RANKS,
        ensures
            r == NUM_TRADITIONAL_RANKS - rank - 1,
    {
        NUM_TRADITIONAL_RANKS as isize - rank - 1
    }

    /// The file seen from the other side of the board.
    pub fn invert_file(&self, file: isize) -> (r: isize)
        requires
            file > isize::MIN + NUM_FILES,
        ensures
            r == NUM_FILES - file - 1,
    {
        NUM_FILES as isize - file - 1
    }

    /// The contents of logical rank `rank`; beyond the stored ranks, a wall of queens.
    pub fn get_rank(&self, rank: isize) -> (r: Rank)
        requires
            self.wf(),
        ensures
            r == self.rank_view(rank as int),
    {
        let index = self.index_of_rank(rank);
        if index < 0 {
            queen_rank(PieceTeam::White)
        } else if (index as usize) < self.ranks.len() {
            self.ranks[index as usize]
        } else {
            queen_rank(PieceTeam::Black)
        }
    }

    /// The contents of square `[rank, file]`, or `None` when `file` is off the board.
    pub fn get_piece(&self, c: [isize; 2]) -> (r: Option<Option<ChessPiece>>)
        requires
            self.wf(),
        ensures
            r == self.spec_get_piece(c),
    {
        if 0 <= c[1] && c[1] < NUM_FILES as isize {
            let rank = self.get_rank(c[0]);
            Some(rank[c[1] as usize])
        } else {
            None
        }
    }

    /// The tracked position of the king of the side to move.
    pub fn get_king_position(&self) -> (r: [isize; 2])
        ensures
            r == self.spec_king_position(),
    {
        match self.turn {
            PieceTeam::Black => self.king_positions[0],
            PieceTeam::White => self.king_positions[1],
        }
    }

    /// A mutable reference to stored rank `rank`, or `None` when it is not stored.
    pub fn get_rank_mut(&mut self, rank: isize) -> (r: Option<&mut Rank>)
        requires
            old(self).wf(),
        ensures
            r.is_some() == (old(self).spec_first_rank() <= rank <= old(self).spec_last_rank()),
            r matches Some(m) ==> *m == old(self).rank_view(rank as int) && final(self).ranks@
                == old(self).ranks@.update(rank + old(self).ranks_behind_white, *final(m)),
            r.is_none() ==> final(self).ranks@ == old(self).ranks@,
            final(self).ranks_behind_white == old(self).ranks_behind_white,
            final(self).turn == old(self).turn,
            final(self).king_positions == old(self).king_positions,
            final(self).opportunity_location == old(self).opportunity_location,
            final(self).selection_mode == old(self).selection_mode,
    {
        let index = self.index_of_rank(rank);
        if index >= 0 && (index as usize) < self.ranks.len() {
            Some(rank_slot(&mut self.ranks, index as usize))
        } else {
            None
        }
    }

    /// A mutable reference to stored square `[rank, file]`, or `None` when its rank is not
    /// stored or `file` is off the board.
    pub fn get_piece_mut(&mut self, c: [isize; 2]) -> (r: Option<&mut Option<ChessPiece>>)
        requires
            old(self).wf(),
        ensures
            r.is_some() == (old(self).spec_first_rank() <= c[0] <= old(self).spec_last_rank()
                && file_in_range(c[1] as int)),
            r matches Some(m) ==> *m == old(self).square(c[0] as int, c[1] as int) && forall|
                rank: int,
                file: int,
            |
                file_in_range(file) ==> #[trigger] final(self).square(rank, file) == if rank == c[0]
                    && file == c[1] {
                    *final(m)
                } else {
                    old(self).square(rank, file)
                },
            r.is_none() ==> final(self).ranks@ == old(self).ranks@,
            final(self).ranks@.len() == old(self).ranks@.len(),
            final(self).ranks_behind_white == old(self).ranks_behind_white,
            final(self).turn == old(self).turn,
            final(self).king_positions == old(self).king_positions,
            final(self).opportunity_location == old(self).opportunity_location,
            final(self).selection_mode == old(self).selection_mode,
    {
        if c[1] < 0 || c[1] >= NUM_FILES as isize {
            return None;
        }
        match self.get_rank_mut(c[0]) {
            Some(row) => {
                Some(&mut row[c[1] as usize])
            },
            None => None,
        }
    }

    /// A mutable reference to the tracked king position of the side to move.
    pub fn get_king_position_mut(&mut self) -> (r: &mut [isize; 2])
        ensures
            *r == old(self).spec_king_position(),
            final(self).king_positions@ == old(self).king_positions@.update(
                team_index(old(self).turn),
                *final(r),
            ),
            final(self).ranks == old(self).ranks,
            final(self).ranks_behind_white == old(self).ranks_behind_white,
            final(self).turn == old(self).turn,
            final(self).opportunity_location == old(self).opportunity_location,
            final(self).selection_mode == old(self).selection_mode,
    {
        match self.turn {
            PieceTeam::Black => &mut self.king_positions[0],
            PieceTeam::White => &mut self.king_positions[1],
        }
    }

    /// A mutable reference to rank `rank`, storing it first where needed; a rank stored anew
    /// is empty, as is every rank stored anew on the way to it.
    pub fn get_rank_expanding(&mut self, rank: isize) -> (r: &mut Rank)
        requires
            old(self).wf(),
            old(self).can_hold(rank as int),
        ensures
            final(self).wf(),
            *r == if old(self).spec_first_rank() <= rank <= old(self).spec_last_rank() {
                old(self).rank_view(rank as int)
            } else {
                empty_rank()
            },
            forall|x: int, f: int|
                file_in_range(f) ==> #[trigger] final(self).square(x, f) == if x == rank {
                    (*final(r))[f]
                } else {
                    old(self).square_stretched(
                        final(self).spec_first_rank(),
                        final(self).spec_last_rank(),
                        x,
                        f,
                    )
                },
            final(self).spec_first_rank() <= rank <= final(self).spec_last_rank(),
            final(self).spec_first_rank() == if rank < old(self).spec_first_rank() {
                rank as int
            } else {
                old(self).spec_first_rank()
            },
            final(self).spec_last_rank() == if rank > old(self).spec_last_rank() {
                rank as int
            } else {
                old(self).spec_last_rank()
            },
            final(self).turn == old(self).turn,
            final(self).king_positions == old(self).king_positions,
            final(self).opportunity_location == old(self).opportunity_location,
            final(self).selection_mode == old(self).selection_mode,
    {
        self.expand_to_rank(rank);
        let ghost mid = *self;
        let index = (rank + self.ranks_behind_white as isize) as usize;
        proof {
            assert forall|v: Rank, x: int, f: int|
                file_in_range(f) implies #[trigger] rank_in(
                    mid.ranks@.update(index as int, v),
                    mid.ranks_behind_white as int,
                    x,
                )[f] == if x == rank {
                    v[f]
                } else {
                    old(self).square_stretched(mid.spec_first_rank(), mid.spec_last_rank(), x, f)
                } by {
                assert(mid.square(x, f) == old(self).square_stretched(mid.spec_first_rank(), mid.spec_last_rank(), x, f));
            }
            assert(mid.rank_view(rank as int) == mid.ranks@[index as int]);
        }
        let r = rank_slot(&mut self.ranks, index);
        r
    }

    /// Stores rank `c[0]` where needed, then gives a mutable reference to square `c`; `None`
    /// when `file` is off the board. Ranks stored anew are empty.
    pub fn get_piece_expanding(&mut self, c: [isize; 2]) -> (r: Option<&mut Option<ChessPiece>>)
        requires
            old(self).wf(),
            old(self).can_hold(c[0] as int),
        ensures
            final(self).wf(),
            final(self).spec_first_rank() <= c[0] <= final(self).spec_last_rank(),
            r.is_some() == file_in_range(c[1] as int),
            r matches Some(m) ==> *m == old(self).square_stretched(
                final(self).spec_first_rank(),
                final(self).spec_last_rank(),
                c[0] as int,
                c[1] as int,
            ) && forall|x: int, f: int|
                file_in_range(f) ==> #[trigger] final(self).square(x, f) == if x == c[0] && f
                    == c[1] {
                    *final(m)
                } else {
                    old(self).square_stretched(
                        final(self).spec_first_rank(),
                        final(self).spec_last_rank(),
                        x,
                        f,
                    )
                },
            r.is_none() ==> forall|x: int, f: int|
                file_in_range(f) ==> #[trigger] final(self).square(x, f) == old(self).square_stretched(
                    final(self).spec_first_rank(),
                    final(self).spec_last_rank(),
                    x,
                    f,
                ),
            final(self).spec_first_rank() == if c[0] < old(self).spec_first_rank() {
                c[0] as int
            } else {
                old(self).spec_first_rank()
            },
            final(self).spec_last_rank() == if c[0] > old(self).spec_last_rank() {
                c[0] as int
            } else {
                old(self).spec_last_rank()
            },
            final(self).turn == old(self).turn,
            final(self).king_positions == old(self).king_positions,
            final(self).opportunity_location == old(self).opportunity_location,
            final(self).selection_mode == old(self).selection_mode,
    {
        let row = self.get_rank_expanding(c[0]);
        if c[1] < 0 || c[1] >= NUM_FILES as isize {
            return None;
        }
        Some(&mut row[c[1] as usize])
    }

    /// Stores every rank from the current window out to `rank`. The ranks newly stored are
    /// empty; the ranks stored before are untouched.
    pub fn expand_to_rank(&mut self, rank: isize)
        requires
            old(self).wf(),
            old(self).can_hold(rank as int),
        ensures
            final(self).wf(),
            final(self).spec_first_rank() == if rank < old(self).spec_first_rank() {
                rank as int
            } else {
                old(self).spec_first_rank()
            },
            final(self).spec_last_rank() == if rank > old(self).spec_last_rank() {
                rank as int
            } else {
                old(self).spec_last_rank()
            },
            forall|r: int|
                old(self).spec_first_rank() <= r <= old(self).spec_last_rank() ==> #[trigger] final(self).rank_view(r)
                    == old(self).rank_view(r),
            forall|r: int|
                (final(self).spec_first_rank() <= r < old(self).spec_first_rank() || old(self).spec_last_rank() < r
                    <= final(self).spec_last_rank()) ==> #[trigger] final(self).rank_view(r) == empty_rank(),
            forall|r: int, f: int|
                file_in_range(f) ==> #[trigger] final(self).square(r, f) == old(self).square_stretched(
                    final(self).spec_first_rank(),
                    final(self).spec_last_rank(),
                    r,
                    f,
                ),
            final(self).turn == old(self).turn,
            final(self).king_positions == old(self).king_positions,
            final(self).opportunity_location == old(self).opportunity_location,
            final(self).selection_mode == old(self).selection_mode,
    {
        let ghost old_ranks = self.ranks@;
        let first = self.first_rank();
        let last = self.last_rank();
        let empty: Rank = [None, None, None, None, None, None, None, None];
        assert(empty == empty_rank());
        if rank < first {
            let additional = (first - rank) as usize;
            self.ranks.reserve(additional);
            let mut i: usize = 0;
            while i < additional
                invariant
                    i <= additional,
                    additional == first - rank,
                    empty == empty_rank(),
                    self.ranks@.len() == old_ranks.len() + i,
                    forall|j: int| 0 <= j < i ==> #[trigger] self.ranks@[j] == empty,
                    forall|j: int| 0 <= j < old_ranks.len() ==> #[trigger] self.ranks@[j + i] == old_ranks[j],
                    self.ranks_behind_white == old(self).ranks_behind_white,
                    self.turn == old(self).turn,
                    self.king_positions == old(self).king_positions,
                    self.opportunity_location == old(self).opportunity_location,
                    self.selection_mode == old(self).selection_mode,
                decreases additional - i,
            {
                let ghost prev = self.ranks@;
                self.ranks.push_front(empty);
                i += 1;
                assert forall|j: int| 0 <= j < old_ranks.len() implies #[trigger] self.ranks@[j + i] == old_ranks[j] by {
                    assert(prev[j + (i - 1)] == old_ranks[j]);
                }
            }
            self.ranks_behind_white = (-rank) as usize;
            assert forall|r: int| first <= r <= last implies #[trigger] self.rank_view(r) == old(self).rank_view(r) by {
                assert(self.ranks@[(r - first) + additional] == old_ranks[r - first]);
            }
            assert forall|r: int| rank <= r < first implies #[trigger] self.rank_view(r) == empty_rank() by {
                assert(self.ranks@[r - rank] == empty);
            }
            assert forall|r: int, f: int| file_in_range(f) implies #[trigger] self.square(r, f) == old(self).square_stretched(
                rank as int,
                last as int,
                r,
                f,
            ) by {
                if first <= r <= last {
                    assert(self.rank_view(r) == old(self).rank_view(r));
                } else if rank <= r < first {
                    assert(self.rank_view(r) == empty_rank());
                }
            }
        } else if rank > last {
            let additional = (rank - last) as usize;
            self.ranks.reserve(additional);
            let mut i: usize = 0;
            while i < additional
                invariant
                    i <= additional,
                    additional == rank - last,
                    empty == empty_rank(),
                    self.ranks@.len() == old_ranks.len() + i,
                    forall|j: int| 0 <= j < old_ranks.len() ==> #[trigger] self.ranks@[j] == old_ranks[j],
                    forall|j: int| old_ranks.len() <= j < self.ranks@.len() ==> #[trigger] self.ranks@[j] == empty,
                    self.ranks_behind_white == old(self).ranks_behind_white,
                    self.turn == old(self).turn,
                    self.king_positions == old(self).king_positions,
                    self.opportunity_location == old(self).opportunity_location,
                    self.selection_mode == old(self).selection_mode,
                decreases additional - i,
            {
                self.ranks.push_back(empty);
                i += 1;
            }
            assert forall|r: int| last < r <= rank implies #[trigger] self.rank_view(r) == empty_rank() by {
                assert(self.ranks@[r + self.ranks_behind_white] == empty);
            }
            assert forall|r: int, f: int| file_in_range(f) implies #[trigger] self.square(r, f) == old(self).square_stretched(
                first as int,
                rank as int,
                r,
                f,
            ) by {
                if last < r <= rank {
                    assert(self.rank_view(r) == empty_rank());
                }
            }
        }
    }

    /// Writes `value` on square `c`, storing its rank first where needed; ranks stored anew are
    /// otherwise empty.
    pub(crate) fn set_square(&mut self, c: [isize; 2], value: Option<ChessPiece>)
        requires
            old(self).wf(),
            old(self).can_hold(c[0] as int),
            file_in_range(c[1] as int),
        ensures
            final(self).wf(),
            forall|r: int, f: int|
                file_in_range(f) ==> #[trigger] final(self).square(r, f) == if r == c[0] && f == c[1] {
                    value
                } else {
                    old(self).square_stretched(
                        final(self).spec_first_rank(),
                        final(self).spec_last_rank(),
                        r,
                        f,
                    )
                },
            final(self).spec_first_rank() == if c[0] < old(self).spec_first_rank() {
                c[0] as int
            } else {
                old(self).spec_first_rank()
            },
            final(self).spec_last_rank() == if c[0] > old(self).spec_last_rank() {
                c[0] as int
            } else {
                old(self).spec_last_rank()
            },
            final(self).turn == old(self).turn,
            final(self).king_positions == old(self).king_positions,
            final(self).opportunity_location == old(self).opportunity_location,
            final(self).selection_mode == old(self).selection_mode,
    {
        self.expand_to_rank(c[0]);
        let ghost mid = *self;
        let index = (c[0] + self.ranks_behind_white as isize) as usize;
        let slot = rank_slot(&mut self.ranks, index);
        slot[c[1] as usize] = value;
        assert forall|r: int, f: int| file_in_range(f) implies #[trigger] self.square(r, f) == if r == c[0] && f == c[1] {
                value
            } else {
                old(self).square_stretched(self.spec_first_rank(), self.spec_last_rank(), r, f)
            } by {
            assert(mid.square(r, f) == old(self).square_stretched(mid.spec_first_rank(), mid.spec_last_rank(), r, f));
        }
    }
}

} // verus!
